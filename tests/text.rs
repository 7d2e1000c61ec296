use bloomd::config::{BloomConfig, BloomFilterConfig};
use bloomd::decimal::Decimal;
use bloomd::inifile::IniFile;
use bloomd::text::{parse_u64, split_words, u64_to_string};
use bloomd::wrappers::BloomFilterCounters;

#[test]
fn numbers_round_trip() {
    assert_eq!(u64_to_string(0), "0");
    assert_eq!(u64_to_string(18446744073709551615), "18446744073709551615");
    assert_eq!(parse_u64("18446744073709551615"), Some(u64::MAX));
    assert_eq!(parse_u64("18446744073709551616"), None);
    assert_eq!(parse_u64(""), None);
    assert_eq!(parse_u64("12a"), None);
    assert_eq!(parse_u64("007"), Some(7));
}

#[test]
fn decimals() {
    assert_eq!(Decimal::parse("0.0001"), Some(Decimal { digits: 1, scale: 4 }));
    assert_eq!(Decimal::parse("0.010"), Some(Decimal { digits: 1, scale: 2 }));
    assert_eq!(Decimal::parse("3"), Some(Decimal { digits: 3, scale: 0 }));
    assert_eq!(Decimal::parse("1.25"), Some(Decimal { digits: 125, scale: 2 }));
    assert_eq!(Decimal::parse(".5"), None);
    assert_eq!(Decimal::parse("1e-4"), None);
    assert_eq!(Decimal { digits: 1, scale: 4 }.to_text(), "0.0001");
    assert_eq!(Decimal { digits: 125, scale: 2 }.to_text(), "1.25");
    assert_eq!(Decimal { digits: 9, scale: 1 }.to_text(), "0.9");
    assert_eq!(Decimal { digits: 42, scale: 0 }.to_text(), "42");
}

#[test]
fn words_of_a_line() {
    assert_eq!(split_words("  set  f\tkey \r\n"), vec!["set", "f", "key"]);
    assert!(split_words(" \r\n").is_empty());
}

#[test]
fn ini_read_and_write() {
    let mut ini = IniFile::new();
    ini.read_text("# comment\n[one]\na=1\nb = x\n\n[two]\nflag=yes\nnoequals\n[one]\na=2\n");
    assert_eq!(ini.sections(), vec!["one", "two"]);
    assert_eq!(ini.options("one".to_owned()), vec!["a", "b "]);
    assert_eq!(ini.get("one", "a"), Some(2));
    assert_eq!(ini.get_string("one", "b "), Some(" x".to_owned()));
    assert_eq!(ini.get_bool("two", "flag"), Some(true));
    assert_eq!(ini.get_bool("one", "a"), None);
    assert!(ini.has_section("two"));
    assert!(!ini.has_section("three"));
    assert!(ini.has_option("one", "a"));
    assert!(!ini.has_option("two", "a"));
    assert_eq!(ini.to_text(), "[one]\na=2\nb = x\n[two]\nflag=yes\n");
    assert!(ini.remove_option("one".to_owned(), "a".to_owned()));
    assert!(!ini.remove_option("one".to_owned(), "a".to_owned()));
    assert!(ini.remove_section("two".to_owned()));
    assert!(!ini.remove_section("two".to_owned()));
    ini.add_section("three");
    ini.set("three", "k", "v".to_owned());
    assert_eq!(ini.to_text(), "[one]\nb = x\n[three]\nk=v\n");
}

#[test]
fn ini_read_string_lines() {
    let mut ini = IniFile::new();
    ini.read_string(vec!["[s]\r\n".to_owned(), "k=v\r".to_owned(), "k2=\n".to_owned()]);
    assert_eq!(ini.get_string("s", "k"), Some("v".to_owned()));
    assert_eq!(ini.get_string("s", "k2"), Some("".to_owned()));
}

#[test]
fn counters_round_trip() {
    let c = BloomFilterCounters {
        check_hits: 1,
        check_misses: 2,
        set_hits: 3,
        set_misses: 4,
        page_ins: 5,
        page_outs: 6,
    };
    assert_eq!(c.checks(), 3);
    assert_eq!(c.sets(), 7);
    let mut ini = IniFile::new();
    c.add_to_ini(&mut ini);
    assert_eq!(
        ini.to_text(),
        "[counters]\ncheck_hits=1\ncheck_misses=2\nset_hits=3\nset_misses=4\npage_ins=5\npage_outs=6\n"
    );
    assert_eq!(BloomFilterCounters::from_ini(&ini), Ok(c));
    assert_eq!(BloomFilterCounters::from_ini(&IniFile::new()), Err("missing counters:check_hits".to_owned()));
    assert_eq!(BloomFilterCounters::new().checks(), 0);
    let full = BloomFilterCounters { check_hits: u64::MAX, check_misses: 1, ..BloomFilterCounters::new() };
    assert_eq!(full.checks(), u64::MAX);
}

#[test]
fn filter_config_round_trip() {
    let mut c = BloomFilterConfig::new("f".to_owned(), 1000, Decimal { digits: 1, scale: 2 }, 7, false, 1711);
    c.bitmap_filenames = vec!["/d/0.bmp".to_owned(), "/d/1.bmp".to_owned()];
    c.filter_sizes = vec![5, 3];
    c.size = 5;
    let mut ini = IniFile::new();
    c.add_to_ini(&mut ini);
    assert_eq!(
        ini.to_text(),
        "[config]\nfilter_name=f\ncapacity=1000\nprobability=0.01\nk_num=7\nin_memory=false\nbytes=1711\nsize=5\nbitmap_filenames=/d/0.bmp,/d/1.bmp\nfilter_sizes=5,3\n"
    );
    let back = BloomFilterConfig::from_ini(&ini).ok().unwrap();
    assert_eq!(back.filter_name, "f");
    assert_eq!(back.capacity, 1000);
    assert_eq!(back.probability, Decimal { digits: 1, scale: 2 });
    assert_eq!(back.k_num, 7);
    assert!(!back.in_memory);
    assert_eq!(back.bytes, 1711);
    assert_eq!(back.size, 5);
    assert_eq!(back.bitmap_filenames, vec!["/d/0.bmp", "/d/1.bmp"]);
    assert_eq!(back.filter_sizes, vec![5, 3]);
    assert!(BloomFilterConfig::from_ini(&IniFile::new()).is_err());
}

#[test]
fn server_config() {
    let c = BloomConfig::default();
    assert_eq!(c.get_bind_address(), "0.0.0.0:8673");
    let mut ini = IniFile::new();
    ini.read_text("[bloomd]\nport=9000\ndata_dir=/var/bloomd\ndefault_probability=0.001\nin_memory=1\n");
    let c = BloomConfig::from_ini(&ini).ok().unwrap();
    assert_eq!(c.tcp_port, 9000);
    assert_eq!(c.data_dir, "/var/bloomd");
    assert_eq!(c.default_probability, Decimal { digits: 1, scale: 3 });
    assert!(c.in_memory);
    let mut bad = IniFile::new();
    bad.read_text("[bloomd]\ncolour=blue\n");
    assert_eq!(BloomConfig::from_ini(&bad).err(), Some("Unknown option: colour".to_owned()));
}

#[test]
fn signed_settings() {
    assert_eq!(bloomd::config::parse_i32("-5"), Some(-5));
    assert_eq!(bloomd::config::parse_i32("-2147483648"), Some(i32::MIN));
    assert_eq!(bloomd::config::parse_i32("2147483648"), None);
    assert_eq!(bloomd::config::parse_i32("-"), None);
    let mut ini = IniFile::new();
    ini.read_text("[bloomd]\nflush_interval=-1\n");
    assert_eq!(BloomConfig::from_ini(&ini).ok().unwrap().flush_interval, -1);
}

#[test]
fn ini_error_texts() {
    let mut ini = IniFile::new();
    ini.read_text("[config]\nfilter_name=f\ncapacity=10\n");
    assert_eq!(BloomFilterConfig::from_ini(&ini).err(), Some("missing config:probability".to_owned()));
    let mut ini = IniFile::new();
    ini.read_text("[counters]\ncheck_hits=1\ncheck_misses=2\n");
    assert_eq!(BloomFilterCounters::from_ini(&ini), Err("missing counters:set_hits".to_owned()));
}
