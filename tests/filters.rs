use bloomd::bitmap::{bitmap_mode, bloom_bitmap, BitmapError};
use bloomd::bloom::{bloom_bloomfilter, bloom_filter_header, bloom_filter_params, LayerError, MAGIC_HEADER};
use bloomd::decimal::Decimal;
use bloomd::lbf::bloom_lbf;

const PAGE: usize = 4096;

fn params_for(capacity: u64, p: f64) -> (u64, u32) {
    let ln2 = std::f64::consts::LN_2;
    let bits = (-(capacity as f64) * p.ln() / (ln2 * ln2)).ceil();
    let mut k = (bits / capacity as f64 * ln2).round();
    if k < 1.0 {
        k = 1.0;
    }
    ((bits / 8.0).ceil() as u64 + 512, k as u32)
}

fn layer_len(bytes: u64) -> usize {
    ((bytes as usize + PAGE - 1) / PAGE) * PAGE
}

fn new_layer(bytes: u64, k: u32) -> bloom_bloomfilter {
    let mode = bitmap_mode::NEW_BITMAP.flag() | bitmap_mode::ANONYMOUS.flag();
    let map = bloom_bitmap::new(mode, PAGE, layer_len(bytes)).ok().unwrap();
    bloom_bloomfilter::create(k, map).ok().unwrap()
}

#[test]
fn bloom_test() {
    let (bytes, k) = params_for(1000000, 0.001);
    let mut filter = new_layer(bytes, k);
    let key1 = "abc";
    let key2 = "def";
    let key3 = "ghi";

    assert!(filter.add(key1));
    assert!(filter.size() == 1);
    assert!(filter.contains(key1));
    assert!(!filter.contains(key2));
    assert!(!filter.contains(key3));

    assert!(!filter.add(key1));
    assert!(filter.add(key2));
    assert!(filter.size() == 2);
    assert!(filter.contains(key1));
    assert!(filter.contains(key2));
    assert!(!filter.contains(key3));

    assert!(!filter.add(key1));
    assert!(!filter.add(key2));
    assert!(filter.add(key3));
    assert!(filter.size() == 3);
    assert!(filter.contains(key1));
    assert!(filter.contains(key2));
    assert!(filter.contains(key3));

    filter.flush();
}

#[test]
fn lbf_test() {
    let (bytes, k) = params_for(1000000, 0.001);
    let params = bloom_filter_params::new(bytes, k, 1000000, Decimal { digits: 1, scale: 3 });
    let mut lbf = bloom_lbf::new(params, "test".to_owned(), Vec::new());
    for _ in 0..3 {
        assert!(lbf.add_filter(new_layer(bytes, k)));
    }
    let key1 = "abc";
    let key2 = "def";
    let key3 = "ghi";

    assert_eq!(lbf.add(key1), 1);
    assert_eq!(lbf.size(), 1);
    assert_eq!(lbf.contains(key1), 1);
    assert_eq!(lbf.contains(key2), 0);
    assert_eq!(lbf.contains(key3), 0);

    assert_eq!(lbf.add(key1), 2);
    assert_eq!(lbf.add(key2), 1);
    assert_eq!(lbf.size(), 2);
    assert_eq!(lbf.contains(key1), 2);
    assert_eq!(lbf.contains(key2), 1);
    assert_eq!(lbf.contains(key3), 0);

    assert_eq!(lbf.add(key1), 3);
    assert_eq!(lbf.add(key2), 2);
    assert_eq!(lbf.add(key3), 1);
    assert_eq!(lbf.size(), 3);
    assert_eq!(lbf.contains(key1), 3);
    assert_eq!(lbf.contains(key2), 2);
    assert_eq!(lbf.contains(key3), 1);

    assert_eq!(lbf.add(key1), 0);
    let pages = lbf.flush();
    assert_eq!(pages.len(), 3);
}

#[test]
fn layer_rejects_wrong_probe_count_on_other_layers() {
    let (bytes, k) = params_for(1000, 0.01);
    let params = bloom_filter_params::new(bytes, k, 1000, Decimal { digits: 1, scale: 2 });
    let mut lbf = bloom_lbf::new(params, "t".to_owned(), Vec::new());
    assert!(!lbf.add_filter(new_layer(bytes, k + 1)));
    assert_eq!(lbf.num_filters(), 0);
    assert!(lbf.add_filter(new_layer(bytes, k)));
    assert_eq!(lbf.num_filters(), 1);
}

#[test]
fn parameters_for_default_filter() {
    assert_eq!(params_for(100000, 0.0001), (240139, 13));
}

#[test]
fn header_fields() {
    let h = bloom_filter_header::new(MAGIC_HEADER, 7, 42);
    assert_eq!(h.magic, 0xCB1005DD);
    assert_eq!(h.k_num, 7);
    assert_eq!(h.count, 42);
}

#[test]
fn reloaded_layer_holds_the_same_keys() {
    let (bytes, k) = params_for(1000, 0.01);
    let mut layer = new_layer(bytes, k);
    assert!(layer.add("one"));
    assert!(layer.add("two"));
    layer.flush();
    let len = layer.byte_len();
    let mut image = Vec::new();
    for p in 0..len / PAGE {
        image.extend(layer.page(p));
    }
    let map = bloom_bitmap::from_bytes(bitmap_mode::PERSISTENT.flag(), PAGE, len, image).ok().unwrap();
    let back = bloom_bloomfilter::load(map).ok().unwrap();
    assert_eq!(back.size(), 2);
    assert!(back.contains("one"));
    assert!(back.contains("two"));
    assert!(!back.contains("three"));
}

#[test]
fn load_rejects_bad_magic() {
    let map = bloom_bitmap::new(bitmap_mode::ANONYMOUS.flag(), PAGE, PAGE).ok().unwrap();
    assert!(matches!(bloom_bloomfilter::load(map), Err(LayerError::BadMagic)));
}

#[test]
fn create_rejects_zero_probes_and_tiny_maps() {
    let map = bloom_bitmap::new(bitmap_mode::ANONYMOUS.flag(), PAGE, PAGE).ok().unwrap();
    assert!(matches!(bloom_bloomfilter::create(0, map), Err(LayerError::BadProbeCount)));
    let map = bloom_bitmap::new(bitmap_mode::ANONYMOUS.flag(), 256, 512).ok().unwrap();
    assert!(matches!(bloom_bloomfilter::create(3, map), Err(LayerError::TooSmall)));
}

#[test]
fn bitmap_bits_and_dirty_pages() {
    let mut m = bloom_bitmap::new(bitmap_mode::PERSISTENT.flag(), 16, 64).ok().unwrap();
    assert!(!m.read_bit(200));
    m.set_bit(200);
    assert!(m.read_bit(200));
    assert!(!m.read_bit(201));
    assert_eq!(m.byte(25), 1);
    m.set_bit(3);
    assert_eq!(m.flush(), vec![0, 1]);
    assert_eq!(m.flush(), Vec::<usize>::new());
    m.write_bytes(30, &vec![9, 9, 9, 9]);
    assert_eq!(m.flush(), vec![1, 2]);
}

#[test]
fn anonymous_bitmap_flush_writes_nothing() {
    let mut m = bloom_bitmap::new(bitmap_mode::ANONYMOUS.flag(), 16, 64).ok().unwrap();
    m.set_bit(7);
    assert_eq!(m.flush(), Vec::<usize>::new());
    assert!(m.read_bit(7));
}

#[test]
fn bitmap_rejects_bad_lengths() {
    assert!(matches!(bloom_bitmap::new(0, 16, 40), Err(BitmapError::BadLength)));
    assert!(matches!(bloom_bitmap::new(0, 0, 64), Err(BitmapError::BadLength)));
    assert!(matches!(bloom_bitmap::new(0, 16, 0), Err(BitmapError::BadLength)));
    assert!(matches!(bloom_bitmap::from_bytes(0, 16, 32, vec![0; 16]), Err(BitmapError::SizeMismatch)));
}

#[test]
fn bitmap_modes() {
    assert_eq!(bitmap_mode::SHARED.flag(), 1);
    assert_eq!(bitmap_mode::PERSISTENT.flag(), 2);
    assert_eq!(bitmap_mode::ANONYMOUS.flag(), 4);
    assert_eq!(bitmap_mode::NEW_BITMAP.flag(), 8);
    assert!(bloomd::bitmap::mode_has(10, bitmap_mode::PERSISTENT));
    assert!(!bloomd::bitmap::mode_has(10, bitmap_mode::ANONYMOUS));
}

#[test]
fn hashes_of_empty_and_short_keys() {
    assert_eq!(bloomd::hash::hash_pair(b""), (0xcbf29ce484222325, 0));
    assert_eq!(bloomd::hash::hash_pair(b"a"), (0xaf63dc4c8601ec8c, 97));
    assert_eq!(bloomd::hash::hash_pair(b"ab"), (0x089c4407b545986a, 97 * 65599 + 98));
}

#[test]
fn false_positive_rate_is_near_target() {
    let (bytes, k) = params_for(1000, 0.01);
    let mut layer = new_layer(bytes, k);
    for i in 0..1000 {
        layer.add(&format!("key-{}", i));
    }
    let mut hits = 0;
    for i in 0..20000 {
        if layer.contains(&format!("fresh-{}", i)) {
            hits += 1;
        }
    }
    let rate = hits as f64 / 20000.0;
    assert!(rate < 0.03, "false-positive rate {} is far above 0.01", rate);
}

#[test]
fn no_false_negatives_across_layers() {
    let (bytes, k) = params_for(1000, 0.01);
    let params = bloom_filter_params::new(bytes, k, 1000, Decimal { digits: 1, scale: 2 });
    let mut lbf = bloom_lbf::new(params, "n".to_owned(), Vec::new());
    for _ in 0..4 {
        assert!(lbf.add_filter(new_layer(bytes, k)));
    }
    for round in 1..=3u32 {
        for i in 0..300 {
            let key = format!("k{}", i);
            assert!(lbf.add(&key) >= round);
        }
        for i in 0..300 {
            assert!(lbf.contains(&format!("k{}", i)) >= round);
        }
    }
}
