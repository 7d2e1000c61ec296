//! Configuration: a filter's own settings as kept in its INI file, and the
//! server's settings.
use vstd::prelude::*;
use crate::decimal::{decimal_text, parsed_decimal, Decimal, MAX_SCALE};
use crate::inifile::{
    ini_get, is_false_word, is_true_word, lemma_added_section, lemma_set_fresh, section_index,
    IniFile, SectionView,
};
use crate::text::{
    decs, join_on, join_strings, lines_view, numerals, parse_all, parsed_all, parsed_u64, split_on,
    split_on_char, u64_to_string, dec,
};

verus! {

/// A filter's settings as plain values.
pub struct FilterConfigView {
    pub filter_name: Seq<char>,
    pub capacity: u64,
    pub probability: Decimal,
    pub k_num: u32,
    pub in_memory: bool,
    pub bytes: u64,
    pub size: u64,
    pub bitmap_filenames: Seq<Seq<char>>,
    pub filter_sizes: Seq<u64>,
}

/// The text of a flag.
pub open spec fn bool_text(b: bool) -> Seq<char> {
    if b {
        "true"@
    } else {
        "false"@
    }
}

/// The `config` section that holds settings `c`.
pub open spec fn config_section(c: FilterConfigView) -> SectionView {
    SectionView {
        name: "config"@,
        options: seq![
            ("filter_name"@, c.filter_name),
            ("capacity"@, dec(c.capacity as nat)),
            ("probability"@, decimal_text(c.probability)),
            ("k_num"@, dec(c.k_num as nat)),
            ("in_memory"@, bool_text(c.in_memory)),
            ("bytes"@, dec(c.bytes as nat)),
            ("size"@, dec(c.size as nat)),
            ("bitmap_filenames"@, join_on(c.bitmap_filenames, ',')),
            ("filter_sizes"@, join_on(decs(c.filter_sizes), ',')),
        ],
    }
}

/// Option `key` of the `config` section.
pub open spec fn config_str(v: Seq<SectionView>, key: Seq<char>) -> Option<Seq<char>> {
    ini_get(v, "config"@, key)
}

/// Option `key` of the `config` section read as an unsigned 64-bit decimal.
pub open spec fn config_u64(v: Seq<SectionView>, key: Seq<char>) -> Option<u64> {
    match config_str(v, key) {
        Some(s) => parsed_u64(s),
        None => None,
    }
}

/// Option `key` of the `config` section read as a flag.
pub open spec fn config_bool(v: Seq<SectionView>, key: Seq<char>) -> Option<bool> {
    match config_str(v, key) {
        Some(s) => if is_true_word(s) {
            Some(true)
        } else if is_false_word(s) {
            Some(false)
        } else {
            None
        },
        None => None,
    }
}

/// A comma-separated list option: absent or empty reads as no items.
pub open spec fn config_list(v: Seq<SectionView>, key: Seq<char>) -> Seq<Seq<char>> {
    match config_str(v, key) {
        Some(s) => split_on(s, ','),
        None => Seq::empty(),
    }
}

/// What the `config` section of `v` describes, when every setting is there
/// and reads, the name is not empty and there is one size per bitmap file.
pub open spec fn config_of(v: Seq<SectionView>) -> Option<FilterConfigView> {
    let name = config_str(v, "filter_name"@);
    let k = config_u64(v, "k_num"@);
    let prob = match config_str(v, "probability"@) {
        Some(s) => parsed_decimal(s),
        None => None,
    };
    let files = config_list(v, "bitmap_filenames"@);
    let sizes = parsed_all(config_list(v, "filter_sizes"@));
    if name is Some && name->0.len() > 0 && config_u64(v, "capacity"@) is Some && prob is Some
        && k is Some && k->0 <= u32::MAX && config_bool(v, "in_memory"@) is Some && config_u64(
        v,
        "bytes"@,
    ) is Some && config_u64(v, "size"@) is Some && sizes is Some && sizes->0.len() == files.len() {
        Some(
            FilterConfigView {
                filter_name: name->0,
                capacity: config_u64(v, "capacity"@)->0,
                probability: prob->0,
                k_num: k->0 as u32,
                in_memory: config_bool(v, "in_memory"@)->0,
                bytes: config_u64(v, "bytes"@)->0,
                size: config_u64(v, "size"@)->0,
                bitmap_filenames: files,
                filter_sizes: sizes->0,
            },
        )
    } else {
        None
    }
}

/// The error text of reading the `config` section of `v`: the first setting
/// that is missing or does not read, in the order the settings are read.
pub open spec fn config_error(v: Seq<SectionView>) -> Seq<char> {
    let name = config_str(v, "filter_name"@);
    let prob = match config_str(v, "probability"@) {
        Some(s) => parsed_decimal(s),
        None => None,
    };
    let k = config_u64(v, "k_num"@);
    let sizes = parsed_all(config_list(v, "filter_sizes"@));
    if name is None {
        "missing config:filter_name"@
    } else if name->0.len() == 0 {
        "filter_name is empty"@
    } else if config_u64(v, "capacity"@) is None {
        "missing config:capacity"@
    } else if prob is None {
        "missing config:probability"@
    } else if k is None || k->0 > u32::MAX {
        "missing config:k_num"@
    } else if config_bool(v, "in_memory"@) is None {
        "missing config:in_memory"@
    } else if config_u64(v, "bytes"@) is None {
        "missing config:bytes"@
    } else if config_u64(v, "size"@) is None {
        "missing config:size"@
    } else if sizes is None {
        "bad config:filter_sizes"@
    } else {
        "config:bitmap_filenames and config:filter_sizes differ in length"@
    }
}

/// A filter's settings, kept in the `config` section of its INI file.
pub struct BloomFilterConfig {
    pub filter_name: String,
    pub capacity: u64,
    pub probability: Decimal,
    pub k_num: u32,
    pub in_memory: bool,
    pub bytes: u64,
    pub size: u64,
    pub bitmap_filenames: Vec<String>,
    pub filter_sizes: Vec<u64>,
}

fn config_string(ini: &IniFile, key: &str) -> (r: Option<String>)
    ensures
        r is Some <==> config_str(ini.view(), key@) is Some,
        r matches Some(s) ==> config_str(ini.view(), key@) == Some(s@),
{
    proof {
        reveal_strlit("config");
    }
    ini.get_string("config", key)
}

fn config_list_of(ini: &IniFile, key: &str) -> (r: Vec<String>)
    ensures
        lines_view(r@) == config_list(ini.view(), key@),
{
    match config_string(ini, key) {
        Some(s) => split_on_char(s.as_str(), ','),
        None => {
            let r: Vec<String> = Vec::new();
            assert(lines_view(r@) =~= Seq::<Seq<char>>::empty());
            r
        },
    }
}

impl BloomFilterConfig {
    /// What the settings hold.
    pub open spec fn view(&self) -> FilterConfigView {
        FilterConfigView {
            filter_name: self.filter_name@,
            capacity: self.capacity,
            probability: self.probability,
            k_num: self.k_num,
            in_memory: self.in_memory,
            bytes: self.bytes,
            size: self.size,
            bitmap_filenames: lines_view(self.bitmap_filenames@),
            filter_sizes: self.filter_sizes@,
        }
    }

    /// Settings for a new filter: no keys and no layers yet.
    pub fn new(
        filter_name: String,
        capacity: u64,
        probability: Decimal,
        k_num: u32,
        in_memory: bool,
        bytes: u64,
    ) -> (r: Self)
        ensures
            r.view() == (FilterConfigView {
                filter_name: filter_name@,
                capacity,
                probability,
                k_num,
                in_memory,
                bytes,
                size: 0,
                bitmap_filenames: Seq::empty(),
                filter_sizes: Seq::empty(),
            }),
    {
        let r = BloomFilterConfig {
            filter_name,
            capacity,
            probability,
            k_num,
            in_memory,
            bytes,
            size: 0,
            bitmap_filenames: Vec::new(),
            filter_sizes: Vec::new(),
        };
        assert(lines_view(r.bitmap_filenames@) =~= Seq::<Seq<char>>::empty());
        r
    }

    /// Reads the settings from the `config` section.
    pub fn from_ini(ini: &IniFile) -> (r: Result<Self, String>)
        ensures
            r is Ok <==> config_of(ini.view()) is Some,
            r matches Ok(c) ==> config_of(ini.view()) == Some(c.view()),
            r matches Err(e) ==> e@ == config_error(ini.view()),
    {
        proof {
            reveal_strlit("config");
        }
        let filter_name = match config_string(ini, "filter_name") {
            Some(v) => v,
            None => return Err("missing config:filter_name".to_owned()),
        };
        if filter_name.as_str().is_empty() {
            return Err("filter_name is empty".to_owned());
        }
        let capacity = match ini.get("config", "capacity") {
            Some(v) => v,
            None => return Err("missing config:capacity".to_owned()),
        };
        let probability = match config_string(ini, "probability") {
            Some(v) => match Decimal::parse(v.as_str()) {
                Some(d) => d,
                None => return Err("missing config:probability".to_owned()),
            },
            None => return Err("missing config:probability".to_owned()),
        };
        let k_num = match ini.get("config", "k_num") {
            Some(v) => {
                if v > u32::MAX as u64 {
                    return Err("missing config:k_num".to_owned());
                }
                v as u32
            },
            None => return Err("missing config:k_num".to_owned()),
        };
        let in_memory = match ini.get_bool("config", "in_memory") {
            Some(v) => v,
            None => return Err("missing config:in_memory".to_owned()),
        };
        let bytes = match ini.get("config", "bytes") {
            Some(v) => v,
            None => return Err("missing config:bytes".to_owned()),
        };
        let size = match ini.get("config", "size") {
            Some(v) => v,
            None => return Err("missing config:size".to_owned()),
        };
        let bitmap_filenames = config_list_of(ini, "bitmap_filenames");
        let size_texts = config_list_of(ini, "filter_sizes");
        let filter_sizes = match parse_all(&size_texts) {
            Some(v) => v,
            None => return Err("bad config:filter_sizes".to_owned()),
        };
        if bitmap_filenames.len() != filter_sizes.len() {
            return Err("config:bitmap_filenames and config:filter_sizes differ in length".to_owned());
        }
        let r = BloomFilterConfig {
            filter_name,
            capacity,
            probability,
            k_num,
            in_memory,
            bytes,
            size,
            bitmap_filenames,
            filter_sizes,
        };
        Ok(r)
    }

    /// Adds the `config` section, which must not be there yet, holding every setting.
    pub fn add_to_ini(&self, ini: &mut IniFile)
        requires
            old(ini).wf(),
            section_index(old(ini).view(), "config"@) < 0,
            self.probability.scale <= MAX_SCALE,
        ensures
            final(ini).wf(),
            final(ini).view() == old(ini).view().push(config_section(self.view())),
    {
        proof {
            reveal_strlit("config");
            reveal_strlit("filter_name");
            reveal_strlit("capacity");
            reveal_strlit("probability");
            reveal_strlit("k_num");
            reveal_strlit("in_memory");
            reveal_strlit("bytes");
            reveal_strlit("size");
            reveal_strlit("bitmap_filenames");
            reveal_strlit("filter_sizes");
            reveal_strlit("true");
            reveal_strlit("false");
        }
        assert("filter_name"@.len() == 11 && "capacity"@.len() == 8 && "probability"@.len() == 11
            && "k_num"@.len() == 5 && "in_memory"@.len() == 9 && "bytes"@.len() == 5
            && "size"@.len() == 4 && "bitmap_filenames"@.len() == 16 && "filter_sizes"@.len()
            == 12);
        assert("filter_name"@[0] == 'f' && "probability"@[0] == 'p' && "k_num"@[0] == 'k'
            && "bytes"@[0] == 'b');
        let ghost v0 = ini.view();
        ini.add_section("config");
        proof {
            lemma_added_section(v0, SectionView { name: "config"@, options: Seq::empty() });
        }
        let ghost mut opts: Seq<(Seq<char>, Seq<char>)> = Seq::empty();
        let ghost c = self.view();
        proof {
            lemma_set_fresh(ini.view(), "config"@, "filter_name"@, c.filter_name);
        }
        ini.set("config", "filter_name", self.filter_name.clone());
        proof {
            opts = opts.push(("filter_name"@, c.filter_name));
            lemma_set_fresh(ini.view(), "config"@, "capacity"@, dec(c.capacity as nat));
        }
        ini.set("config", "capacity", u64_to_string(self.capacity));
        proof {
            opts = opts.push(("capacity"@, dec(c.capacity as nat)));
            lemma_set_fresh(ini.view(), "config"@, "probability"@, decimal_text(c.probability));
        }
        ini.set("config", "probability", self.probability.to_text());
        proof {
            opts = opts.push(("probability"@, decimal_text(c.probability)));
            lemma_set_fresh(ini.view(), "config"@, "k_num"@, dec(c.k_num as nat));
        }
        ini.set("config", "k_num", u64_to_string(self.k_num as u64));
        proof {
            opts = opts.push(("k_num"@, dec(c.k_num as nat)));
            lemma_set_fresh(ini.view(), "config"@, "in_memory"@, bool_text(c.in_memory));
        }
        let flag = if self.in_memory {
            "true".to_owned()
        } else {
            "false".to_owned()
        };
        ini.set("config", "in_memory", flag);
        proof {
            opts = opts.push(("in_memory"@, bool_text(c.in_memory)));
            lemma_set_fresh(ini.view(), "config"@, "bytes"@, dec(c.bytes as nat));
        }
        ini.set("config", "bytes", u64_to_string(self.bytes));
        proof {
            opts = opts.push(("bytes"@, dec(c.bytes as nat)));
            lemma_set_fresh(ini.view(), "config"@, "size"@, dec(c.size as nat));
        }
        ini.set("config", "size", u64_to_string(self.size));
        proof {
            opts = opts.push(("size"@, dec(c.size as nat)));
            lemma_set_fresh(
                ini.view(),
                "config"@,
                "bitmap_filenames"@,
                join_on(c.bitmap_filenames, ','),
            );
        }
        ini.set("config", "bitmap_filenames", join_strings(&self.bitmap_filenames, ','));
        proof {
            opts = opts.push(("bitmap_filenames"@, join_on(c.bitmap_filenames, ',')));
            lemma_set_fresh(
                ini.view(),
                "config"@,
                "filter_sizes"@,
                join_on(decs(c.filter_sizes), ','),
            );
        }
        let sizes = numerals(&self.filter_sizes);
        ini.set("config", "filter_sizes", join_strings(&sizes, ','));
        proof {
            opts = opts.push(("filter_sizes"@, join_on(decs(c.filter_sizes), ',')));
            assert(ini.view() == v0.push(SectionView { name: "config"@, options: opts }));
        }
        assert(opts =~= config_section(c).options);
    }
}

/// The decimal text of a signed number.
pub open spec fn signed_text(x: i32) -> Seq<char> {
    if x < 0 {
        seq!['-'] + dec((-x) as nat)
    } else {
        dec(x as nat)
    }
}

/// The decimal text of a signed number.
pub fn i32_to_string(x: i32) -> (r: String)
    ensures
        r@ == signed_text(x),
{
    if x < 0 {
        let mut r = String::new();
        crate::text::push_char(&mut r, '-');
        let m: u64 = (-(x as i64)) as u64;
        let d = u64_to_string(m);
        crate::text::push_all(&mut r, d.as_str());
        r
    } else {
        u64_to_string(x as u64)
    }
}

/// The server's settings.
pub struct BloomConfig {
    pub tcp_port: i32,
    pub udp_port: i32,
    pub bind_host: String,
    pub data_dir: String,
    pub initial_capacity: u64,
    pub default_probability: Decimal,
    pub scale_size: i32,
    pub probability_reduction: Decimal,
    pub flush_interval: i32,
    pub cold_interval: i32,
    pub in_memory: bool,
    pub worker_threads: i32,
    pub use_mmap: bool,
}

impl BloomConfig {
    /// Settings with the given values.
    pub fn new(
        tcp_port: i32,
        udp_port: i32,
        bind_host: &str,
        data_dir: &str,
        initial_capacity: u64,
        default_probability: Decimal,
        scale_size: i32,
        probability_reduction: Decimal,
        flush_interval: i32,
        cold_interval: i32,
        in_memory: bool,
        worker_threads: i32,
        use_mmap: bool,
    ) -> (r: Self)
        ensures
            r.tcp_port == tcp_port && r.udp_port == udp_port,
            r.bind_host@ == bind_host@ && r.data_dir@ == data_dir@,
            r.initial_capacity == initial_capacity,
            r.default_probability == default_probability,
            r.scale_size == scale_size,
            r.probability_reduction == probability_reduction,
            r.flush_interval == flush_interval && r.cold_interval == cold_interval,
            r.in_memory == in_memory && r.worker_threads == worker_threads && r.use_mmap == use_mmap,
    {
        BloomConfig {
            tcp_port,
            udp_port,
            bind_host: bind_host.to_owned(),
            data_dir: data_dir.to_owned(),
            initial_capacity,
            default_probability,
            scale_size,
            probability_reduction,
            flush_interval,
            cold_interval,
            in_memory,
            worker_threads,
            use_mmap,
        }
    }

    /// The settings used when no configuration file is given: port 8673 on
    /// every address, data under `/tmp/bloomd`, filters of 100000 keys at
    /// probability 0.0001, a flush each minute and eviction after an idle hour.
    pub fn default() -> (r: Self)
        ensures
            r.tcp_port == 8673 && r.udp_port == 8674,
            r.bind_host@ == "0.0.0.0"@ && r.data_dir@ == "/tmp/bloomd"@,
            r.initial_capacity == 100000,
            r.default_probability == (Decimal { digits: 1, scale: 4 }),
            r.scale_size == 4,
            r.probability_reduction == (Decimal { digits: 9, scale: 1 }),
            r.flush_interval == 60 && r.cold_interval == 3600,
            !r.in_memory && r.worker_threads == 1 && !r.use_mmap,
    {
        BloomConfig::new(
            8673,
            8674,
            "0.0.0.0",
            "/tmp/bloomd",
            100000,
            Decimal { digits: 1, scale: 4 },
            4,
            Decimal { digits: 9, scale: 1 },
            60,
            3600,
            false,
            1,
            false,
        )
    }

    /// The address to listen on: host, a colon, port.
    pub fn get_bind_address(&self) -> (r: String)
        ensures
            r@ == self.bind_host@ + seq![':'] + signed_text(self.tcp_port),
    {
        let mut r = self.bind_host.clone();
        crate::text::push_char(&mut r, ':');
        let p = i32_to_string(self.tcp_port);
        crate::text::push_all(&mut r, p.as_str());
        r
    }
}

/// Option `key` of the `bloomd` section.
pub open spec fn bloomd_str(v: Seq<SectionView>, key: Seq<char>) -> Option<Seq<char>> {
    ini_get(v, "bloomd"@, key)
}

/// The server's settings as plain values.
pub struct ServerConfigView {
    pub tcp_port: i32,
    pub udp_port: i32,
    pub bind_host: Seq<char>,
    pub data_dir: Seq<char>,
    pub initial_capacity: u64,
    pub default_probability: Decimal,
    pub scale_size: i32,
    pub probability_reduction: Decimal,
    pub flush_interval: i32,
    pub cold_interval: i32,
    pub in_memory: bool,
    pub worker_threads: i32,
    pub use_mmap: bool,
}

/// A decimal, optionally after a minus sign, read as a signed 32-bit number.
pub open spec fn parsed_i32(s: Seq<char>) -> Option<i32> {
    if s.len() > 0 && s[0] == '-' {
        match parsed_u64(s.skip(1)) {
            Some(x) => if x <= 0x8000_0000 {
                Some((-(x as int)) as i32)
            } else {
                None
            },
            None => None,
        }
    } else {
        match parsed_u64(s) {
            Some(x) => if x <= i32::MAX {
                Some(x as i32)
            } else {
                None
            },
            None => None,
        }
    }
}

/// A `bloomd` option read as a signed 32-bit number.
pub open spec fn bloomd_i32_of(v: Seq<SectionView>, key: Seq<char>) -> Option<i32> {
    match bloomd_str(v, key) {
        Some(s) => parsed_i32(s),
        None => None,
    }
}

/// Reads a decimal, optionally after a minus sign, as a signed 32-bit number.
pub fn parse_i32(s: &str) -> (r: Option<i32>)
    ensures
        r == parsed_i32(s@),
{
    let cs = crate::text::chars_of(s);
    if cs.len() > 0 && cs[0] == '-' {
        let rest = crate::text::sub_string(&cs, 1, cs.len());
        assert(rest@ == s@.skip(1));
        match crate::text::parse_u64(rest.as_str()) {
            Some(x) => if x <= 0x8000_0000 {
                Some((-(x as i64)) as i32)
            } else {
                None
            },
            None => None,
        }
    } else {
        match crate::text::parse_u64(s) {
            Some(x) => if x <= i32::MAX as u64 {
                Some(x as i32)
            } else {
                None
            },
            None => None,
        }
    }
}

/// A `bloomd` option read as a decimal.
pub open spec fn bloomd_decimal_of(v: Seq<SectionView>, key: Seq<char>) -> Option<Decimal> {
    match bloomd_str(v, key) {
        Some(s) => parsed_decimal(s),
        None => None,
    }
}

/// A `bloomd` option read as a flag.
pub open spec fn bloomd_bool_of(v: Seq<SectionView>, key: Seq<char>) -> Option<bool> {
    match bloomd_str(v, key) {
        Some(s) => if is_true_word(s) {
            Some(true)
        } else if is_false_word(s) {
            Some(false)
        } else {
            None
        },
        None => None,
    }
}

/// What option `o` of the `bloomd` section of `v` makes of settings `c`:
/// nothing when the option is unknown or its value does not read.
pub open spec fn apply_bloomd_option(c: ServerConfigView, v: Seq<SectionView>, o: Seq<char>) -> Option<
    ServerConfigView,
> {
    if o == "port"@ || o == "tcp_port"@ {
        match bloomd_i32_of(v, o) { Some(x) => Some(ServerConfigView { tcp_port: x, ..c }), None => None }
    } else if o == "udp_port"@ {
        match bloomd_i32_of(v, o) { Some(x) => Some(ServerConfigView { udp_port: x, ..c }), None => None }
    } else if o == "scale_size"@ {
        match bloomd_i32_of(v, o) { Some(x) => Some(ServerConfigView { scale_size: x, ..c }), None => None }
    } else if o == "flush_interval"@ {
        match bloomd_i32_of(v, o) { Some(x) => Some(ServerConfigView { flush_interval: x, ..c }), None => None }
    } else if o == "cold_interval"@ {
        match bloomd_i32_of(v, o) { Some(x) => Some(ServerConfigView { cold_interval: x, ..c }), None => None }
    } else if o == "workers"@ {
        match bloomd_i32_of(v, o) { Some(x) => Some(ServerConfigView { worker_threads: x, ..c }), None => None }
    } else if o == "initial_capacity"@ {
        match bloomd_str(v, o) {
            Some(s) => match parsed_u64(s) { Some(x) => Some(ServerConfigView { initial_capacity: x, ..c }), None => None },
            None => None,
        }
    } else if o == "use_mmap"@ {
        match bloomd_bool_of(v, o) { Some(x) => Some(ServerConfigView { use_mmap: x, ..c }), None => None }
    } else if o == "in_memory"@ {
        match bloomd_bool_of(v, o) { Some(x) => Some(ServerConfigView { in_memory: x, ..c }), None => None }
    } else if o == "default_probability"@ {
        match bloomd_decimal_of(v, o) {
            Some(d) => if d.scale <= MAX_SCALE {
                Some(ServerConfigView { default_probability: d, ..c })
            } else {
                None
            },
            None => None,
        }
    } else if o == "probability_reduction"@ {
        match bloomd_decimal_of(v, o) { Some(d) => Some(ServerConfigView { probability_reduction: d, ..c }), None => None }
    } else if o == "data_dir"@ {
        match bloomd_str(v, o) { Some(x) => Some(ServerConfigView { data_dir: x, ..c }), None => None }
    } else if o == "bind_address"@ {
        match bloomd_str(v, o) { Some(x) => Some(ServerConfigView { bind_host: x, ..c }), None => None }
    } else {
        None
    }
}

/// The settings after applying options `opts` of the `bloomd` section in turn.
pub open spec fn apply_bloomd_options(c: ServerConfigView, v: Seq<SectionView>, opts: Seq<Seq<char>>) -> Option<
    ServerConfigView,
>
    decreases opts.len(),
{
    if opts.len() == 0 {
        Some(c)
    } else {
        match apply_bloomd_options(c, v, opts.drop_last()) {
            Some(c1) => apply_bloomd_option(c1, v, opts.last()),
            None => None,
        }
    }
}

/// The option names of the `bloomd` section, in order.
pub open spec fn bloomd_options(v: Seq<SectionView>) -> Seq<Seq<char>> {
    let s = section_index(v, "bloomd"@);
    if s < 0 {
        Seq::empty()
    } else {
        v[s].options.map_values(|p: (Seq<char>, Seq<char>)| p.0)
    }
}

proof fn lemma_apply_prefix_none(c: ServerConfigView, v: Seq<SectionView>, opts: Seq<Seq<char>>, n: int)
    requires
        0 <= n <= opts.len(),
        apply_bloomd_options(c, v, opts.take(n)) is None,
    ensures
        apply_bloomd_options(c, v, opts) is None,
    decreases opts.len() - n,
{
    if n < opts.len() {
        assert(opts.take(n + 1).drop_last() =~= opts.take(n));
        lemma_apply_prefix_none(c, v, opts, n + 1);
    } else {
        assert(opts.take(n) =~= opts);
    }
}

fn bloomd_i32(ini: &IniFile, key: &String) -> (r: Result<i32, String>)
    ensures
        r is Ok <==> bloomd_i32_of(ini.view(), key@) is Some,
        r matches Ok(x) ==> bloomd_i32_of(ini.view(), key@) == Some(x),
{
    proof {
        reveal_strlit("bloomd");
    }
    match ini.get_string("bloomd", key.as_str()) {
        Some(v) => match parse_i32(v.as_str()) {
            Some(x) => Ok(x),
            None => Err("bad bloomd setting".to_owned()),
        },
        None => Err("bad bloomd setting".to_owned()),
    }
}

fn bloomd_decimal(ini: &IniFile, key: &String) -> (r: Result<Decimal, String>)
    ensures
        r is Ok <==> bloomd_decimal_of(ini.view(), key@) is Some,
        r matches Ok(x) ==> bloomd_decimal_of(ini.view(), key@) == Some(x),
{
    proof {
        reveal_strlit("bloomd");
    }
    match ini.get_string("bloomd", key.as_str()) {
        Some(v) => match Decimal::parse(v.as_str()) {
            Some(d) => Ok(d),
            None => Err("bad bloomd setting".to_owned()),
        },
        None => Err("bad bloomd setting".to_owned()),
    }
}

fn bloomd_string(ini: &IniFile, key: &String) -> (r: Result<String, String>)
    ensures
        r is Ok <==> bloomd_str(ini.view(), key@) is Some,
        r matches Ok(x) ==> bloomd_str(ini.view(), key@) == Some(x@),
{
    proof {
        reveal_strlit("bloomd");
    }
    match ini.get_string("bloomd", key.as_str()) {
        Some(v) => Ok(v),
        None => Err("bad bloomd setting".to_owned()),
    }
}

impl BloomConfig {
    /// What the settings hold.
    pub open spec fn view(&self) -> ServerConfigView {
        ServerConfigView {
            tcp_port: self.tcp_port,
            udp_port: self.udp_port,
            bind_host: self.bind_host@,
            data_dir: self.data_dir@,
            initial_capacity: self.initial_capacity,
            default_probability: self.default_probability,
            scale_size: self.scale_size,
            probability_reduction: self.probability_reduction,
            flush_interval: self.flush_interval,
            cold_interval: self.cold_interval,
            in_memory: self.in_memory,
            worker_threads: self.worker_threads,
            use_mmap: self.use_mmap,
        }
    }

    /// The settings of the `bloomd` section over the defaults, option by
    /// option in order. Fails on an unknown option or a value that does not read.
    pub fn from_ini(ini: &IniFile) -> (r: Result<Self, String>)
        ensures
            r is Ok <==> apply_bloomd_options(BloomConfig::default_view(), ini.view(), bloomd_options(ini.view())) is Some,
            r matches Ok(c) ==> apply_bloomd_options(BloomConfig::default_view(), ini.view(), bloomd_options(ini.view())) == Some(c.view()),
            r matches Ok(c) ==> c.default_probability.scale <= MAX_SCALE,
    {
        let mut c = BloomConfig::default();
        assert(c.view() == BloomConfig::default_view());
        let options = ini.options("bloomd".to_owned());
        proof {
            reveal_strlit("bloomd");
        }
        let ghost opts = bloomd_options(ini.view());
        assert(lines_view(options@) =~= opts);
        let mut i: usize = 0;
        while i < options.len()
            invariant
                i <= options@.len(),
                lines_view(options@) == opts,
                opts == bloomd_options(ini.view()),
                c.default_probability.scale <= MAX_SCALE,
                apply_bloomd_options(BloomConfig::default_view(), ini.view(), opts.take(i as int)) == Some(c.view()),
            decreases options@.len() - i,
        {
            let o = &options[i];
            proof {
                assert(opts.take(i + 1).drop_last() =~= opts.take(i as int));
                assert(opts[i as int] == o@);
                reveal_strlit("port");
                reveal_strlit("tcp_port");
            }
            let ghost c0 = c.view();
            let ok = if crate::text::same_text(o, "port") || crate::text::same_text(o, "tcp_port") {
                match bloomd_i32(ini, o) { Ok(v) => { c.tcp_port = v; true }, Err(_) => false }
            } else if crate::text::same_text(o, "udp_port") {
                match bloomd_i32(ini, o) { Ok(v) => { c.udp_port = v; true }, Err(_) => false }
            } else if crate::text::same_text(o, "scale_size") {
                match bloomd_i32(ini, o) { Ok(v) => { c.scale_size = v; true }, Err(_) => false }
            } else if crate::text::same_text(o, "flush_interval") {
                match bloomd_i32(ini, o) { Ok(v) => { c.flush_interval = v; true }, Err(_) => false }
            } else if crate::text::same_text(o, "cold_interval") {
                match bloomd_i32(ini, o) { Ok(v) => { c.cold_interval = v; true }, Err(_) => false }
            } else if crate::text::same_text(o, "workers") {
                match bloomd_i32(ini, o) { Ok(v) => { c.worker_threads = v; true }, Err(_) => false }
            } else if crate::text::same_text(o, "initial_capacity") {
                match ini.get("bloomd", o.as_str()) { Some(v) => { c.initial_capacity = v; true }, None => false }
            } else if crate::text::same_text(o, "use_mmap") {
                match ini.get_bool("bloomd", o.as_str()) { Some(v) => { c.use_mmap = v; true }, None => false }
            } else if crate::text::same_text(o, "in_memory") {
                match ini.get_bool("bloomd", o.as_str()) { Some(v) => { c.in_memory = v; true }, None => false }
            } else if crate::text::same_text(o, "default_probability") {
                match bloomd_decimal(ini, o) {
                    Ok(d) => if d.scale <= MAX_SCALE {
                        c.default_probability = d;
                        true
                    } else {
                        false
                    },
                    Err(_) => false,
                }
            } else if crate::text::same_text(o, "probability_reduction") {
                match bloomd_decimal(ini, o) { Ok(v) => { c.probability_reduction = v; true }, Err(_) => false }
            } else if crate::text::same_text(o, "data_dir") {
                match bloomd_string(ini, o) { Ok(v) => { c.data_dir = v; true }, Err(_) => false }
            } else if crate::text::same_text(o, "bind_address") {
                match bloomd_string(ini, o) { Ok(v) => { c.bind_host = v; true }, Err(_) => false }
            } else {
                false
            };
            if !ok {
                proof {
                    lemma_apply_prefix_none(BloomConfig::default_view(), ini.view(), opts, i + 1);
                }
                let mut e = "Unknown option: ".to_owned();
                crate::text::push_all(&mut e, o.as_str());
                return Err(e);
            }
            assert(apply_bloomd_option(c0, ini.view(), o@) == Some(c.view()));
            i += 1;
        }
        assert(opts.take(i as int) =~= opts);
        Ok(c)
    }

    /// What the default settings hold.
    pub open spec fn default_view() -> ServerConfigView {
        ServerConfigView {
            tcp_port: 8673,
            udp_port: 8674,
            bind_host: "0.0.0.0"@,
            data_dir: "/tmp/bloomd"@,
            initial_capacity: 100000,
            default_probability: Decimal { digits: 1, scale: 4 },
            scale_size: 4,
            probability_reduction: Decimal { digits: 9, scale: 1 },
            flush_interval: 60,
            cold_interval: 3600,
            in_memory: false,
            worker_threads: 1,
            use_mmap: false,
        }
    }
}

} // verus!
