//! A filter entry's counters and the entry itself: configuration, counters,
//! and the layered filter when it is loaded.
use vstd::prelude::*;
use crate::inifile::{
    ini_get, lemma_added_section, lemma_set_fresh, section_index, IniFile, SectionView,
};
use crate::text::{dec, lemma_dec_parses, lines_view, parsed_u64, push_all, push_char, u64_to_string};
use crate::bitmap::{bitmap_mode, bloom_bitmap};
use crate::bloom::{
    bloom_bloomfilter, bloom_filter_params, image_view, lv_empty, region_bits, u32_le, LayerView,
    HEADER_BYTES, MAGIC_HEADER, MAX_LAYER_BYTES,
};
use crate::config::{config_of, BloomFilterConfig};
use crate::decimal::MAX_SCALE;
use crate::lbf::{bloom_lbf, fresh_ok, generation, lemma_grown_generation, set_layers};
use vstd::string::StringSliceAdditionalSpecFns;

verus! {

/// How often checks and sets found or missed their key, and how often the
/// filter was loaded and unloaded.
#[derive(Clone, Copy, Debug, PartialEq, Eq, Structural)]
pub struct BloomFilterCounters {
    pub check_hits: u64,
    pub check_misses: u64,
    pub set_hits: u64,
    pub set_misses: u64,
    pub page_ins: u64,
    pub page_outs: u64,
}

/// The section that holds counters `c`.
pub open spec fn counters_section(c: BloomFilterCounters) -> SectionView {
    SectionView {
        name: "counters"@,
        options: seq![
            ("check_hits"@, dec(c.check_hits as nat)),
            ("check_misses"@, dec(c.check_misses as nat)),
            ("set_hits"@, dec(c.set_hits as nat)),
            ("set_misses"@, dec(c.set_misses as nat)),
            ("page_ins"@, dec(c.page_ins as nat)),
            ("page_outs"@, dec(c.page_outs as nat)),
        ],
    }
}

/// The counter `name` as the `counters` section of `v` holds it.
pub open spec fn counter_value(v: Seq<SectionView>, name: Seq<char>) -> Option<u64> {
    match ini_get(v, "counters"@, name) {
        Some(s) => parsed_u64(s),
        None => None,
    }
}

/// The counters the `counters` section of `v` holds, when all six read.
pub open spec fn counters_of(v: Seq<SectionView>) -> Option<BloomFilterCounters> {
    if counter_value(v, "check_hits"@) is Some && counter_value(v, "check_misses"@) is Some
        && counter_value(v, "set_hits"@) is Some && counter_value(v, "set_misses"@) is Some
        && counter_value(v, "page_ins"@) is Some && counter_value(v, "page_outs"@) is Some {
        Some(
            BloomFilterCounters {
                check_hits: counter_value(v, "check_hits"@)->0,
                check_misses: counter_value(v, "check_misses"@)->0,
                set_hits: counter_value(v, "set_hits"@)->0,
                set_misses: counter_value(v, "set_misses"@)->0,
                page_ins: counter_value(v, "page_ins"@)->0,
                page_outs: counter_value(v, "page_outs"@)->0,
            },
        )
    } else {
        None
    }
}

/// Whether `v` describes a filter: its settings and counters read, with a
/// probability of at most `MAX_SCALE` fractional digits and no more layers
/// than 32 bits count.
pub open spec fn entry_ini_ok(v: Seq<SectionView>) -> bool {
    &&& config_of(v) is Some
    &&& counters_of(v) is Some
    &&& config_of(v)->0.probability.scale <= MAX_SCALE
    &&& config_of(v)->0.filter_sizes.len() <= u32::MAX
}

/// The error text of reading the counters: the first one missing or not
/// reading, in the order they are read.
pub open spec fn counters_error(v: Seq<SectionView>) -> Seq<char> {
    "missing counters:"@ + if counter_value(v, "check_hits"@) is None {
        "check_hits"@
    } else if counter_value(v, "check_misses"@) is None {
        "check_misses"@
    } else if counter_value(v, "set_hits"@) is None {
        "set_hits"@
    } else if counter_value(v, "set_misses"@) is None {
        "set_misses"@
    } else if counter_value(v, "page_ins"@) is None {
        "page_ins"@
    } else {
        "page_outs"@
    }
}

/// `a + b`, or the largest value when that does not fit.
pub open spec fn sat_add(a: u64, b: u64) -> u64 {
    if a + b <= u64::MAX {
        (a + b) as u64
    } else {
        u64::MAX
    }
}

fn read_counter(ini: &IniFile, name: &str) -> (r: Result<u64, String>)
    ensures
        r is Ok <==> counter_value(ini.view(), name@) is Some,
        r matches Err(e) ==> e@ == "missing counters:"@ + name@,
        r matches Ok(x) ==> counter_value(ini.view(), name@) == Some(x),
{
    proof {
        reveal_strlit("counters");
    }
    match ini.get("counters", name) {
        Some(v) => Ok(v),
        None => {
            let mut e = "missing counters:".to_owned();
            crate::text::push_all(&mut e, name);
            Err(e)
        },
    }
}

impl BloomFilterCounters {
    /// All counters zero.
    pub fn new() -> (r: Self)
        ensures
            r == (BloomFilterCounters {
                check_hits: 0,
                check_misses: 0,
                set_hits: 0,
                set_misses: 0,
                page_ins: 0,
                page_outs: 0,
            }),
    {
        BloomFilterCounters {
            check_hits: 0,
            check_misses: 0,
            set_hits: 0,
            set_misses: 0,
            page_ins: 0,
            page_outs: 0,
        }
    }

    /// Reads the counters from the `counters` section; fails when one is
    /// missing or is not an unsigned 64-bit decimal.
    pub fn from_ini(ini: &IniFile) -> (r: Result<Self, String>)
        ensures
            r is Ok <==> {
                &&& counter_value(ini.view(), "check_hits"@) is Some
                &&& counter_value(ini.view(), "check_misses"@) is Some
                &&& counter_value(ini.view(), "set_hits"@) is Some
                &&& counter_value(ini.view(), "set_misses"@) is Some
                &&& counter_value(ini.view(), "page_ins"@) is Some
                &&& counter_value(ini.view(), "page_outs"@) is Some
            },
            r matches Err(e) ==> e@ == counters_error(ini.view()),
            r matches Ok(c) ==> {
                &&& counter_value(ini.view(), "check_hits"@) == Some(c.check_hits)
                &&& counter_value(ini.view(), "check_misses"@) == Some(c.check_misses)
                &&& counter_value(ini.view(), "set_hits"@) == Some(c.set_hits)
                &&& counter_value(ini.view(), "set_misses"@) == Some(c.set_misses)
                &&& counter_value(ini.view(), "page_ins"@) == Some(c.page_ins)
                &&& counter_value(ini.view(), "page_outs"@) == Some(c.page_outs)
            },
    {
        let check_hits = match read_counter(ini, "check_hits") {
            Ok(v) => v,
            Err(e) => return Err(e),
        };
        let check_misses = match read_counter(ini, "check_misses") {
            Ok(v) => v,
            Err(e) => return Err(e),
        };
        let set_hits = match read_counter(ini, "set_hits") {
            Ok(v) => v,
            Err(e) => return Err(e),
        };
        let set_misses = match read_counter(ini, "set_misses") {
            Ok(v) => v,
            Err(e) => return Err(e),
        };
        let page_ins = match read_counter(ini, "page_ins") {
            Ok(v) => v,
            Err(e) => return Err(e),
        };
        let page_outs = match read_counter(ini, "page_outs") {
            Ok(v) => v,
            Err(e) => return Err(e),
        };
        Ok(BloomFilterCounters { check_hits, check_misses, set_hits, set_misses, page_ins, page_outs })
    }

    /// All checks: hits and misses together, saturating.
    pub fn checks(&self) -> (r: u64)
        ensures
            r == sat_add(self.check_hits, self.check_misses),
    {
        self.check_hits.saturating_add(self.check_misses)
    }

    /// All sets: hits and misses together, saturating.
    pub fn sets(&self) -> (r: u64)
        ensures
            r == sat_add(self.set_hits, self.set_misses),
    {
        self.set_hits.saturating_add(self.set_misses)
    }

    /// Adds the `counters` section, which must not be there yet, holding every counter.
    pub fn add_to_ini(&self, ini: &mut IniFile)
        requires
            old(ini).wf(),
            section_index(old(ini).view(), "counters"@) < 0,
        ensures
            final(ini).wf(),
            final(ini).view() == old(ini).view().push(counters_section(*self)),
    {
        proof {
            reveal_strlit("counters");
            reveal_strlit("check_hits");
            reveal_strlit("check_misses");
            reveal_strlit("set_hits");
            reveal_strlit("set_misses");
            reveal_strlit("page_ins");
            reveal_strlit("page_outs");
        }
        assert("check_hits"@.len() == 10 && "check_misses"@.len() == 12 && "set_hits"@.len() == 8
            && "set_misses"@.len() == 10 && "page_ins"@.len() == 8 && "page_outs"@.len() == 9);
        assert("check_hits"@[0] == 'c' && "set_misses"@[0] == 's' && "set_hits"@[0] == 's'
            && "page_ins"@[0] == 'p');
        let ghost v0 = ini.view();
        ini.add_section("counters");
        proof {
            lemma_added_section(v0, SectionView { name: "counters"@, options: Seq::empty() });
        }
        let ghost mut opts: Seq<(Seq<char>, Seq<char>)> = Seq::empty();
        proof {
            lemma_set_fresh(ini.view(), "counters"@, "check_hits"@, dec(self.check_hits as nat));
        }
        ini.set("counters", "check_hits", u64_to_string(self.check_hits));
        proof {
            opts = opts.push(("check_hits"@, dec(self.check_hits as nat)));
            assert(ini.view() == v0.push(SectionView { name: "counters"@, options: opts }));
        }
        proof {
            lemma_set_fresh(ini.view(), "counters"@, "check_misses"@, dec(self.check_misses as nat));
        }
        ini.set("counters", "check_misses", u64_to_string(self.check_misses));
        proof {
            opts = opts.push(("check_misses"@, dec(self.check_misses as nat)));
            assert(ini.view() == v0.push(SectionView { name: "counters"@, options: opts }));
        }
        proof {
            lemma_set_fresh(ini.view(), "counters"@, "set_hits"@, dec(self.set_hits as nat));
        }
        ini.set("counters", "set_hits", u64_to_string(self.set_hits));
        proof {
            opts = opts.push(("set_hits"@, dec(self.set_hits as nat)));
            assert(ini.view() == v0.push(SectionView { name: "counters"@, options: opts }));
        }
        proof {
            lemma_set_fresh(ini.view(), "counters"@, "set_misses"@, dec(self.set_misses as nat));
        }
        ini.set("counters", "set_misses", u64_to_string(self.set_misses));
        proof {
            opts = opts.push(("set_misses"@, dec(self.set_misses as nat)));
            assert(ini.view() == v0.push(SectionView { name: "counters"@, options: opts }));
        }
        proof {
            lemma_set_fresh(ini.view(), "counters"@, "page_ins"@, dec(self.page_ins as nat));
        }
        ini.set("counters", "page_ins", u64_to_string(self.page_ins));
        proof {
            opts = opts.push(("page_ins"@, dec(self.page_ins as nat)));
            assert(ini.view() == v0.push(SectionView { name: "counters"@, options: opts }));
        }
        proof {
            lemma_set_fresh(ini.view(), "counters"@, "page_outs"@, dec(self.page_outs as nat));
        }
        ini.set("counters", "page_outs", u64_to_string(self.page_outs));
        proof {
            opts = opts.push(("page_outs"@, dec(self.page_outs as nat)));
            assert(ini.view() == v0.push(SectionView { name: "counters"@, options: opts }));
        }
        assert(opts =~= counters_section(*self).options);
    }
}

/// Counters written into a document that has no `counters` section read
/// back as the same counters.
pub proof fn lemma_counters_round_trip(v: Seq<SectionView>, c: BloomFilterCounters)
    requires
        section_index(v, "counters"@) < 0,
    ensures
        counter_value(v.push(counters_section(c)), "check_hits"@) == Some(c.check_hits),
        counter_value(v.push(counters_section(c)), "check_misses"@) == Some(c.check_misses),
        counter_value(v.push(counters_section(c)), "set_hits"@) == Some(c.set_hits),
        counter_value(v.push(counters_section(c)), "set_misses"@) == Some(c.set_misses),
        counter_value(v.push(counters_section(c)), "page_ins"@) == Some(c.page_ins),
        counter_value(v.push(counters_section(c)), "page_outs"@) == Some(c.page_outs),
{
    reveal_strlit("counters");
    reveal_strlit("check_hits");
    reveal_strlit("check_misses");
    reveal_strlit("set_hits");
    reveal_strlit("set_misses");
    reveal_strlit("page_ins");
    reveal_strlit("page_outs");
    assert("check_hits"@.len() == 10 && "check_misses"@.len() == 12 && "set_hits"@.len() == 8
        && "set_misses"@.len() == 10 && "page_ins"@.len() == 8 && "page_outs"@.len() == 9);
    assert("check_hits"@[0] == 'c' && "set_misses"@[0] == 's' && "set_hits"@[0] == 's'
        && "page_ins"@[0] == 'p');
    lemma_added_section(v, counters_section(c));
    let w = v.push(counters_section(c));
    assert(w[v.len() as int] == counters_section(c));
    let o = counters_section(c).options;
    reveal_with_fuel(crate::inifile::option_from, 7);
    lemma_dec_parses(c.check_hits as nat);
    lemma_dec_parses(c.check_misses as nat);
    lemma_dec_parses(c.set_hits as nat);
    lemma_dec_parses(c.set_misses as nat);
    lemma_dec_parses(c.page_ins as nat);
    lemma_dec_parses(c.page_outs as nat);
}

/// A change to the files under the data directory, for the caller to carry out.
#[derive(Debug)]
pub enum DiskOp {
    /// Create this directory.
    MakeDir { path: String },
    /// Create this file, zero-filled to `len` bytes.
    CreateFile { path: String, len: u64 },
    /// Write `bytes` into this file from `offset`.
    WritePage { path: String, offset: u64, bytes: Vec<u8> },
    /// Replace this file's contents with `contents`.
    WriteFile { path: String, contents: String },
    /// Remove this directory and everything under it.
    RemoveDir { path: String },
}

/// A disk change as plain values.
pub enum OpView {
    MakeDir(Seq<char>),
    CreateFile(Seq<char>, u64),
    WritePage(Seq<char>, u64, Seq<u8>),
    WriteFile(Seq<char>, Seq<char>),
    RemoveDir(Seq<char>),
}

/// The plain values of a disk change.
pub open spec fn op_view(o: DiskOp) -> OpView {
    match o {
        DiskOp::MakeDir { path } => OpView::MakeDir(path@),
        DiskOp::CreateFile { path, len } => OpView::CreateFile(path@, len),
        DiskOp::WritePage { path, offset, bytes } => OpView::WritePage(path@, offset, bytes@),
        DiskOp::WriteFile { path, contents } => OpView::WriteFile(path@, contents@),
        DiskOp::RemoveDir { path } => OpView::RemoveDir(path@),
    }
}

/// The plain values of disk changes, in order.
pub open spec fn ops_view(ops: Seq<DiskOp>) -> Seq<OpView> {
    ops.map_values(|o: DiskOp| op_view(o))
}

/// The writes of pages `pages` of layer `l` into the file at `path`.
pub open spec fn page_writes(path: Seq<char>, pages: Seq<usize>, l: bloom_bloomfilter) -> Seq<OpView> {
    pages.map_values(
        |p: usize|
            OpView::WritePage(
                path,
                (p * l.spec_map().spec_page_size()) as u64,
                l.bytes().subrange(
                    p * l.spec_map().spec_page_size(),
                    (p + 1) * l.spec_map().spec_page_size(),
                ),
            ),
    )
}

/// The page writes of flushing the first `n` layers, each into its file:
/// the pages flush hands back for layer `olds[i]`, with the bytes of the
/// flushed layer `news[i]`; layers without a file write nothing.
pub open spec fn layers_writes(
    files: Seq<Seq<char>>,
    olds: Seq<bloom_bloomfilter>,
    news: Seq<bloom_bloomfilter>,
    n: nat,
) -> Seq<OpView>
    decreases n,
{
    if n == 0 {
        Seq::empty()
    } else {
        layers_writes(files, olds, news, (n - 1) as nat) + if n - 1 < files.len() {
            page_writes(files[n - 1], crate::bloom::flushed_pages(olds[n - 1]), news[n - 1])
        } else {
            Seq::empty()
        }
    }
}

/// The INI write of a flush of `e`: none for a filter kept only in memory.
pub open spec fn ini_write(e: BloomFilter) -> Seq<OpView> {
    if e.spec_config().in_memory {
        Seq::empty()
    } else {
        seq![
            OpView::WriteFile(
                ini_path(e.spec_directory(), e.spec_config().filter_name@),
                crate::inifile::ini_text(
                    seq![
                        crate::config::config_section(e.spec_config().view()),
                        counters_section(e.spec_counters()),
                    ],
                ),
            ),
        ]
    }
}

/// The disk changes of flushing filter `e` into `after`: the INI write,
/// then the page writes of every loaded layer kept on disk.
pub open spec fn entry_flush_ops(e: BloomFilter, after: BloomFilter) -> Seq<OpView> {
    ini_write(e) + if e.loaded() && !e.spec_config().in_memory {
        layers_writes(
            lines_view(e.spec_config().bitmap_filenames@),
            e.layer_objs(),
            after.layer_objs(),
            e.layer_objs().len(),
        )
    } else {
        Seq::empty()
    }
}

/// The disk changes of setting key `kb` in filter `e`: the creation of a new
/// layer's file when every layer holds the key and the filter is on disk.
pub open spec fn set_ops(e: BloomFilter, kb: Seq<u8>, page_size: u64) -> Seq<OpView> {
    if generation(e.layers(), kb) == e.layers().len() && !e.spec_config().in_memory {
        seq![OpView::CreateFile(layer_path(e.spec_directory(), e.layers().len()), layer_len(e.spec_config().bytes, page_size) as u64)]
    } else {
        Seq::empty()
    }
}

/// The layer files of filter `e` after setting key `kb`.
pub open spec fn set_files(e: BloomFilter, kb: Seq<u8>) -> Seq<Seq<char>> {
    if generation(e.layers(), kb) == e.layers().len() && !e.spec_config().in_memory {
        lines_view(e.spec_config().bitmap_filenames@).push(layer_path(e.spec_directory(), e.layers().len()))
    } else {
        lines_view(e.spec_config().bitmap_filenames@)
    }
}

/// Whether none of `ops` removes a directory.
pub open spec fn keeps_dirs(ops: Seq<DiskOp>) -> bool {
    forall|k: int| 0 <= k < ops.len() ==> !(#[trigger] ops[k] is RemoveDir)
}

/// The length of a layer's bitmap: `bytes` rounded up to whole pages.
pub open spec fn layer_len(bytes: u64, page_size: u64) -> int {
    if page_size == 0 {
        0
    } else {
        (bytes + page_size - 1) / page_size as int * page_size
    }
}

/// The empty layer a filter grows: `k` probes over the region of a bitmap of
/// `bytes` rounded up to whole pages.
pub open spec fn fresh_layer(k: u32, bytes: u64, page_size: u64) -> LayerView {
    lv_empty(k as u64, region_bits(layer_len(bytes, page_size) as nat, k as nat) as u64)
}

/// Whether a filter with `k` probes, layers of `bytes` and `layers` layers
/// can grow one more layer over pages of `page_size` bytes.
pub open spec fn can_grow(k: u32, bytes: u64, page_size: u64, layers: nat) -> bool {
    &&& 0 < page_size <= usize::MAX
    &&& 0 < layer_len(bytes, page_size) <= MAX_LAYER_BYTES
    &&& layer_len(bytes, page_size) <= usize::MAX
    &&& k > 0
    &&& region_bits(layer_len(bytes, page_size) as nat, k as nat) > 0
    &&& layers < u32::MAX
}

fn bitmap_len(bytes: u64, page_size: u64) -> (r: Option<usize>)
    ensures
        r matches Some(n) ==> n == layer_len(bytes, page_size) && 0 < n <= MAX_LAYER_BYTES && page_size > 0 && (n as int) % (page_size as int) == 0,
        r is None ==> page_size == 0 || !(0 < layer_len(bytes, page_size) <= MAX_LAYER_BYTES) || layer_len(bytes, page_size) > usize::MAX,
{
    if page_size == 0 {
        return None;
    }
    let ps = page_size as u128;
    let pages: u128 = (bytes as u128 + ps - 1) / ps;
    assert(pages * ps <= bytes + ps) by (nonlinear_arith)
        requires
            pages == (bytes + ps - 1) / (ps as int),
            ps > 0,
    ;
    let n: u128 = pages * ps;
    assert((pages * ps) % (ps as int) == 0) by (nonlinear_arith)
        requires
            ps > 0,
    ;
    if n == 0 || n > MAX_LAYER_BYTES as u128 || n > usize::MAX as u128 {
        return None;
    }
    Some(n as usize)
}

/// Whether `b` is the image of a layer of `len` bytes with `k` probes: of
/// that length, past the header, opening with the magic number, with that
/// many probes and room for a bit region.
pub open spec fn image_ok(b: Seq<u8>, len: int, k: u32) -> bool {
    &&& b.len() == len
    &&& b.len() > HEADER_BYTES
    &&& u32_le(b, 0) == MAGIC_HEADER
    &&& u32_le(b, 4) > 0
    &&& image_view(b).m > 0
    &&& image_view(b).k == k
}

/// Whether `images` load as the layers of a filter with `k` probes, layers
/// of `bytes`, recorded layer sizes `sizes` and size `size`, over pages of
/// `page_size` bytes: one image per recorded size, each a layer of that
/// count, the first one's count being the filter's size.
pub open spec fn images_loadable(
    images: Seq<Vec<u8>>,
    k: u32,
    bytes: u64,
    sizes: Seq<u64>,
    size: u64,
    page_size: u64,
) -> bool {
    &&& images.len() == sizes.len()
    &&& forall|i: int| 0 <= i < images.len() ==> image_view(#[trigger] images[i]@).count == sizes[i]
    &&& size == if images.len() > 0 {
        image_view(images[0]@).count
    } else {
        0
    }
    &&& 0 < page_size <= usize::MAX
    &&& 0 < layer_len(bytes, page_size) <= MAX_LAYER_BYTES
    &&& layer_len(bytes, page_size) <= usize::MAX
    &&& forall|i: int| 0 <= i < images.len() ==> image_ok(#[trigger] images[i]@, layer_len(bytes, page_size), k)
}

/// The layers that the bytes of layer files describe.
pub open spec fn images_view(images: Seq<Vec<u8>>) -> Seq<LayerView> {
    images.map_values(|b: Vec<u8>| image_view(b@))
}

/// Unload and reload change nothing: the bytes of flushed layers, read back,
/// describe exactly those layers.
pub proof fn lemma_reload_transparent(layers: Seq<bloom_bloomfilter>, images: Seq<Vec<u8>>)
    requires
        images.len() == layers.len(),
        forall|i: int| 0 <= i < layers.len() ==> (#[trigger] layers[i]).wf() && layers[i].synced(),
        forall|i: int| 0 <= i < layers.len() ==> (#[trigger] images[i])@ == layers[i].bytes(),
    ensures
        images_view(images) == crate::lbf::views_of(layers),
{
    assert forall|i: int| 0 <= i < layers.len() implies #[trigger] images_view(images)[i]
        == crate::lbf::views_of(layers)[i] by {
        crate::bloom::lemma_reload_same(&layers[i]);
    }
    assert(images_view(images) =~= crate::lbf::views_of(layers));
}

/// The file of layer `i` under `dir`.
pub open spec fn layer_path(dir: Seq<char>, i: nat) -> Seq<char> {
    dir + seq!['/'] + dec(i) + ".bmp"@
}

fn make_layer_path(dir: &String, i: u64) -> (r: String)
    ensures
        r@ == layer_path(dir@, i as nat),
{
    let mut r = dir.clone();
    push_char(&mut r, '/');
    let n = u64_to_string(i);
    push_all(&mut r, n.as_str());
    push_all(&mut r, ".bmp");
    r
}

/// A filter as the server keeps it: its settings, its counters, where it
/// lives on disk, how long it has been idle, and its layers while loaded.
pub struct BloomFilter {
    config: BloomFilterConfig,
    lbf: Option<bloom_lbf>,
    counters: BloomFilterCounters,
    directory: String,
    config_file: String,
    cold_index: u64,
}

impl BloomFilter {
    /// The settings.
    pub closed spec fn spec_config(&self) -> BloomFilterConfig {
        self.config
    }

    /// The counters.
    pub closed spec fn spec_counters(&self) -> BloomFilterCounters {
        self.counters
    }

    /// The ticks the filter has been idle.
    pub closed spec fn spec_cold(&self) -> u64 {
        self.cold_index
    }

    /// The directory the filter lives in.
    pub closed spec fn spec_directory(&self) -> Seq<char> {
        self.directory@
    }

    /// Whether the layers are in memory.
    pub closed spec fn loaded(&self) -> bool {
        self.lbf is Some
    }

    /// The layers, while loaded.
    pub closed spec fn layers(&self) -> Seq<LayerView> {
        match self.lbf {
            Some(f) => f.view(),
            None => Seq::empty(),
        }
    }

    /// The layers themselves, while loaded.
    pub closed spec fn layer_objs(&self) -> Seq<bloom_bloomfilter> {
        match self.lbf {
            Some(f) => f.layers(),
            None => Seq::empty(),
        }
    }

    /// Settings and layers agree.
    pub closed spec fn wf(&self) -> bool {
        &&& self.config_file@ == ini_path(self.directory@, self.config.filter_name@)
        &&& self.config.probability.scale <= MAX_SCALE
        &&& self.config.filter_sizes@.len() <= u32::MAX
        &&& (self.lbf matches Some(f) ==> {
            &&& f.wf()
            &&& f.view().len() == self.config.filter_sizes@.len()
            &&& f.spec_params().k_num == self.config.k_num
            &&& f.spec_params().bytes == self.config.bytes
            &&& forall|i: int| 0 <= i < f.view().len() ==> (#[trigger] f.view()[i]).count == self.config.filter_sizes@[i]
            &&& self.config.size == if f.view().len() > 0 {
                f.view()[0].count
            } else {
                0
            }
        })
        &&& !self.config.in_memory ==> self.config.bitmap_filenames@.len() == self.config.filter_sizes@.len()
    }

    /// A well-formed filter keeps one size and, on disk, one file per layer;
    /// while loaded, each layer's count is its recorded size, and the
    /// filter's size is the first layer's count.
    pub proof fn lemma_entry_sizes(&self)
        requires
            self.wf(),
        ensures
            !self.spec_config().in_memory ==> self.spec_config().bitmap_filenames@.len()
                == self.spec_config().filter_sizes@.len(),
            self.loaded() ==> self.layers().len() == self.spec_config().filter_sizes@.len(),
            self.loaded() ==> forall|i: int| 0 <= i < self.layers().len() ==> (#[trigger] self.layers()[i]).count
                == self.spec_config().filter_sizes@[i],
            self.loaded() ==> self.spec_config().size == if self.layers().len() > 0 {
                self.layers()[0].count
            } else {
                0
            },
    {
    }

    /// The settings.
    pub fn config(&self) -> (r: &BloomFilterConfig)
        ensures
            *r == self.spec_config(),
    {
        &self.config
    }

    /// The counters.
    pub fn counters(&self) -> (r: BloomFilterCounters)
        ensures
            r == self.spec_counters(),
    {
        self.counters
    }

    /// The ticks the filter has been idle.
    pub fn cold_index(&self) -> (r: u64)
        ensures
            r == self.spec_cold(),
    {
        self.cold_index
    }

    /// Whether the layers are in memory.
    pub fn is_loaded(&self) -> (r: bool)
        ensures
            r == self.loaded(),
    {
        self.lbf.is_some()
    }

    /// A filter with the given settings and layers in `directory`, counters at zero.
    pub fn new(config: BloomFilterConfig, lbf: bloom_lbf, directory: String) -> (r: Self)
        requires
            config.probability.scale <= MAX_SCALE,
            lbf.wf(),
            lbf.view().len() == config.filter_sizes@.len(),
            lbf.spec_params().k_num == config.k_num,
            lbf.spec_params().bytes == config.bytes,
            forall|i: int| 0 <= i < lbf.view().len() ==> (#[trigger] lbf.view()[i]).count == config.filter_sizes@[i],
            config.size == if lbf.view().len() > 0 {
                lbf.view()[0].count
            } else {
                0
            },
            !config.in_memory ==> config.bitmap_filenames@.len() == config.filter_sizes@.len(),
        ensures
            r.wf(),
            r.loaded(),
            r.layers() == lbf.view(),
            r.spec_config() == config,
            r.spec_counters() == BloomFilterCounters::new_spec(),
            r.spec_directory() == directory@,
            r.spec_cold() == 0,
            r.layer_objs() == lbf.layers(),
    {
        proof {
            lbf.lemma_layers_ok();
        }
        let config_file = make_ini_path(&directory, &config.filter_name);
        BloomFilter {
            config,
            lbf: Some(lbf),
            counters: BloomFilterCounters::new(),
            directory,
            config_file,
            cold_index: 0,
        }
    }

    /// A filter read back from its INI document, unloaded.
    pub fn from_ini(ini: &IniFile, directory: String) -> (r: Result<Self, String>)
        ensures
            r is Ok <==> config_of(ini.view()) is Some && {
                &&& counter_value(ini.view(), "check_hits"@) is Some
                &&& counter_value(ini.view(), "check_misses"@) is Some
                &&& counter_value(ini.view(), "set_hits"@) is Some
                &&& counter_value(ini.view(), "set_misses"@) is Some
                &&& counter_value(ini.view(), "page_ins"@) is Some
                &&& counter_value(ini.view(), "page_outs"@) is Some
            } && config_of(ini.view())->0.probability.scale <= MAX_SCALE
              && config_of(ini.view())->0.filter_sizes.len() <= u32::MAX,
            r is Ok <==> entry_ini_ok(ini.view()),
            r matches Ok(f) ==> {
                &&& counters_of(ini.view()) == Some(f.spec_counters())
                &&& f.wf()
                &&& !f.loaded()
                &&& config_of(ini.view()) == Some(f.spec_config().view())
                &&& counter_value(ini.view(), "check_hits"@) == Some(f.spec_counters().check_hits)
                &&& counter_value(ini.view(), "check_misses"@) == Some(f.spec_counters().check_misses)
                &&& counter_value(ini.view(), "set_hits"@) == Some(f.spec_counters().set_hits)
                &&& counter_value(ini.view(), "set_misses"@) == Some(f.spec_counters().set_misses)
                &&& counter_value(ini.view(), "page_ins"@) == Some(f.spec_counters().page_ins)
                &&& counter_value(ini.view(), "page_outs"@) == Some(f.spec_counters().page_outs)
                &&& f.spec_directory() == directory@
                &&& f.spec_cold() == 0
            },
    {
        let config = match BloomFilterConfig::from_ini(ini) {
            Ok(c) => c,
            Err(e) => return Err(e),
        };
        let counters = match BloomFilterCounters::from_ini(ini) {
            Ok(c) => c,
            Err(e) => return Err(e),
        };
        if config.probability.scale > MAX_SCALE {
            return Err("bad config:probability".to_owned());
        }
        if config.filter_sizes.len() > u32::MAX as usize {
            return Err("bad config:filter_sizes".to_owned());
        }
        let config_file = make_ini_path(&directory, &config.filter_name);
        Ok(BloomFilter { config, lbf: None, counters, directory, config_file, cold_index: 0 })
    }

    /// The INI document that holds the settings and the counters.
    pub fn to_ini(&self) -> (r: IniFile)
        requires
            self.wf(),
        ensures
            r.view() == seq![
                crate::config::config_section(self.spec_config().view()),
                counters_section(self.spec_counters()),
            ],
    {
        proof {
            reveal_strlit("config");
            reveal_strlit("counters");
        }
        let mut ini = IniFile::new();
        self.config.add_to_ini(&mut ini);
        assert("config"@.len() == 6 && "counters"@.len() == 8);
        proof {
            reveal_with_fuel(crate::inifile::section_from, 2);
        }
        self.counters.add_to_ini(&mut ini);
        assert(ini.view() =~= seq![
            crate::config::config_section(self.spec_config().view()),
            counters_section(self.spec_counters()),
        ]);
        ini
    }
}

impl BloomFilter {
    /// Marks the filter as just used.
    pub fn touch(&mut self)
        ensures
            final(self).spec_cold() == 0,
            final(self).spec_config() == old(self).spec_config(),
            final(self).spec_counters() == old(self).spec_counters(),
            final(self).loaded() == old(self).loaded(),
            final(self).layers() == old(self).layers(),
            final(self).spec_directory() == old(self).spec_directory(),
            old(self).wf() ==> final(self).wf(),
    {
        self.cold_index = 0;
    }

    /// Counts one more idle tick, saturating.
    pub fn tick_cold(&mut self)
        ensures
            final(self).spec_cold() == sat_add(old(self).spec_cold(), 1),
            final(self).spec_config() == old(self).spec_config(),
            final(self).spec_counters() == old(self).spec_counters(),
            final(self).loaded() == old(self).loaded(),
            final(self).layers() == old(self).layers(),
            final(self).spec_directory() == old(self).spec_directory(),
            old(self).wf() ==> final(self).wf(),
    {
        self.cold_index = self.cold_index.saturating_add(1);
    }

    /// Checks `key`: answers its generation, touches the filter and counts a
    /// hit when the generation is positive, else a miss.
    pub fn check(&mut self, key: &str) -> (r: u32)
        requires
            old(self).wf(),
            old(self).loaded(),
        ensures
            final(self).wf(),
            final(self).loaded(),
            r == generation(old(self).layers(), key.spec_bytes()),
            final(self).layers() == old(self).layers(),
            final(self).spec_config() == old(self).spec_config(),
            final(self).spec_directory() == old(self).spec_directory(),
            final(self).spec_cold() == 0,
            final(self).spec_counters() == (if r > 0 {
                BloomFilterCounters {
                    check_hits: sat_add(old(self).spec_counters().check_hits, 1),
                    ..old(self).spec_counters()
                }
            } else {
                BloomFilterCounters {
                    check_misses: sat_add(old(self).spec_counters().check_misses, 1),
                    ..old(self).spec_counters()
                }
            }),
    {
        self.touch();
        let g = match &self.lbf {
            Some(f) => f.contains(key),
            None => 0,
        };
        if g > 0 {
            self.counters.check_hits = self.counters.check_hits.saturating_add(1);
        } else {
            self.counters.check_misses = self.counters.check_misses.saturating_add(1);
        }
        g
    }

    /// Grows a fresh, empty layer at the end of the filter, in a new bitmap
    /// file under the filter's directory unless the filter is kept only in
    /// memory. Fails, changing nothing, when the filter's size and the page
    /// size make no bitmap, or when there are too many layers.
    pub fn add_filter(&mut self, page_size: u64) -> (r: Result<Vec<DiskOp>, String>)
        requires
            old(self).wf(),
            old(self).loaded(),
        ensures
            final(self).wf(),
            final(self).loaded(),
            final(self).spec_cold() == old(self).spec_cold(),
            final(self).spec_directory() == old(self).spec_directory(),
            final(self).spec_counters() == old(self).spec_counters(),
            final(self).spec_config().k_num == old(self).spec_config().k_num,
            final(self).spec_config().bytes == old(self).spec_config().bytes,
            final(self).spec_config().in_memory == old(self).spec_config().in_memory,
            r is Ok <==> can_grow(
                old(self).spec_config().k_num,
                old(self).spec_config().bytes,
                page_size,
                old(self).layers().len(),
            ),
            r is Err ==> final(self).layers() == old(self).layers(),
            r is Ok ==> final(self).layers() == old(self).layers().push(
                fresh_layer(old(self).spec_config().k_num, old(self).spec_config().bytes, page_size),
            ) && fresh_ok(fresh_layer(old(self).spec_config().k_num, old(self).spec_config().bytes, page_size)),
            r matches Ok(ops) ==> (old(self).spec_config().in_memory ==> ops@.len() == 0),
            r matches Ok(ops) ==> (!old(self).spec_config().in_memory ==> ops_view(ops@) == seq![
                OpView::CreateFile(
                    layer_path(old(self).spec_directory(), old(self).layers().len()),
                    layer_len(old(self).spec_config().bytes, page_size) as u64,
                ),
            ]),
            r is Ok ==> lines_view(final(self).spec_config().bitmap_filenames@) == if old(self).spec_config().in_memory {
                lines_view(old(self).spec_config().bitmap_filenames@)
            } else {
                lines_view(old(self).spec_config().bitmap_filenames@).push(
                    layer_path(old(self).spec_directory(), old(self).layers().len()),
                )
            },
            r is Ok ==> final(self).spec_config().filter_sizes@ == old(self).spec_config().filter_sizes@.push(0)
                && final(self).spec_config().size == old(self).spec_config().size
                && final(self).spec_config().filter_name@ == old(self).spec_config().filter_name@
                && final(self).spec_config().capacity == old(self).spec_config().capacity
                && final(self).spec_config().probability == old(self).spec_config().probability,
            r is Err ==> final(self).spec_config() == old(self).spec_config(),
    {
        let ghost fresh = fresh_layer(self.config.k_num, self.config.bytes, page_size);
        let mut f = match self.lbf.take() {
            Some(f) => f,
            None => return Err("filter is not loaded".to_owned()),
        };
        let n = f.num_filters();
        let mut ops: Vec<DiskOp> = Vec::new();
        let len = match bitmap_len(self.config.bytes, page_size) {
            Some(l) => l,
            None => {
                self.lbf = Some(f);
                return Err("cannot size a new layer".to_owned());
            },
        };
        if page_size > usize::MAX as u64 {
            self.lbf = Some(f);
            return Err("cannot size a new layer".to_owned());
        }
        let mode = if self.config.in_memory {
            bitmap_mode::NEW_BITMAP.flag() | bitmap_mode::ANONYMOUS.flag()
        } else {
            bitmap_mode::NEW_BITMAP.flag() | bitmap_mode::PERSISTENT.flag()
        };
        let map = match bloom_bitmap::new(mode, page_size as usize, len) {
            Ok(m) => m,
            Err(_) => {
                self.lbf = Some(f);
                return Err("cannot make a new layer".to_owned());
            },
        };
        let layer = match bloom_bloomfilter::create(self.config.k_num, map) {
            Ok(l) => l,
            Err(_) => {
                self.lbf = Some(f);
                return Err("cannot make a new layer".to_owned());
            },
        };
        proof {
            layer.lemma_wf();
        }
        assert(layer.view() == fresh);
        assert(fresh_ok(fresh));
        if !f.add_filter(layer) {
            self.lbf = Some(f);
            return Err("cannot add a new layer".to_owned());
        }
        let path = make_layer_path(&self.directory, n as u64);
        if !self.config.in_memory {
            let ghost b0 = self.config.bitmap_filenames@;
            self.config.bitmap_filenames.push(path.clone());
            assert(lines_view(self.config.bitmap_filenames@) =~= lines_view(b0).push(path@));
            let op = DiskOp::CreateFile { path, len: len as u64 };
            ops.push(op);
            assert(ops_view(ops@) =~= seq![op_view(op)]);
        }
        self.config.filter_sizes.push(0);
        self.lbf = Some(f);
        Ok(ops)
    }

    /// Sets `key`: grows a fresh layer when every layer holds the key, adds
    /// the key to the first layer that lacks it, and answers that layer's
    /// position counted from one. A layer that cannot be grown (its size or
    /// the page size makes no bitmap, or there are too many layers) fails
    /// the set and changes nothing but the idle count.
    pub fn set(&mut self, key: &str, page_size: u64) -> (r: Result<(u32, Vec<DiskOp>), String>)
        requires
            old(self).wf(),
            old(self).loaded(),
        ensures
            final(self).spec_config().capacity == old(self).spec_config().capacity,
            final(self).spec_config().probability == old(self).spec_config().probability,
            r matches Ok((g, ops)) ==> ops_view(ops@) == set_ops(*old(self), key.spec_bytes(), page_size)
                && lines_view(final(self).spec_config().bitmap_filenames@) == set_files(*old(self), key.spec_bytes()),
            final(self).wf(),
            final(self).loaded(),
            final(self).spec_cold() == 0,
            final(self).spec_directory() == old(self).spec_directory(),
            r is Ok <==> (generation(old(self).layers(), key.spec_bytes()) < old(self).layers().len()
                || can_grow(
                old(self).spec_config().k_num,
                old(self).spec_config().bytes,
                page_size,
                old(self).layers().len(),
            )),
            final(self).spec_config().k_num == old(self).spec_config().k_num,
            final(self).spec_config().bytes == old(self).spec_config().bytes,
            final(self).spec_config().in_memory == old(self).spec_config().in_memory,
            r is Err ==> final(self).layers() == old(self).layers() && final(self).spec_counters()
                == old(self).spec_counters(),
            r matches Ok((g, ops)) ==> {
                &&& final(self).layers().len() > 0
                &&& final(self).spec_config().size == final(self).layers()[0].count
                &&& final(self).spec_config().filter_sizes@.len() == final(self).layers().len()
                &&& final(self).spec_config().filter_sizes@[g - 1] == final(self).layers()[g - 1].count
                &&& forall|j: int| 0 <= j < old(self).spec_config().filter_sizes@.len() && j != g - 1
                    ==> #[trigger] final(self).spec_config().filter_sizes@[j] == old(self).spec_config().filter_sizes@[j]
                &&& final(self).spec_config().filter_name@ == old(self).spec_config().filter_name@
                &&& final(self).spec_config().capacity == old(self).spec_config().capacity
                &&& final(self).spec_config().probability == old(self).spec_config().probability
                &&& g == generation(old(self).layers(), key.spec_bytes()) + 1
                &&& final(self).layers() == set_layers(
                    old(self).layers(),
                    key.spec_bytes(),
                    fresh_layer(old(self).spec_config().k_num, old(self).spec_config().bytes, page_size),
                )
                &&& final(self).spec_counters() == (if g > 1 {
                    BloomFilterCounters {
                        set_hits: sat_add(old(self).spec_counters().set_hits, 1),
                        ..old(self).spec_counters()
                    }
                } else {
                    BloomFilterCounters {
                        set_misses: sat_add(old(self).spec_counters().set_misses, 1),
                        ..old(self).spec_counters()
                    }
                })
            },
    {
        self.touch();
        let ghost ls = self.layers();
        let ghost kb = key.spec_bytes();
        let ghost fresh = fresh_layer(self.config.k_num, self.config.bytes, page_size);
        let (g, n) = match &self.lbf {
            Some(f) => (f.contains(key), f.num_filters()),
            None => return Err("filter is not loaded".to_owned()),
        };
        let mut ops: Vec<DiskOp> = Vec::new();
        proof {
            crate::lbf::lemma_generation(ls, kb);
        }
        if g == n {
            match self.add_filter(page_size) {
                Ok(more) => ops = more,
                Err(e) => return Err(e),
            }
        } else {
            assert(ops_view(ops@) =~= Seq::<OpView>::empty());
        }
        let mut f = match self.lbf.take() {
            Some(f) => f,
            None => return Err("filter is not loaded".to_owned()),
        };
        proof {
            f.lemma_layers_ok();
            crate::lbf::lemma_generation(ls, kb);
            if g == n {
                lemma_grown_generation(ls, kb, fresh);
            }
        }
        if g > 0 {
            self.counters.set_hits = self.counters.set_hits.saturating_add(1);
        } else {
            self.counters.set_misses = self.counters.set_misses.saturating_add(1);
        }
        let r = f.add(key);
        let gi = g as usize;
        self.config.size = f.size();
        let layer_size = f.get_filter_size(gi);
        self.config.filter_sizes.set(gi, layer_size);
        self.lbf = Some(f);
        Ok((r, ops))
    }
}

/// A loaded filter's layers are well shaped, so the laws of layered filters
/// apply to it.
pub proof fn lemma_entry_layers_ok(e: BloomFilter)
    requires
        e.wf(),
        e.loaded(),
    ensures
        crate::lbf::layers_ok(e.layers()),
{
    e.lbf->0.lemma_layers_ok();
}

/// The layer a filter grows when it can grow one is empty and well shaped.
pub proof fn lemma_fresh_layer_ok(k: u32, bytes: u64, page_size: u64, layers: nat)
    requires
        can_grow(k, bytes, page_size, layers),
    ensures
        fresh_ok(fresh_layer(k, bytes, page_size)),
{
    let len = layer_len(bytes, page_size) as nat;
    crate::bloom::lemma_region_within(len, k as nat, 0);
    assert(region_bits(len, k as nat) <= len * 8) by {
        crate::bloom::lemma_region_within(len, k as nat, region_bits(len, k as nat) - 1);
    }
}

/// One line of an `info` reply: the key, a space, the value.
pub open spec fn field_line(key: Seq<char>, value: Seq<char>) -> Seq<char> {
    key + seq![' '] + value + seq!['\r', '\n']
}

/// The body of an `info` reply for settings `c` and counters `n`.
pub open spec fn info_body(c: BloomFilterConfig, n: BloomFilterCounters) -> Seq<char> {
    field_line("capacity"@, dec(c.capacity as nat)) + field_line(
        "checks"@,
        dec(sat_add(n.check_hits, n.check_misses) as nat),
    ) + field_line("check_hits"@, dec(n.check_hits as nat)) + field_line(
        "check_misses"@,
        dec(n.check_misses as nat),
    ) + field_line("page_ins"@, dec(n.page_ins as nat)) + field_line(
        "page_outs"@,
        dec(n.page_outs as nat),
    ) + field_line("probability"@, crate::decimal::decimal_text(c.probability)) + field_line(
        "sets"@,
        dec(sat_add(n.set_hits, n.set_misses) as nat),
    ) + field_line("set_hits"@, dec(n.set_hits as nat)) + field_line(
        "set_misses"@,
        dec(n.set_misses as nat),
    ) + field_line("size"@, dec(c.size as nat)) + field_line("storage"@, dec(c.bytes as nat))
}

/// A `list` line: name, probability, storage, capacity and size.
pub open spec fn list_line(name: Seq<char>, c: BloomFilterConfig) -> Seq<char> {
    name + seq![' '] + crate::decimal::decimal_text(c.probability) + seq![' '] + dec(
        c.bytes as nat,
    ) + seq![' '] + dec(c.capacity as nat) + seq![' '] + dec(c.size as nat) + seq!['\r', '\n']
}

fn push_field(r: &mut String, key: &str, value: String)
    ensures
        final(r)@ == old(r)@ + field_line(key@, value@),
{
    push_all(r, key);
    push_char(r, ' ');
    push_all(r, value.as_str());
    push_char(r, '\r');
    push_char(r, '\n');
}

fn push_page_ops(layer: &bloom_bloomfilter, path: &String, pages: &Vec<usize>, ops: &mut Vec<DiskOp>)
    requires
        layer.wf(),
        forall|k: int| 0 <= k < pages@.len() ==> (#[trigger] pages@[k]) < layer.spec_map().dirty().len(),
    ensures
        final(ops)@.len() == old(ops)@.len() + pages@.len(),
        keeps_dirs(old(ops)@) ==> keeps_dirs(final(ops)@),
        ops_view(final(ops)@) == ops_view(old(ops)@) + page_writes(path@, pages@, *layer),
{
    proof {
        layer.lemma_wf();
    }
    let ps = layer.page_size();
    let n = layer.byte_len();
    let mut k: usize = 0;
    while k < pages.len()
        invariant
            layer.wf(),
            layer.spec_map().wf(),
            layer.spec_map().bytes() == layer.bytes(),
            ps == layer.spec_map().spec_page_size(),
            n == layer.bytes().len(),
            n <= MAX_LAYER_BYTES,
            k <= pages@.len(),
            forall|j: int| 0 <= j < pages@.len() ==> (#[trigger] pages@[j]) < layer.spec_map().dirty().len(),
            ops@.len() == old(ops)@.len() + k,
            keeps_dirs(old(ops)@) ==> keeps_dirs(ops@),
            ops_view(ops@) == ops_view(old(ops)@) + page_writes(path@, pages@.take(k as int), *layer),
        decreases pages@.len() - k,
    {
        let p = pages[k];
        let bytes = layer.page(p);
        proof {
            let d = layer.spec_map().dirty().len();
            assert(p * ps <= d * ps) by (nonlinear_arith)
                requires
                    p < d,
            ;
        }
        let offset: u64 = (p as u64) * (ps as u64);
        let ghost o0 = ops@;
        let op = DiskOp::WritePage { path: path.clone(), offset, bytes };
        ops.push(op);
        proof {
            assert(ops_view(ops@) =~= ops_view(o0).push(op_view(op)));
            assert(page_writes(path@, pages@.take(k + 1), *layer) =~= page_writes(path@, pages@.take(k as int), *layer).push(op_view(op)));
        }
        k += 1;
    }
    assert(pages@.take(k as int) =~= pages@);
}

/// Flushes every layer and turns the pages each hands back into writes to
/// its file, when the filter is kept on disk.
fn flush_layers(f: &mut bloom_lbf, filenames: &Vec<String>, persistent: bool) -> (r: Vec<DiskOp>)
    requires
        old(f).wf(),
    ensures
        final(f).wf(),
        final(f).view() == old(f).view(),
        final(f).spec_params() == old(f).spec_params(),
        final(f).spec_name() == old(f).spec_name(),
        !persistent ==> r@.len() == 0,
        keeps_dirs(r@),
        persistent ==> ops_view(r@) == layers_writes(
            lines_view(filenames@),
            old(f).layers(),
            final(f).layers(),
            old(f).layers().len(),
        ),
        final(f).layers().len() == old(f).layers().len(),
        forall|i: int| 0 <= i < final(f).layers().len() ==> (#[trigger] final(f).layers()[i]).synced(),
{
    let ghost olds = f.layers();
    let pages = f.flush();
    let mut ops: Vec<DiskOp> = Vec::new();
    if !persistent {
        return ops;
    }
    let mut i: usize = 0;
    while i < pages.len()
        invariant
            f.wf(),
            pages@.len() == f.layers().len(),
            i <= pages@.len(),
            forall|a: int, k: int| 0 <= a < pages@.len() && 0 <= k < pages@[a]@.len() ==> (#[trigger] pages@[a]@[k]) < f.layers()[a].spec_map().dirty().len(),
            forall|a: int| 0 <= a < pages@.len() ==> (#[trigger] pages@[a])@ == crate::bloom::flushed_pages(olds[a]),
            olds.len() == pages@.len(),
            keeps_dirs(ops@),
            ops_view(ops@) == layers_writes(lines_view(filenames@), olds, f.layers(), i as nat),
        decreases pages@.len() - i,
    {
        if i < filenames.len() {
            proof {
                f.lemma_layers_ok();
            }
            let layer = f.layer(i);
            assert(forall|k: int| 0 <= k < pages@[i as int]@.len() ==> (#[trigger] pages@[i as int]@[k]) < layer.spec_map().dirty().len());
            push_page_ops(layer, &filenames[i], &pages[i], &mut ops);
        }
        i += 1;
    }
    assert(lines_view(filenames@).len() == filenames@.len());
    ops
}

impl BloomFilter {
    /// Brings the layers back into memory from the bytes of their files, in
    /// order, and counts a page-in. A filter kept only in memory comes back
    /// with no layers. Nothing changes when the filter is loaded already, or
    /// when an image does not make a layer of the filter's shape.
    pub fn load_layers(&mut self, images: Vec<Vec<u8>>, page_size: u64) -> (r: Result<(), String>)
        requires
            old(self).wf(),
        ensures
            final(self).wf(),
            final(self).spec_directory() == old(self).spec_directory(),
            old(self).loaded() ==> r is Ok && final(self).layers() == old(self).layers()
                && final(self).spec_counters() == old(self).spec_counters(),
            r is Ok ==> final(self).loaded(),
            r is Ok <==> (old(self).loaded() || old(self).spec_config().in_memory || images_loadable(
                images@,
                old(self).spec_config().k_num,
                old(self).spec_config().bytes,
                old(self).spec_config().filter_sizes@,
                old(self).spec_config().size,
                page_size,
            )),
            !old(self).loaded() && r is Ok ==> final(self).loaded() && final(self).spec_counters()
                == (BloomFilterCounters {
                page_ins: sat_add(old(self).spec_counters().page_ins, 1),
                ..old(self).spec_counters()
            }),
            !old(self).loaded() && r is Ok && !old(self).spec_config().in_memory ==> final(self).layers() == images_view(images@)
                && final(self).spec_config() == old(self).spec_config(),
            r is Err ==> !final(self).loaded() && final(self).spec_counters() == old(self).spec_counters(),
            r is Err ==> *final(self) == *old(self),
            final(self).spec_cold() == old(self).spec_cold(),
    {
        if self.lbf.is_some() {
            return Ok(());
        }
        let params = bloom_filter_params::new(
            self.config.bytes,
            self.config.k_num,
            self.config.capacity,
            self.config.probability,
        );
        let mut layers: Vec<bloom_bloomfilter> = Vec::new();
        if self.config.in_memory {
            self.config.filter_sizes = Vec::new();
            self.config.bitmap_filenames = Vec::new();
            self.config.size = 0;
        } else {
            let ghost k = self.config.k_num;
            let ghost cnt = self.config.filter_sizes@.len();
            if images.len() != self.config.filter_sizes.len() {
                return Err("layer files do not match the settings".to_owned());
            }
            let len = match bitmap_len(self.config.bytes, page_size) {
                Some(l) => l,
                None => return Err("cannot size a layer".to_owned()),
            };
            if page_size > usize::MAX as u64 {
                return Err("cannot size a layer".to_owned());
            }
            let mut i: usize = 0;
            while i < images.len()
                invariant
                    *self == *old(self),
                    self.wf(),
                    self.lbf is None,
                    i <= images@.len(),
                    images@.len() == self.config.filter_sizes@.len(),
                    self.config.filter_sizes@.len() <= u32::MAX,
                    len <= MAX_LAYER_BYTES,
                    layers@.len() == i,
                    forall|j: int| 0 <= j < i ==> (#[trigger] layers@[j]).wf(),
                    forall|j: int| 0 <= j < i ==> (#[trigger] layers@[j]).view() == image_view(images@[j]@),
                    forall|j: int| 0 <= j < i ==> (#[trigger] layers@[j]).view().k == self.config.k_num,
                    len == layer_len(self.config.bytes, page_size),
                    !self.config.in_memory,
                    len > 0,
                    (len as int) % (page_size as int) == 0,
                    0 < page_size <= usize::MAX,
                    forall|j: int| 0 <= j < i ==> image_ok(#[trigger] images@[j]@, len as int, self.config.k_num),
                    forall|j: int| 0 <= j < i ==> image_view(#[trigger] images@[j]@).count == self.config.filter_sizes@[j],
                decreases images@.len() - i,
            {
                let img = images[i].clone();
                assert(img@ == images@[i as int]@);
                let map = match bloom_bitmap::from_bytes(
                    bitmap_mode::PERSISTENT.flag(),
                    page_size as usize,
                    len,
                    img,
                ) {
                    Ok(m) => m,
                    Err(_) => {
                        assert(!image_ok(images@[i as int]@, layer_len(self.config.bytes, page_size), self.config.k_num));
                        return Err("a layer file has the wrong length".to_owned());
                    },
                };
                let layer = match bloom_bloomfilter::load(map) {
                    Ok(l) => l,
                    Err(_) => {
                        assert(!image_ok(images@[i as int]@, layer_len(self.config.bytes, page_size), self.config.k_num));
                        return Err("a layer file does not hold a layer".to_owned());
                    },
                };
                if layer.view_k() != self.config.k_num {
                    assert(!image_ok(images@[i as int]@, len as int, self.config.k_num));
                    return Err("a layer file probes another number of bits".to_owned());
                }
                if layer.size() != self.config.filter_sizes[i] {
                    return Err("a layer file counts other keys than the settings".to_owned());
                }
                proof {
                    layer.lemma_wf();
                }
                assert(image_ok(images@[i as int]@, len as int, self.config.k_num));
                layers.push(layer);
                i += 1;
            }
            assert(layers@.map_values(|l: bloom_bloomfilter| l.view()) =~= images_view(images@));
            let first = if layers.len() > 0 {
                layers[0].size()
            } else {
                0
            };
            if first != self.config.size {
                return Err("the first layer file counts other keys than the settings".to_owned());
            }
        }
        let f = bloom_lbf::new(params, self.config.filter_name.clone(), layers);
        proof {
            f.lemma_layers_ok();
        }
        self.lbf = Some(f);
        self.counters.page_ins = self.counters.page_ins.saturating_add(1);
        Ok(())
    }

    /// Takes the layers out of memory, writing back what they changed first,
    /// and counts a page-out; keeps settings and counters. Does nothing when
    /// the filter is not loaded.
    pub fn unload_filter(&mut self) -> (r: Vec<DiskOp>)
        requires
            old(self).wf(),
        ensures
            final(self).wf(),
            !final(self).loaded(),
            final(self).spec_cold() == old(self).spec_cold(),
            final(self).spec_config() == old(self).spec_config(),
            final(self).spec_directory() == old(self).spec_directory(),
            old(self).loaded() ==> final(self).spec_counters() == (BloomFilterCounters {
                page_outs: sat_add(old(self).spec_counters().page_outs, 1),
                ..old(self).spec_counters()
            }),
            !old(self).loaded() ==> final(self).spec_counters() == old(self).spec_counters() && r@.len() == 0,
            keeps_dirs(r@),
            old(self).spec_config().in_memory ==> r@.len() == 0,
            old(self).loaded() && !old(self).spec_config().in_memory ==> exists|fs: Seq<bloom_bloomfilter>| {
                &&& fs.len() == old(self).layer_objs().len()
                &&& forall|i: int| 0 <= i < fs.len() ==> (#[trigger] fs[i]).synced() && fs[i].view() == old(self).layer_objs()[i].view()
                &&& ops_view(r@) == layers_writes(
                    lines_view(old(self).spec_config().bitmap_filenames@),
                    old(self).layer_objs(),
                    fs,
                    old(self).layer_objs().len(),
                )
            },
    {
        match self.lbf.take() {
            None => Vec::new(),
            Some(mut f) => {
                proof {
                    f.lemma_layers_ok();
                }
                let ghost v0 = f.view();
                let ghost l0 = f.layers();
                assert(l0 == old(self).layer_objs());
                let ops = flush_layers(&mut f, &self.config.bitmap_filenames, !self.config.in_memory);
                proof {
                    f.lemma_layers_ok();
                    let fs = f.layers();
                    assert forall|i: int| 0 <= i < fs.len() implies (#[trigger] fs[i]).synced() && fs[i].view() == l0[i].view() by {
                        assert(fs[i].view() == f.view()[i]);
                        assert(v0[i] == l0[i].view());
                    }
                }
                self.counters.page_outs = self.counters.page_outs.saturating_add(1);
                ops
            },
        }
    }

    /// Writes the settings and counters to the INI file (unless the filter
    /// is kept only in memory), then every layer's changed pages.
    pub fn flush(&mut self) -> (r: Vec<DiskOp>)
        requires
            old(self).wf(),
        ensures
            final(self).wf(),
            final(self).loaded() == old(self).loaded(),
            final(self).layers() == old(self).layers(),
            final(self).spec_config() == old(self).spec_config(),
            final(self).spec_counters() == old(self).spec_counters(),
            final(self).spec_directory() == old(self).spec_directory(),
            !old(self).spec_config().in_memory ==> r@.len() > 0 && (r@[0] matches DiskOp::WriteFile { path, contents } && path@ == ini_path(old(self).spec_directory(), old(self).spec_config().filter_name@) && contents@ == crate::inifile::ini_text(seq![
                crate::config::config_section(old(self).spec_config().view()),
                counters_section(old(self).spec_counters()),
            ])),
            old(self).spec_config().in_memory ==> r@.len() == 0,
            keeps_dirs(r@),
            ops_view(r@) == entry_flush_ops(*old(self), *final(self)),
            final(self).spec_cold() == old(self).spec_cold(),
            final(self).layer_objs().len() == old(self).layer_objs().len(),
            forall|i: int| 0 <= i < final(self).layer_objs().len() ==> (#[trigger] final(self).layer_objs()[i]).synced(),
    {
        let mut ops: Vec<DiskOp> = Vec::new();
        if !self.config.in_memory {
            let ini = self.to_ini();
            let contents = ini.to_text();
            ops.push(DiskOp::WriteFile { path: self.config_file.clone(), contents });
        }
        let ghost first = ops@;
        assert(ops_view(first) =~= ini_write(*old(self)));
        match self.lbf.take() {
            None => {},
            Some(mut f) => {
                let mut more = flush_layers(&mut f, &self.config.bitmap_filenames, !self.config.in_memory);
                let ghost m = more@;
                ops.append(&mut more);
                assert(ops@ == first + m);
                assert(ops_view(ops@) =~= ops_view(first) + ops_view(m));
                assert(ops@.len() >= first.len());
                assert(first.len() > 0 ==> ops@[0] == first[0]);
                self.lbf = Some(f);
            },
        }
        ops
    }

    /// The change that erases the filter's files.
    pub fn delete(&self) -> (r: DiskOp)
        ensures
            r matches DiskOp::RemoveDir { path } && path@ == self.spec_directory(),
    {
        DiskOp::RemoveDir { path: self.directory.clone() }
    }

    /// The body of an `info` reply.
    pub fn info_body(&self) -> (r: String)
        requires
            self.wf(),
        ensures
            r@ == info_body(self.spec_config(), self.spec_counters()),
    {
        let c = &self.config;
        let n = &self.counters;
        let mut r = String::new();
        push_field(&mut r, "capacity", u64_to_string(c.capacity));
        push_field(&mut r, "checks", u64_to_string(n.checks()));
        push_field(&mut r, "check_hits", u64_to_string(n.check_hits));
        push_field(&mut r, "check_misses", u64_to_string(n.check_misses));
        push_field(&mut r, "page_ins", u64_to_string(n.page_ins));
        push_field(&mut r, "page_outs", u64_to_string(n.page_outs));
        push_field(&mut r, "probability", c.probability.to_text());
        push_field(&mut r, "sets", u64_to_string(n.sets()));
        push_field(&mut r, "set_hits", u64_to_string(n.set_hits));
        push_field(&mut r, "set_misses", u64_to_string(n.set_misses));
        push_field(&mut r, "size", u64_to_string(c.size));
        push_field(&mut r, "storage", u64_to_string(c.bytes));
        r
    }

    /// The `list` line of the filter under `name`.
    pub fn list_line(&self, name: &String) -> (r: String)
        requires
            self.wf(),
        ensures
            r@ == list_line(name@, self.spec_config()),
    {
        let c = &self.config;
        let mut r = name.clone();
        push_char(&mut r, ' ');
        let p = c.probability.to_text();
        push_all(&mut r, p.as_str());
        push_char(&mut r, ' ');
        let b = u64_to_string(c.bytes);
        push_all(&mut r, b.as_str());
        push_char(&mut r, ' ');
        let cap = u64_to_string(c.capacity);
        push_all(&mut r, cap.as_str());
        push_char(&mut r, ' ');
        let sz = u64_to_string(c.size);
        push_all(&mut r, sz.as_str());
        push_char(&mut r, '\r');
        push_char(&mut r, '\n');
        r
    }
}

/// The INI file of filter `name` under `dir`.
pub open spec fn ini_path(dir: Seq<char>, name: Seq<char>) -> Seq<char> {
    dir + seq!['/'] + name + ".ini"@
}

fn make_ini_path(dir: &String, name: &String) -> (r: String)
    ensures
        r@ == ini_path(dir@, name@),
{
    let mut r = dir.clone();
    push_char(&mut r, '/');
    push_all(&mut r, name.as_str());
    push_all(&mut r, ".ini");
    r
}

impl BloomFilterCounters {
    /// All counters zero.
    pub open spec fn new_spec() -> Self {
        BloomFilterCounters {
            check_hits: 0,
            check_misses: 0,
            set_hits: 0,
            set_misses: 0,
            page_ins: 0,
            page_outs: 0,
        }
    }
}

/// Whether a filter's settings come back unchanged from its INI file: a
/// name without line breaks, layer files that are not empty and hold no
/// line break or comma, a probability in normal form, one size per file.
pub open spec fn config_text_ok(c: crate::config::FilterConfigView) -> bool {
    &&& c.filter_name.len() > 0
    &&& crate::text::plain_chars(c.filter_name)
    &&& crate::decimal::is_normal(c.probability)
    &&& c.filter_sizes.len() == c.bitmap_filenames.len()
    &&& c.filter_sizes.len() <= u32::MAX
    &&& forall|i: int| 0 <= i < c.bitmap_filenames.len() ==> (#[trigger] c.bitmap_filenames[i]).len() > 0
        && crate::text::plain_chars(c.bitmap_filenames[i])
        && forall|j: int| 0 <= j < c.bitmap_filenames[i].len() ==> c.bitmap_filenames[i][j] != ','
}

/// Round trip of a filter's INI file: the text a flush writes for settings
/// `c` and counters `k` reads back, as recovery reads it, as those settings
/// and counters.
pub proof fn lemma_entry_ini_round_trip(c: crate::config::FilterConfigView, k: BloomFilterCounters)
    requires
        config_text_ok(c),
    ensures
        ({
            let w = seq![crate::config::config_section(c), counters_section(k)];
            let v = crate::inifile::read_lines((Seq::empty(), None), crate::text::split_on(crate::inifile::ini_text(w), '\n')).0;
            &&& v == w
            &&& entry_ini_ok(v)
            &&& config_of(v) == Some(c)
            &&& counters_of(v) == Some(k)
        }),
{
    let w = seq![crate::config::config_section(c), counters_section(k)];
    let files = c.bitmap_filenames;
    let sizes = crate::text::decs(c.filter_sizes);
    lemma_entry_text_ok(c, k);
    crate::inifile::lemma_ini_round_trip(w);
    lemma_config_lookups(c, k);
    lemma_counter_lookups(c, k);
    crate::decimal::lemma_decimal_round_trip(c.probability);
    lemma_dec_parses(c.capacity as nat);
    lemma_dec_parses(c.k_num as nat);
    lemma_dec_parses(c.bytes as nat);
    lemma_dec_parses(c.size as nat);
    crate::text::lemma_split_join(files, ',');
    assert forall|i: int, j: int| 0 <= i < sizes.len() && 0 <= j < sizes[i].len() implies (#[trigger] sizes[i][j]) != ',' by {
        crate::text::lemma_dec_plain(c.filter_sizes[i] as nat);
    }
    if sizes.len() > 0 {
        crate::text::lemma_dec_plain(c.filter_sizes[sizes.len() - 1] as nat);
    }
    crate::text::lemma_split_join(sizes, ',');
    crate::text::lemma_parse_decs(c.filter_sizes);
    lemma_bool_words();
    assert(config_of(w) == Some(c));
    lemma_dec_parses(k.check_hits as nat);
    lemma_dec_parses(k.check_misses as nat);
    lemma_dec_parses(k.set_hits as nat);
    lemma_dec_parses(k.set_misses as nat);
    lemma_dec_parses(k.page_ins as nat);
    lemma_dec_parses(k.page_outs as nat);
    assert(counters_of(w) == Some(k));
}

proof fn lemma_entry_text_ok(c: crate::config::FilterConfigView, k: BloomFilterCounters)
    requires
        config_text_ok(c),
    ensures
        crate::inifile::ini_text_ok(seq![crate::config::config_section(c), counters_section(k)]),
{
    reveal_strlit("config");
    reveal_strlit("counters");
    reveal_strlit("filter_name");
    reveal_strlit("capacity");
    reveal_strlit("probability");
    reveal_strlit("k_num");
    reveal_strlit("in_memory");
    reveal_strlit("bytes");
    reveal_strlit("size");
    reveal_strlit("bitmap_filenames");
    reveal_strlit("filter_sizes");
    reveal_strlit("check_hits");
    reveal_strlit("check_misses");
    reveal_strlit("set_hits");
    reveal_strlit("set_misses");
    reveal_strlit("page_ins");
    reveal_strlit("page_outs");
    reveal_strlit("true");
    reveal_strlit("false");
    reveal_strlit("1");
    reveal_strlit("yes");
    reveal_strlit("T");
    reveal_strlit("on");
    reveal_strlit("0");
    reveal_strlit("no");
    reveal_strlit("F");
    reveal_strlit("off");
    reveal_strlit("config");
    reveal_strlit("counters");
    reveal_strlit("filter_name");
    reveal_strlit("capacity");
    reveal_strlit("probability");
    reveal_strlit("k_num");
    reveal_strlit("in_memory");
    reveal_strlit("bytes");
    reveal_strlit("size");
    reveal_strlit("bitmap_filenames");
    reveal_strlit("filter_sizes");
    reveal_strlit("check_hits");
    reveal_strlit("check_misses");
    reveal_strlit("set_hits");
    reveal_strlit("set_misses");
    reveal_strlit("page_ins");
    reveal_strlit("page_outs");
    reveal_strlit("true");
    reveal_strlit("false");
    let cs = crate::config::config_section(c);
    let ks = counters_section(k);
    let w = seq![cs, ks];
    crate::text::lemma_dec_plain(c.capacity as nat);
    crate::text::lemma_dec_plain(c.k_num as nat);
    crate::text::lemma_dec_plain(c.bytes as nat);
    crate::text::lemma_dec_plain(c.size as nat);
    crate::text::lemma_dec_plain(k.check_hits as nat);
    crate::text::lemma_dec_plain(k.check_misses as nat);
    crate::text::lemma_dec_plain(k.set_hits as nat);
    crate::text::lemma_dec_plain(k.set_misses as nat);
    crate::text::lemma_dec_plain(k.page_ins as nat);
    crate::text::lemma_dec_plain(k.page_outs as nat);
    crate::decimal::lemma_decimal_plain(c.probability);
    let files = c.bitmap_filenames;
    let sizes = crate::text::decs(c.filter_sizes);
    assert forall|i: int| 0 <= i < files.len() implies crate::text::plain_chars(#[trigger] files[i]) by {}
    crate::text::lemma_join_plain(files, ',');
    assert forall|i: int| 0 <= i < sizes.len() implies crate::text::plain_chars(#[trigger] sizes[i]) by {
        crate::text::lemma_dec_plain(c.filter_sizes[i] as nat);
    }
    crate::text::lemma_join_plain(sizes, ',');
    assert("filter_name"@.len() == 11 && "capacity"@.len() == 8 && "probability"@.len() == 11
        && "k_num"@.len() == 5 && "in_memory"@.len() == 9 && "bytes"@.len() == 5
        && "size"@.len() == 4 && "bitmap_filenames"@.len() == 16 && "filter_sizes"@.len() == 12);
    assert("filter_name"@[0] == 'f' && "probability"@[0] == 'p' && "k_num"@[0] == 'k'
        && "bytes"@[0] == 'b');
    assert("config"@.len() == 6 && "counters"@.len() == 8);
    assert("check_hits"@.len() == 10 && "check_misses"@.len() == 12 && "set_hits"@.len() == 8
        && "set_misses"@.len() == 10 && "page_ins"@.len() == 8 && "page_outs"@.len() == 9);
    assert("check_hits"@[0] == 'c' && "set_misses"@[0] == 's' && "set_hits"@[0] == 's'
        && "page_ins"@[0] == 'p');
    let o0 = cs.options;
    let o1 = ks.options;
    assert(crate::inifile::option_text_ok(o0[0])) by {
        assert(o0[0].0 == "filter_name"@);
        assert(crate::text::plain_chars(o0[0].1));
    }
    assert(crate::inifile::option_text_ok(o0[1])) by {
        assert(o0[1].0 == "capacity"@);
        assert(crate::text::plain_chars(o0[1].1));
    }
    assert(crate::inifile::option_text_ok(o0[2])) by {
        assert(o0[2].0 == "probability"@);
        assert(crate::text::plain_chars(o0[2].1));
    }
    assert(crate::inifile::option_text_ok(o0[3])) by {
        assert(o0[3].0 == "k_num"@);
        assert(crate::text::plain_chars(o0[3].1));
    }
    assert(crate::inifile::option_text_ok(o0[4])) by {
        assert(o0[4].0 == "in_memory"@);
        assert(crate::text::plain_chars(o0[4].1));
    }
    assert(crate::inifile::option_text_ok(o0[5])) by {
        assert(o0[5].0 == "bytes"@);
        assert(crate::text::plain_chars(o0[5].1));
    }
    assert(crate::inifile::option_text_ok(o0[6])) by {
        assert(o0[6].0 == "size"@);
        assert(crate::text::plain_chars(o0[6].1));
    }
    assert(crate::inifile::option_text_ok(o0[7])) by {
        assert(o0[7].0 == "bitmap_filenames"@);
        assert(crate::text::plain_chars(o0[7].1));
    }
    assert(crate::inifile::option_text_ok(o0[8])) by {
        assert(o0[8].0 == "filter_sizes"@);
        assert(crate::text::plain_chars(o0[8].1));
    }
    assert(crate::inifile::option_text_ok(o1[0])) by {
        assert(o1[0].0 == "check_hits"@);
        assert(crate::text::plain_chars(o1[0].1));
    }
    assert(crate::inifile::option_text_ok(o1[1])) by {
        assert(o1[1].0 == "check_misses"@);
        assert(crate::text::plain_chars(o1[1].1));
    }
    assert(crate::inifile::option_text_ok(o1[2])) by {
        assert(o1[2].0 == "set_hits"@);
        assert(crate::text::plain_chars(o1[2].1));
    }
    assert(crate::inifile::option_text_ok(o1[3])) by {
        assert(o1[3].0 == "set_misses"@);
        assert(crate::text::plain_chars(o1[3].1));
    }
    assert(crate::inifile::option_text_ok(o1[4])) by {
        assert(o1[4].0 == "page_ins"@);
        assert(crate::text::plain_chars(o1[4].1));
    }
    assert(crate::inifile::option_text_ok(o1[5])) by {
        assert(o1[5].0 == "page_outs"@);
        assert(crate::text::plain_chars(o1[5].1));
    }
    assert forall|a: int, b: int| 0 <= a < b < o0.len() implies (#[trigger] o0[a]).0 != (#[trigger] o0[b]).0 by {}
    assert forall|a: int, b: int| 0 <= a < b < o1.len() implies (#[trigger] o1[a]).0 != (#[trigger] o1[b]).0 by {}
    assert(w[0] == cs && w[1] == ks);
    assert(crate::inifile::ini_distinct(w));
    assert forall|t: int, j: int| 0 <= t < w.len() && 0 <= j < w[t].name.len() implies (#[trigger] w[t].name[j]) != '\n' by {}
    assert forall|t: int, i: int| 0 <= t < w.len() && 0 <= i < w[t].options.len() implies crate::inifile::option_text_ok(#[trigger] w[t].options[i]) by {
        if t == 0 {
            assert(w[t].options == o0);
        } else {
            assert(w[t].options == o1);
        }
    }
}

proof fn lemma_bool_words()
    ensures
        crate::inifile::is_true_word("true"@),
        !crate::inifile::is_false_word("true"@),
        crate::inifile::is_false_word("false"@),
        !crate::inifile::is_true_word("false"@),
{
    reveal_strlit("true");
    reveal_strlit("false");
    reveal_strlit("1");
    reveal_strlit("yes");
    reveal_strlit("T");
    reveal_strlit("on");
    reveal_strlit("0");
    reveal_strlit("no");
    reveal_strlit("F");
    reveal_strlit("off");
    assert("false"@.len() == 5 && "true"@.len() == 4 && "false"@[0] == 'f' && "true"@[0] == 't');
    assert("yes"@[0] == 'y' && "off"@[0] == 'o' && "no"@.len() == 2 && "on"@.len() == 2);
}

proof fn lemma_config_lookups(c: crate::config::FilterConfigView, k: BloomFilterCounters)
    ensures
        ({
            let w = seq![crate::config::config_section(c), counters_section(k)];
            &&& crate::config::config_str(w, "filter_name"@) == Some(c.filter_name)
            &&& crate::config::config_str(w, "capacity"@) == Some(dec(c.capacity as nat))
            &&& crate::config::config_str(w, "probability"@) == Some(crate::decimal::decimal_text(c.probability))
            &&& crate::config::config_str(w, "k_num"@) == Some(dec(c.k_num as nat))
            &&& crate::config::config_str(w, "in_memory"@) == Some(crate::config::bool_text(c.in_memory))
            &&& crate::config::config_str(w, "bytes"@) == Some(dec(c.bytes as nat))
            &&& crate::config::config_str(w, "size"@) == Some(dec(c.size as nat))
            &&& crate::config::config_str(w, "bitmap_filenames"@) == Some(crate::text::join_on(c.bitmap_filenames, ','))
            &&& crate::config::config_str(w, "filter_sizes"@) == Some(crate::text::join_on(crate::text::decs(c.filter_sizes), ','))
        }),
{
    reveal_strlit("config");
    reveal_strlit("counters");
    reveal_strlit("filter_name");
    reveal_strlit("capacity");
    reveal_strlit("probability");
    reveal_strlit("k_num");
    reveal_strlit("in_memory");
    reveal_strlit("bytes");
    reveal_strlit("size");
    reveal_strlit("bitmap_filenames");
    reveal_strlit("filter_sizes");
    reveal_strlit("check_hits");
    reveal_strlit("check_misses");
    reveal_strlit("set_hits");
    reveal_strlit("set_misses");
    reveal_strlit("page_ins");
    reveal_strlit("page_outs");
    reveal_strlit("true");
    reveal_strlit("false");
    reveal_strlit("1");
    reveal_strlit("yes");
    reveal_strlit("T");
    reveal_strlit("on");
    reveal_strlit("0");
    reveal_strlit("no");
    reveal_strlit("F");
    reveal_strlit("off");
    reveal_strlit("config");
    reveal_strlit("counters");
    reveal_strlit("filter_name");
    reveal_strlit("capacity");
    reveal_strlit("probability");
    reveal_strlit("k_num");
    reveal_strlit("in_memory");
    reveal_strlit("bytes");
    reveal_strlit("size");
    reveal_strlit("bitmap_filenames");
    reveal_strlit("filter_sizes");
    reveal_strlit("counters");
    assert("filter_name"@.len() == 11 && "capacity"@.len() == 8 && "probability"@.len() == 11
        && "k_num"@.len() == 5 && "in_memory"@.len() == 9 && "bytes"@.len() == 5
        && "size"@.len() == 4 && "bitmap_filenames"@.len() == 16 && "filter_sizes"@.len() == 12);
    assert("filter_name"@[0] == 'f' && "probability"@[0] == 'p' && "k_num"@[0] == 'k'
        && "bytes"@[0] == 'b');
    assert("config"@.len() == 6 && "counters"@.len() == 8);
    assert("check_hits"@.len() == 10 && "check_misses"@.len() == 12 && "set_hits"@.len() == 8
        && "set_misses"@.len() == 10 && "page_ins"@.len() == 8 && "page_outs"@.len() == 9);
    assert("check_hits"@[0] == 'c' && "set_misses"@[0] == 's' && "set_hits"@[0] == 's'
        && "page_ins"@[0] == 'p');
    let w = seq![crate::config::config_section(c), counters_section(k)];
    let o = w[0].options;
    assert(crate::inifile::section_index(w, "config"@) == 0);
    assert(o[0].0 == "filter_name"@);
    crate::inifile::lemma_option_at(o, "filter_name"@, 0, 0);
    assert(o[1].0 == "capacity"@);
    crate::inifile::lemma_option_at(o, "capacity"@, 0, 1);
    assert(o[2].0 == "probability"@);
    crate::inifile::lemma_option_at(o, "probability"@, 0, 2);
    assert(o[3].0 == "k_num"@);
    crate::inifile::lemma_option_at(o, "k_num"@, 0, 3);
    assert(o[4].0 == "in_memory"@);
    crate::inifile::lemma_option_at(o, "in_memory"@, 0, 4);
    assert(o[5].0 == "bytes"@);
    crate::inifile::lemma_option_at(o, "bytes"@, 0, 5);
    assert(o[6].0 == "size"@);
    crate::inifile::lemma_option_at(o, "size"@, 0, 6);
    assert(o[7].0 == "bitmap_filenames"@);
    crate::inifile::lemma_option_at(o, "bitmap_filenames"@, 0, 7);
    assert(o[8].0 == "filter_sizes"@);
    crate::inifile::lemma_option_at(o, "filter_sizes"@, 0, 8);

}

proof fn lemma_counter_lookups(c: crate::config::FilterConfigView, k: BloomFilterCounters)
    ensures
        ({
            let w = seq![crate::config::config_section(c), counters_section(k)];
            &&& counter_value(w, "check_hits"@) == parsed_u64(dec(k.check_hits as nat))
            &&& counter_value(w, "check_misses"@) == parsed_u64(dec(k.check_misses as nat))
            &&& counter_value(w, "set_hits"@) == parsed_u64(dec(k.set_hits as nat))
            &&& counter_value(w, "set_misses"@) == parsed_u64(dec(k.set_misses as nat))
            &&& counter_value(w, "page_ins"@) == parsed_u64(dec(k.page_ins as nat))
            &&& counter_value(w, "page_outs"@) == parsed_u64(dec(k.page_outs as nat))
        }),
{
    reveal_strlit("config");
    reveal_strlit("counters");
    reveal_strlit("filter_name");
    reveal_strlit("capacity");
    reveal_strlit("probability");
    reveal_strlit("k_num");
    reveal_strlit("in_memory");
    reveal_strlit("bytes");
    reveal_strlit("size");
    reveal_strlit("bitmap_filenames");
    reveal_strlit("filter_sizes");
    reveal_strlit("check_hits");
    reveal_strlit("check_misses");
    reveal_strlit("set_hits");
    reveal_strlit("set_misses");
    reveal_strlit("page_ins");
    reveal_strlit("page_outs");
    reveal_strlit("true");
    reveal_strlit("false");
    reveal_strlit("1");
    reveal_strlit("yes");
    reveal_strlit("T");
    reveal_strlit("on");
    reveal_strlit("0");
    reveal_strlit("no");
    reveal_strlit("F");
    reveal_strlit("off");
    reveal_strlit("config");
    reveal_strlit("counters");
    reveal_strlit("check_hits");
    reveal_strlit("check_misses");
    reveal_strlit("set_hits");
    reveal_strlit("set_misses");
    reveal_strlit("page_ins");
    reveal_strlit("page_outs");
    assert("filter_name"@.len() == 11 && "capacity"@.len() == 8 && "probability"@.len() == 11
        && "k_num"@.len() == 5 && "in_memory"@.len() == 9 && "bytes"@.len() == 5
        && "size"@.len() == 4 && "bitmap_filenames"@.len() == 16 && "filter_sizes"@.len() == 12);
    assert("filter_name"@[0] == 'f' && "probability"@[0] == 'p' && "k_num"@[0] == 'k'
        && "bytes"@[0] == 'b');
    assert("config"@.len() == 6 && "counters"@.len() == 8);
    assert("check_hits"@.len() == 10 && "check_misses"@.len() == 12 && "set_hits"@.len() == 8
        && "set_misses"@.len() == 10 && "page_ins"@.len() == 8 && "page_outs"@.len() == 9);
    assert("check_hits"@[0] == 'c' && "set_misses"@[0] == 's' && "set_hits"@[0] == 's'
        && "page_ins"@[0] == 'p');
    let w = seq![crate::config::config_section(c), counters_section(k)];
    let o = w[1].options;
    reveal_with_fuel(crate::inifile::section_from, 3);
    assert(crate::inifile::section_index(w, "counters"@) == 1);
    assert(o[0].0 == "check_hits"@);
    crate::inifile::lemma_option_at(o, "check_hits"@, 0, 0);
    assert(o[1].0 == "check_misses"@);
    crate::inifile::lemma_option_at(o, "check_misses"@, 0, 1);
    assert(o[2].0 == "set_hits"@);
    crate::inifile::lemma_option_at(o, "set_hits"@, 0, 2);
    assert(o[3].0 == "set_misses"@);
    crate::inifile::lemma_option_at(o, "set_misses"@, 0, 3);
    assert(o[4].0 == "page_ins"@);
    crate::inifile::lemma_option_at(o, "page_ins"@, 0, 4);
    assert(o[5].0 == "page_outs"@);
    crate::inifile::lemma_option_at(o, "page_outs"@, 0, 5);

}

/// Round-trip persistence of a filter's settings and counters: the INI text
/// that flushing filter `e` writes, read back as recovery reads it, describes
/// a filter with the same settings and counters.
pub proof fn lemma_flush_then_recover(e: BloomFilter)
    requires
        !e.spec_config().in_memory,
        config_text_ok(e.spec_config().view()),
    ensures
        ini_write(e).len() == 1,
        ini_write(e)[0] matches OpView::WriteFile(path, text) && ({
            let v = crate::inifile::read_lines((Seq::empty(), None), crate::text::split_on(text, '\n')).0;
            &&& path == ini_path(e.spec_directory(), e.spec_config().filter_name@)
            &&& entry_ini_ok(v)
            &&& config_of(v) == Some(e.spec_config().view())
            &&& counters_of(v) == Some(e.spec_counters())
        }),
{
    lemma_entry_ini_round_trip(e.spec_config().view(), e.spec_counters());
}

} // verus!
