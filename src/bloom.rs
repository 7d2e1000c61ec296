//! One Bloom filter layer: a 512-byte header followed by a bit region over
//! which each key sets `k_num` probe bits.
use vstd::prelude::*;
use crate::bitmap::{bloom_bitmap, bit_of, has_mode, lemma_zero_bits, set_positions, bitmap_mode};
use crate::hash::{hash_pair, lemma_probe_bound, probe, probe_position};
use vstd::string::StringSliceAdditionalSpecFns;
use crate::decimal::Decimal;

verus! {

/// The magic number that opens every layer's header.
pub const MAGIC_HEADER: u32 = 0xCB1005DD;

/// The size of the header in bytes; the bit region follows it.
pub const HEADER_BYTES: usize = 512;

/// The largest bitmap a layer can address with 64-bit bit positions.
pub const MAX_LAYER_BYTES: u64 = 0x1000_0000_0000_0000;

/// The number of bits the header takes.
pub const HEADER_BITS: u64 = 4096;

/// The header of a layer: magic number, number of probes, number of insertions.
#[allow(non_camel_case_types)]
#[derive(Clone, Copy, Debug, PartialEq, Eq, Structural)]
pub struct bloom_filter_header {
    pub magic: u32,
    pub k_num: u32,
    pub count: u64,
}

impl bloom_filter_header {
    /// A header with the given fields.
    pub fn new(magic: u32, k_num: u32, count: u64) -> (r: Self)
        ensures
            r.magic == magic,
            r.k_num == k_num,
            r.count == count,
    {
        bloom_filter_header { magic, k_num, count }
    }
}

/// The little-endian value of the four bytes of `b` from `off`.
pub open spec fn u32_le(b: Seq<u8>, off: int) -> nat {
    b[off] as nat + 256 * (b[off + 1] as nat) + 65536 * (b[off + 2] as nat) + 16777216 * (
    b[off + 3] as nat)
}

/// The little-endian value of the eight bytes of `b` from `off`.
pub open spec fn u64_le(b: Seq<u8>, off: int) -> nat {
    u32_le(b, off) + 4294967296 * u32_le(b, off + 4)
}

/// The size of the bit region of a layer of `len` bytes with `k` probes:
/// the bits after the header, rounded down to a multiple of `k`.
#[verifier::opaque]
pub open spec fn region_bits(len: nat, k: nat) -> nat {
    if len <= HEADER_BYTES || k == 0 {
        0
    } else {
        ((len - HEADER_BYTES) as nat * 8) / k * k
    }
}

/// Every position of the bit region lies in the bitmap, past the header.
pub proof fn lemma_region_within(len: nat, k: nat, j: int)
    requires
        0 <= j < region_bits(len, k),
    ensures
        HEADER_BITS + j < len * 8,
        HEADER_BYTES <= (HEADER_BITS + j) / 8 < len,
{
    reveal(region_bits);
    assert(((len - HEADER_BYTES) as nat * 8) / k * k <= (len - HEADER_BYTES) as nat * 8)
        by (nonlinear_arith)
        requires
            k > 0,
    ;
}

/// What a layer holds: its probe count, its region size, the region's bits
/// and its insertion count.
pub struct LayerView {
    pub k: u64,
    pub m: u64,
    pub bits: Seq<bool>,
    pub count: u64,
}

/// The bit region stored in `bytes`, for a region of `m` bits.
pub open spec fn region_of(bytes: Seq<u8>, m: nat) -> Seq<bool> {
    Seq::new(m, |j: int| bit_of(bytes, HEADER_BITS + j))
}

/// The layer that a stored image describes, read from its header.
pub open spec fn image_view(bytes: Seq<u8>) -> LayerView {
    let k = u32_le(bytes, 4);
    let m = region_bits(bytes.len(), k);
    LayerView { k: k as u64, m: m as u64, bits: region_of(bytes, m), count: u64_le(bytes, 8) as u64 }
}

/// Whether every probe bit of `key` is set.
pub open spec fn lv_contains(v: LayerView, key: Seq<u8>) -> bool {
    forall|i: u64| i < v.k ==> v.bits[#[trigger] probe(key, i, v.m) as int]
}

/// `bits` with the first `n` probe bits of `key` set.
pub open spec fn with_probes(bits: Seq<bool>, key: Seq<u8>, n: u64, m: u64) -> Seq<bool>
    decreases n,
{
    if n == 0 {
        bits
    } else {
        with_probes(bits, key, (n - 1) as u64, m).update(probe(key, (n - 1) as u64, m) as int, true)
    }
}

/// A layer after adding `key`: unchanged when the key is already there,
/// else with its probe bits set and one more insertion counted.
pub open spec fn lv_add(v: LayerView, key: Seq<u8>) -> LayerView {
    if lv_contains(v, key) {
        v
    } else {
        LayerView {
            bits: with_probes(v.bits, key, v.k, v.m),
            count: if v.count < u64::MAX {
                (v.count + 1) as u64
            } else {
                v.count
            },
            ..v
        }
    }
}

/// An empty layer with `k` probes over `m` bits.
pub open spec fn lv_empty(k: u64, m: u64) -> LayerView {
    LayerView { k, m, bits: Seq::new(m as nat, |j: int| false), count: 0 }
}

/// Setting probe bits keeps the length, keeps every set bit, and sets each of
/// the first `n` probes.
pub proof fn lemma_with_probes(bits: Seq<bool>, key: Seq<u8>, n: u64, m: u64)
    requires
        m > 0,
        bits.len() == m,
    ensures
        with_probes(bits, key, n, m).len() == m,
        forall|j: int| 0 <= j < m && bits[j] ==> #[trigger] with_probes(bits, key, n, m)[j],
        forall|i: u64| i < n ==> with_probes(bits, key, n, m)[#[trigger] probe(key, i, m) as int],
    decreases n,
{
    if n > 0 {
        lemma_with_probes(bits, key, (n - 1) as u64, m);
        lemma_probe_bound(key, (n - 1) as u64, m);
        assert forall|i: u64| i < n implies with_probes(bits, key, n, m)[#[trigger] probe(
            key,
            i,
            m,
        ) as int] by {
            lemma_probe_bound(key, i, m);
        }
    }
}

/// Adding a key makes the layer contain it and keeps every set bit.
pub proof fn lemma_add_contains(v: LayerView, key: Seq<u8>)
    requires
        v.m > 0,
        v.bits.len() == v.m,
    ensures
        lv_contains(lv_add(v, key), key),
        lv_add(v, key).bits.len() == v.m,
        lv_add(v, key).k == v.k,
        lv_add(v, key).m == v.m,
        forall|j: int| 0 <= j < v.m && v.bits[j] ==> #[trigger] lv_add(v, key).bits[j],
{
    lemma_with_probes(v.bits, key, v.k, v.m);
}

/// A layer that holds every set bit of another, with the same shape, holds
/// every key the other holds.
pub proof fn lemma_contains_mono(a: LayerView, b: LayerView, key: Seq<u8>)
    requires
        a.k == b.k,
        a.m == b.m,
        a.m > 0,
        a.bits.len() == a.m,
        b.bits.len() == b.m,
        forall|j: int| 0 <= j < a.m && a.bits[j] ==> #[trigger] b.bits[j],
        lv_contains(a, key),
    ensures
        lv_contains(b, key),
{
    assert forall|i: u64| i < b.k implies b.bits[#[trigger] probe(key, i, b.m) as int] by {
        lemma_probe_bound(key, i, a.m);
        assert(a.bits[probe(key, i, a.m) as int]);
    }
}

/// Why a layer could not be made over a bitmap.
#[derive(Clone, Copy, Debug, PartialEq, Eq, Structural)]
pub enum LayerError {
    /// The header does not open with the magic number.
    BadMagic,
    /// The number of probes is zero.
    BadProbeCount,
    /// The bitmap leaves no bit region for the probes.
    TooSmall,
}

/// A single Bloom filter layer over a bitmap.
#[allow(non_camel_case_types)]
pub struct bloom_bloomfilter {
    header: bloom_filter_header,
    map: bloom_bitmap,
    offset: u64,
    bitmap_size: u64,
}

fn u32_le_bytes(v: u32) -> (r: Vec<u8>)
    ensures
        r@.len() == 4,
        u32_le(r@, 0) == v,
{
    assert(v & 0xff < 256 && (v >> 8) & 0xff < 256 && (v >> 16) & 0xff < 256 && (v >> 24) & 0xff
        < 256) by (bit_vector);
    let b0 = (v & 0xff) as u8;
    let b1 = ((v >> 8) & 0xff) as u8;
    let b2 = ((v >> 16) & 0xff) as u8;
    let b3 = ((v >> 24) & 0xff) as u8;
    assert(v == (v & 0xff) + 256 * ((v >> 8) & 0xff) + 65536 * ((v >> 16) & 0xff) + 16777216 * ((
    v >> 24) & 0xff)) by (bit_vector);
    vec![b0, b1, b2, b3]
}

fn read_u32_le(m: &bloom_bitmap, off: usize) -> (r: u32)
    requires
        off + 4 <= m.bytes().len(),
    ensures
        r == u32_le(m.bytes(), off as int),
{
    let n = m.len();
    let v0 = m.byte(off) as u32;
    let v1 = m.byte(off + 1) as u32;
    let v2 = m.byte(off + 2) as u32;
    let v3 = m.byte(off + 3) as u32;
    v0 + 256 * v1 + 65536 * v2 + 16777216 * v3
}

fn read_u64_le(m: &bloom_bitmap, off: usize) -> (r: u64)
    requires
        off + 8 <= m.bytes().len(),
    ensures
        r == u64_le(m.bytes(), off as int),
{
    let n = m.len();
    let lo = read_u32_le(m, off) as u64;
    let hi = read_u32_le(m, off + 4) as u64;
    lo + 4294967296 * hi
}

/// The sixteen header bytes: magic, probe count and insertion count, little-endian.
fn header_bytes(h: bloom_filter_header) -> (r: Vec<u8>)
    ensures
        r@.len() == 16,
        u32_le(r@, 0) == h.magic,
        u32_le(r@, 4) == h.k_num,
        u64_le(r@, 8) == h.count,
{
    let count = h.count;
    assert(count & 0xffff_ffff < 0x1_0000_0000 && count >> 32 < 0x1_0000_0000) by (bit_vector);
    let mut r = u32_le_bytes(h.magic);
    let mut k = u32_le_bytes(h.k_num);
    let mut lo = u32_le_bytes((h.count & 0xffff_ffff) as u32);
    let mut hi = u32_le_bytes((h.count >> 32) as u32);
    let ghost (a, b, c, d) = (r@, k@, lo@, hi@);
    r.append(&mut k);
    r.append(&mut lo);
    r.append(&mut hi);
    assert(r@ == a + b + c + d);
    assert(r@.subrange(0, 4) == a);
    assert(u32_le(r@, 4) == u32_le(b, 0));
    assert(u32_le(r@, 8) == u32_le(c, 0));
    assert(u32_le(r@, 12) == u32_le(d, 0));
    assert(count == (count & 0xffff_ffff) + 4294967296 * (count >> 32)) by (bit_vector);
    r
}

/// The size of the bit region of a layer of `len` bytes with `k` probes.
fn region_size(len: usize, k: u32) -> (r: u64)
    requires
        len > HEADER_BYTES,
        len <= MAX_LAYER_BYTES,
        k > 0,
    ensures
        r == region_bits(len as nat, k as nat),
{
    reveal(region_bits);
    let avail: u64 = ((len - HEADER_BYTES) as u64) * 8;
    assert(avail / (k as u64) * (k as u64) <= avail) by (nonlinear_arith)
        requires
            k > 0,
    ;
    avail / (k as u64) * (k as u64)
}

/// Sets the first `k` probe bits of the key with hashes `h1` and `h2` in the
/// bit region of `m` bits that follows the header.
fn set_probe_bits(map: &mut bloom_bitmap, h1: u64, h2: u64, k: u64, m: u64, Ghost(kb): Ghost<
    Seq<u8>,
>)
    requires
        old(map).wf(),
        old(map).bytes().len() <= MAX_LAYER_BYTES,
        m > 0,
        HEADER_BITS + m <= old(map).num_bits(),
        h1 == crate::hash::fnv1a(kb),
        h2 == crate::hash::sdbm(kb),
    ensures
        final(map).wf(),
        final(map).bytes().len() == old(map).bytes().len(),
        final(map).spec_page_size() == old(map).spec_page_size(),
        final(map).spec_mode() == old(map).spec_mode(),
        final(map).dirty().len() == old(map).dirty().len(),
        forall|b: int| 0 <= b < HEADER_BYTES ==> #[trigger] final(map).bytes()[b] == old(map).bytes()[b],
        region_of(final(map).bytes(), m as nat) == with_probes(
            region_of(old(map).bytes(), m as nat),
            kb,
            k,
            m,
        ),
{
    let ghost r0 = region_of(old(map).bytes(), m as nat);
    let mut i: u64 = 0;
    while i < k
        invariant
            map.wf(),
            map.bytes().len() <= MAX_LAYER_BYTES,
            m > 0,
            HEADER_BITS + m <= map.num_bits(),
            h1 == crate::hash::fnv1a(kb),
            h2 == crate::hash::sdbm(kb),
            r0 == region_of(old(map).bytes(), m as nat),
            map.bytes().len() == old(map).bytes().len(),
            map.spec_page_size() == old(map).spec_page_size(),
            map.spec_mode() == old(map).spec_mode(),
            map.dirty().len() == old(map).dirty().len(),
            forall|b: int| 0 <= b < HEADER_BYTES ==> #[trigger] map.bytes()[b] == old(map).bytes()[b],
            i <= k,
            with_probes(r0, kb, i, m).len() == m,
            forall|j: int| 0 <= j < m ==> #[trigger] map.bit(HEADER_BITS + j) == with_probes(r0, kb, i, m)[j],
        decreases k - i,
    {
        let pos = probe_position(h1, h2, i, m);
        proof {
            crate::hash::lemma_probe(kb, h1, h2, i, m);
        }
        let ghost mb = *map;
        map.set_bit(HEADER_BITS + pos);
        proof {
            assert forall|j: int| 0 <= j < m implies #[trigger] map.bit(HEADER_BITS + j) == with_probes(
                r0,
                kb,
                (i + 1) as u64,
                m,
            )[j] by {
                assert(mb.bit(HEADER_BITS + j) == with_probes(r0, kb, i, m)[j]);
            }
        }
        i += 1;
    }
    assert forall|j: int| 0 <= j < m implies #[trigger] region_of(map.bytes(), m as nat)[j]
        == with_probes(r0, kb, k, m)[j] by {
        assert(map.bit(HEADER_BITS + j) == with_probes(r0, kb, i, m)[j]);
    }
    assert(region_of(map.bytes(), m as nat) =~= with_probes(r0, kb, k, m));
}

impl bloom_bloomfilter {
    /// What the layer holds.
    pub closed spec fn view(&self) -> LayerView {
        LayerView {
            k: self.header.k_num as u64,
            m: self.bitmap_size,
            bits: region_of(self.map.bytes(), self.bitmap_size as nat),
            count: self.header.count,
        }
    }

    /// The bytes of the layer's bitmap.
    pub closed spec fn bytes(&self) -> Seq<u8> {
        self.map.bytes()
    }

    /// The bitmap the layer lives in.
    pub closed spec fn spec_map(&self) -> bloom_bitmap {
        self.map
    }

    /// The header in the bitmap's bytes says what the layer holds.
    pub open spec fn synced(&self) -> bool {
        image_view(self.bytes()) == self.view()
    }

    /// The layer's shape is consistent with its bitmap.
    pub closed spec fn wf(&self) -> bool {
        &&& self.map.wf()
        &&& self.map.bytes().len() <= MAX_LAYER_BYTES
        &&& self.offset == HEADER_BYTES
        &&& self.header.magic == MAGIC_HEADER
        &&& self.header.k_num > 0
        &&& self.bitmap_size > 0
        &&& self.bitmap_size == region_bits(self.map.bytes().len(), self.header.k_num as nat)
        &&& u32_le(self.map.bytes(), 0) == MAGIC_HEADER
        &&& u32_le(self.map.bytes(), 4) == self.header.k_num
    }

    /// A well-formed layer has a non-empty region and one flag per bit of it.
    pub proof fn lemma_wf(&self)
        requires
            self.wf(),
        ensures
            self.view().m > 0,
            self.view().k > 0,
            self.view().bits.len() == self.view().m,
            self.view().m == region_bits(self.bytes().len(), self.view().k as nat),
            self.spec_map().wf(),
            self.spec_map().bytes() == self.bytes(),
            self.bytes().len() <= MAX_LAYER_BYTES,
    {
    }

    /// Makes a fresh layer over `map`: writes the header with no insertions,
    /// clears the bit region.
    pub fn create(k_num: u32, map: bloom_bitmap) -> (r: Result<Self, LayerError>)
        requires
            map.wf(),
            map.bytes().len() <= MAX_LAYER_BYTES,
        ensures
            k_num == 0 ==> r == Err::<Self, LayerError>(LayerError::BadProbeCount),
            k_num > 0 && region_bits(map.bytes().len(), k_num as nat) == 0 ==> r == Err::<
                Self,
                LayerError,
            >(LayerError::TooSmall),
            k_num > 0 && region_bits(map.bytes().len(), k_num as nat) > 0 ==> (r matches Ok(l)
                && {
                &&& l.wf()
                &&& l.synced()
                &&& l.view() == lv_empty(
                    k_num as u64,
                    region_bits(map.bytes().len(), k_num as nat) as u64,
                )
                &&& l.bytes().len() == map.bytes().len()
                &&& l.spec_map().spec_page_size() == map.spec_page_size()
                &&& l.spec_map().spec_mode() == map.spec_mode()
            }),
    {
        if k_num == 0 {
            return Err(LayerError::BadProbeCount);
        }
        let len = map.len();
        if len <= HEADER_BYTES {
            proof {
                reveal(region_bits);
            }
            return Err(LayerError::TooSmall);
        }
        let m = region_size(len, k_num);
        if m == 0 {
            return Err(LayerError::TooSmall);
        }
        let mut map = map;
        map.zero_from(HEADER_BYTES);
        let header = bloom_filter_header::new(MAGIC_HEADER, k_num, 0);
        let hb = header_bytes(header);
        map.write_bytes(0, &hb);
        let r = bloom_bloomfilter { header, map, offset: HEADER_BYTES as u64, bitmap_size: m };
        proof {
            let b = r.map.bytes();
            assert(b.subrange(0, 16) == hb@);
            assert(u32_le(b, 0) == u32_le(hb@, 0));
            assert(u32_le(b, 4) == u32_le(hb@, 4));
            assert(u64_le(b, 8) == u64_le(hb@, 8));
            assert forall|j: int| 0 <= j < m implies !#[trigger] bit_of(b, HEADER_BITS + j) by {
                lemma_region_within(len as nat, k_num as nat, j);
                lemma_zero_bits(b, HEADER_BITS + j);
            }
            assert(r.view().bits =~= Seq::new(m as nat, |j: int| false));
        }
        Ok(r)
    }

    /// Makes a layer over a bitmap that holds one, reading its header.
    pub fn load(map: bloom_bitmap) -> (r: Result<Self, LayerError>)
        requires
            map.wf(),
            map.bytes().len() <= MAX_LAYER_BYTES,
        ensures
            map.bytes().len() <= HEADER_BYTES ==> r == Err::<Self, LayerError>(
                LayerError::TooSmall,
            ),
            map.bytes().len() > HEADER_BYTES && u32_le(map.bytes(), 0) != MAGIC_HEADER ==> r
                == Err::<Self, LayerError>(LayerError::BadMagic),
            map.bytes().len() > HEADER_BYTES && u32_le(map.bytes(), 0) == MAGIC_HEADER && u32_le(
                map.bytes(),
                4,
            ) == 0 ==> r == Err::<Self, LayerError>(LayerError::BadProbeCount),
            map.bytes().len() > HEADER_BYTES && u32_le(map.bytes(), 0) == MAGIC_HEADER && u32_le(
                map.bytes(),
                4,
            ) > 0 && image_view(map.bytes()).m == 0 ==> r == Err::<Self, LayerError>(
                LayerError::TooSmall,
            ),
            map.bytes().len() > HEADER_BYTES && u32_le(map.bytes(), 0) == MAGIC_HEADER && u32_le(
                map.bytes(),
                4,
            ) > 0 && image_view(map.bytes()).m > 0 ==> (r matches Ok(l) && {
                &&& l.wf()
                &&& l.synced()
                &&& l.view() == image_view(map.bytes())
                &&& l.bytes() == map.bytes()
            }),
    {
        let len = map.len();
        if len <= HEADER_BYTES {
            return Err(LayerError::TooSmall);
        }
        let magic = read_u32_le(&map, 0);
        if magic != MAGIC_HEADER {
            return Err(LayerError::BadMagic);
        }
        let k_num = read_u32_le(&map, 4);
        if k_num == 0 {
            return Err(LayerError::BadProbeCount);
        }
        let count = read_u64_le(&map, 8);
        let m = region_size(len, k_num);
        if m == 0 {
            return Err(LayerError::TooSmall);
        }
        let header = bloom_filter_header::new(magic, k_num, count);
        Ok(bloom_bloomfilter { header, map, offset: HEADER_BYTES as u64, bitmap_size: m })
    }

    /// Whether every probe bit of `key` is set.
    #[verifier::loop_isolation(false)]
    pub fn contains(&self, key: &str) -> (r: bool)
        requires
            self.wf(),
        ensures
            r == lv_contains(self.view(), key.spec_bytes()),
    {
        let ghost kb = key.spec_bytes();
        let ghost v = self.view();
        let (h1, h2) = hash_pair(key.as_bytes());
        let k = self.header.k_num as u64;
        let m = self.bitmap_size;
        proof {
            self.lemma_wf();
        }
        let mut i: u64 = 0;
        while i < k
            invariant
                i <= k,
                forall|j: u64| j < i ==> v.bits[#[trigger] probe(kb, j, m) as int],
            decreases k - i,
        {
            let pos = probe_position(h1, h2, i, m);
            proof {
                self.lemma_region_fits(pos);
                crate::hash::lemma_probe(kb, h1, h2, i, m);
            }
            let b = self.map.read_bit(HEADER_BITS + pos);
            assert(b == v.bits[pos as int]);
            if !b {
                return false;
            }
            i += 1;
        }
        true
    }

    proof fn lemma_region_fits(&self, pos: u64)
        requires
            self.wf(),
            pos < self.bitmap_size,
        ensures
            HEADER_BITS + pos < self.map.num_bits(),
    {
        lemma_region_within(self.map.bytes().len(), self.header.k_num as nat, pos as int);
    }

    /// Adds `key`: when some probe bit is clear, sets them all, counts the
    /// insertion and answers `true`; else changes nothing and answers `false`.
    pub fn add(&mut self, key: &str) -> (r: bool)
        requires
            old(self).wf(),
        ensures
            final(self).wf(),
            r == !lv_contains(old(self).view(), key.spec_bytes()),
            final(self).view() == lv_add(old(self).view(), key.spec_bytes()),
            final(self).bytes().len() == old(self).bytes().len(),
            final(self).spec_map().spec_page_size() == old(self).spec_map().spec_page_size(),
            final(self).spec_map().spec_mode() == old(self).spec_map().spec_mode(),
            final(self).spec_map().dirty().len() == old(self).spec_map().dirty().len(),
    {
        if self.contains(key) {
            return false;
        }
        let (h1, h2) = hash_pair(key.as_bytes());
        let k = self.header.k_num as u64;
        let m = self.bitmap_size;
        proof {
            self.lemma_wf();
            lemma_region_within(self.map.bytes().len(), k as nat, m - 1);
        }
        set_probe_bits(&mut self.map, h1, h2, k, m, Ghost(key.spec_bytes()));
        if self.header.count < u64::MAX {
            self.header.count = self.header.count + 1;
        }
        true
    }

    /// The number of probes per key.
    pub fn view_k(&self) -> (r: u32)
        ensures
            r == self.view().k,
    {
        self.header.k_num
    }

    /// The number of insertions the header counts.
    pub fn size(&self) -> (r: u64)
        ensures
            r == self.view().count,
    {
        self.header.count
    }

    /// Writes the header into the bitmap, then hands back the pages written
    /// since the last flush and marks them clean.
    pub fn flush(&mut self) -> (r: Vec<usize>)
        requires
            old(self).wf(),
        ensures
            final(self).wf(),
            final(self).synced(),
            final(self).view() == old(self).view(),
            final(self).bytes().len() == old(self).bytes().len(),
            final(self).spec_map().dirty().len() == old(self).spec_map().dirty().len(),
            forall|k: int| 0 <= k < r@.len() ==> r@[k] < old(self).spec_map().dirty().len(),
            final(self).spec_map().spec_page_size() == old(self).spec_map().spec_page_size(),
            final(self).spec_map().spec_mode() == old(self).spec_map().spec_mode(),
            r@ == flushed_pages(*old(self)),
    {
        let hb = header_bytes(self.header);
        proof {
            lemma_region_within(self.map.bytes().len(), self.header.k_num as nat, 0);
        }
        let ghost v0 = self.view();
        let ghost b0 = self.map.bytes();
        self.map.write_bytes(0, &hb);
        proof {
            let b = self.map.bytes();
            assert(b.subrange(0, 16) == hb@);
            assert(u32_le(b, 0) == u32_le(hb@, 0));
            assert(u32_le(b, 4) == u32_le(hb@, 4));
            assert(u64_le(b, 8) == u64_le(hb@, 8));
            assert forall|j: int| 0 <= j < self.bitmap_size implies #[trigger] bit_of(b, HEADER_BITS + j)
                == bit_of(b0, HEADER_BITS + j) by {
                lemma_region_within(b0.len(), self.header.k_num as nat, j);
                assert(b[(HEADER_BITS + j) / 8] == b0[(HEADER_BITS + j) / 8]);
                reveal(bit_of);
            }
            assert(self.view().bits =~= v0.bits);
        }
        let ghost d = self.map.dirty();
        proof {
            let ps = self.map.spec_page_size();
            assert forall|p: int| 0 <= p < d.len() implies #[trigger] d[p] == header_dirty(
                old(self).spec_map().dirty(),
                ps,
            )[p] by {
                assert(0 < (p + 1) * ps) by (nonlinear_arith)
                    requires
                        p >= 0,
                        ps > 0,
                ;
            }
            assert(d =~= header_dirty(old(self).spec_map().dirty(), ps));
        }
        let r = self.map.flush();
        proof {
            crate::bitmap::lemma_set_positions_bound(d);
        }
        r
    }

    /// The bytes of page `p` of the layer's bitmap.
    pub fn page(&self, p: usize) -> (r: Vec<u8>)
        requires
            self.wf(),
            p < self.spec_map().dirty().len(),
        ensures
            r@ == self.bytes().subrange(
                p * self.spec_map().spec_page_size(),
                (p + 1) * self.spec_map().spec_page_size(),
            ),
    {
        self.map.page(p)
    }

    /// The page size of the layer's bitmap.
    pub fn page_size(&self) -> (r: usize)
        ensures
            r == self.spec_map().spec_page_size(),
    {
        self.map.page_size()
    }

    /// The length of the layer's bitmap in bytes.
    pub fn byte_len(&self) -> (r: usize)
        ensures
            r == self.bytes().len(),
    {
        self.map.len()
    }
}

/// The dirty flags after the header is written: page `p` is dirty when it was
/// or when it holds part of the sixteen header bytes.
pub open spec fn header_dirty(d: Seq<bool>, ps: nat) -> Seq<bool> {
    Seq::new(d.len(), |p: int| d[p] || p * ps < 16)
}

/// The pages a flush of layer `l` hands back: none for an anonymous bitmap,
/// else those dirty once the header is written, in order.
pub open spec fn flushed_pages(l: bloom_bloomfilter) -> Seq<usize> {
    if has_mode(l.spec_map().spec_mode(), bitmap_mode::ANONYMOUS) {
        Seq::empty()
    } else {
        set_positions(header_dirty(l.spec_map().dirty(), l.spec_map().spec_page_size()))
    }
}

/// Reading a layer back from the bytes of a flushed layer succeeds and gives
/// the same layer: the bytes pass every check `load` makes, and the layer
/// they describe is the one that was flushed.
pub proof fn lemma_reload_same(l: &bloom_bloomfilter)
    requires
        l.wf(),
        l.synced(),
    ensures
        l.bytes().len() > HEADER_BYTES,
        l.bytes().len() <= MAX_LAYER_BYTES,
        u32_le(l.bytes(), 0) == MAGIC_HEADER,
        u32_le(l.bytes(), 4) > 0,
        image_view(l.bytes()).m > 0,
        image_view(l.bytes()) == l.view(),
{
    l.lemma_wf();
    lemma_region_within(l.bytes().len(), l.view().k as nat, 0);
}

/// The parameters a filter's layers are made with.
#[allow(non_camel_case_types)]
#[derive(Clone, Copy, Debug, PartialEq, Eq, Structural)]
pub struct bloom_filter_params {
    pub bytes: u64,
    pub k_num: u32,
    pub capacity: u64,
    pub fp_probability: Decimal,
}

impl bloom_filter_params {
    /// All parameters zero.
    pub fn empty() -> (r: Self)
        ensures
            r.bytes == 0 && r.k_num == 0 && r.capacity == 0,
            r.fp_probability == (Decimal { digits: 0, scale: 0 }),
    {
        bloom_filter_params::new(0, 0, 0, Decimal { digits: 0, scale: 0 })
    }

    /// The given parameters.
    pub fn new(bytes: u64, k_num: u32, capacity: u64, fp_probability: Decimal) -> (r: Self)
        ensures
            r.bytes == bytes && r.k_num == k_num && r.capacity == capacity,
            r.fp_probability == fp_probability,
    {
        bloom_filter_params { bytes, k_num, capacity, fp_probability }
    }
}

} // verus!
