//! A fixed-length bit array held in memory, with one dirty flag per page.
//!
//! The bytes stand for a file of the same length (or for anonymous memory);
//! writing the dirty pages back to that file is left to the caller, which
//! learns them from `flush`.
use vstd::prelude::*;

verus! {

/// How a bitmap is backed.
#[derive(Clone, Copy, Debug, PartialEq, Eq, Structural)]
#[allow(non_camel_case_types)]
pub enum bitmap_mode {
    SHARED,
    PERSISTENT,
    ANONYMOUS,
    NEW_BITMAP,
}

impl bitmap_mode {
    /// The flag value of the mode, to be combined with `|`.
    pub open spec fn spec_flag(self) -> u32 {
        match self {
            bitmap_mode::SHARED => 1,
            bitmap_mode::PERSISTENT => 2,
            bitmap_mode::ANONYMOUS => 4,
            bitmap_mode::NEW_BITMAP => 8,
        }
    }

    /// The flag value of the mode.
    pub fn flag(self) -> (r: u32)
        ensures
            r == self.spec_flag(),
    {
        match self {
            bitmap_mode::SHARED => 1,
            bitmap_mode::PERSISTENT => 2,
            bitmap_mode::ANONYMOUS => 4,
            bitmap_mode::NEW_BITMAP => 8,
        }
    }
}

/// Whether the flag set `mode` holds the flag of `m`.
pub open spec fn has_mode(mode: u32, m: bitmap_mode) -> bool {
    mode & m.spec_flag() != 0
}

/// Whether the flag set `mode` holds the flag of `m`.
pub fn mode_has(mode: u32, m: bitmap_mode) -> (r: bool)
    ensures
        r == has_mode(mode, m),
{
    mode & m.flag() != 0
}

/// Bit `i` of a byte string: bit `i % 8`, counted from the least significant,
/// of byte `i / 8`.
#[verifier::opaque]
pub open spec fn bit_of(bytes: Seq<u8>, i: int) -> bool {
    (bytes[i / 8] >> ((i % 8) as u8)) & 1u8 == 1u8
}

/// The positions of the set flags of `d`, in ascending order.
pub open spec fn set_positions(d: Seq<bool>) -> Seq<usize>
    decreases d.len(),
{
    if d.len() == 0 {
        Seq::empty()
    } else if d.last() {
        set_positions(d.drop_last()).push((d.len() - 1) as usize)
    } else {
        set_positions(d.drop_last())
    }
}

/// A bit array over a byte region whose length is a whole number of pages.
#[allow(non_camel_case_types)]
pub struct bloom_bitmap {
    mode: u32,
    page_size: usize,
    mmap: Vec<u8>,
    dirty_pages: Vec<bool>,
}

/// Why a bitmap could not be opened.
#[derive(Clone, Copy, Debug, PartialEq, Eq, Structural)]
pub enum BitmapError {
    /// The length is zero or not a whole number of pages.
    BadLength,
    /// The bytes handed over are not of the length asked for.
    SizeMismatch,
}

proof fn lemma_set_bit_u8(b: u8, s: u8, t: u8)
    requires
        s < 8,
        t < 8,
    ensures
        ((b | (1u8 << s)) >> t) & 1u8 == 1u8 <==> (t == s || (b >> t) & 1u8 == 1u8),
{
    assert(((b | (1u8 << s)) >> t) & 1u8 == 1u8 <==> (t == s || (b >> t) & 1u8 == 1u8))
        by (bit_vector)
        requires
            s < 8,
            t < 8,
    ;
}

proof fn lemma_zero_byte_bits(t: u8)
    requires
        t < 8,
    ensures
        (0u8 >> t) & 1u8 != 1u8,
{
    assert((0u8 >> t) & 1u8 != 1u8) by (bit_vector);
}

impl bloom_bitmap {
    /// The byte region.
    pub closed spec fn bytes(&self) -> Seq<u8> {
        self.mmap@
    }

    /// The dirty flag of each page.
    pub closed spec fn dirty(&self) -> Seq<bool> {
        self.dirty_pages@
    }

    /// The page size the dirty flags are kept in.
    pub closed spec fn spec_page_size(&self) -> nat {
        self.page_size as nat
    }

    /// The mode flags the bitmap was opened with.
    pub closed spec fn spec_mode(&self) -> u32 {
        self.mode
    }

    /// The number of bits.
    pub open spec fn num_bits(&self) -> nat {
        self.bytes().len() * 8
    }

    /// Bit `i`.
    pub open spec fn bit(&self, i: int) -> bool {
        bit_of(self.bytes(), i)
    }

    /// The region is a whole, non-zero number of pages, one dirty flag each.
    pub open spec fn wf(&self) -> bool {
        &&& self.spec_page_size() > 0
        &&& self.bytes().len() > 0
        &&& self.bytes().len() == self.dirty().len() * self.spec_page_size()
    }

    /// A zero-filled bitmap of `len` bytes in the given mode, with no page dirty.
    pub fn new(mode: u32, page_size: usize, len: usize) -> (r: Result<Self, BitmapError>)
        ensures
            page_size == 0 || len == 0 || len % page_size != 0 <==> r is Err,
            r is Err ==> r == Err::<Self, BitmapError>(BitmapError::BadLength),
            r matches Ok(m) ==> {
                &&& m.wf()
                &&& m.bytes() == Seq::new(len as nat, |i: int| 0u8)
                &&& m.dirty() == Seq::new((len / page_size) as nat, |i: int| false)
                &&& m.spec_page_size() == page_size
                &&& m.spec_mode() == mode
            },
    {
        if page_size == 0 || len == 0 || len % page_size != 0 {
            return Err(BitmapError::BadLength);
        }
        let mmap: Vec<u8> = vec![0u8; len];
        let dirty_pages: Vec<bool> = vec![false; len / page_size];
        let r = bloom_bitmap { mode, page_size, mmap, dirty_pages };
        assert(r.bytes() =~= Seq::new(len as nat, |i: int| 0u8));
        assert(r.dirty() =~= Seq::new((len / page_size) as nat, |i: int| false));
        assert(len == (len / page_size) * page_size) by (nonlinear_arith)
            requires
                page_size > 0,
                len % page_size == 0,
        ;
        Ok(r)
    }

    /// A bitmap over bytes read back from its file, which must be `len` bytes long.
    pub fn from_bytes(mode: u32, page_size: usize, len: usize, bytes: Vec<u8>) -> (r: Result<
        Self,
        BitmapError,
    >)
        ensures
            page_size == 0 || len == 0 || len % page_size != 0 ==> r == Err::<Self, BitmapError>(
                BitmapError::BadLength,
            ),
            !(page_size == 0 || len == 0 || len % page_size != 0) && bytes@.len() != len ==> r
                == Err::<Self, BitmapError>(BitmapError::SizeMismatch),
            !(page_size == 0 || len == 0 || len % page_size != 0) && bytes@.len() == len ==> (r
                matches Ok(m) && {
                &&& m.wf()
                &&& m.bytes() == bytes@
                &&& m.dirty() == Seq::new((len / page_size) as nat, |i: int| false)
                &&& m.spec_page_size() == page_size
                &&& m.spec_mode() == mode
            }),
    {
        if page_size == 0 || len == 0 || len % page_size != 0 {
            return Err(BitmapError::BadLength);
        }
        if bytes.len() != len {
            return Err(BitmapError::SizeMismatch);
        }
        let dirty_pages: Vec<bool> = vec![false; len / page_size];
        let r = bloom_bitmap { mode, page_size, mmap: bytes, dirty_pages };
        assert(r.dirty() =~= Seq::new((len / page_size) as nat, |i: int| false));
        assert(len == (len / page_size) * page_size) by (nonlinear_arith)
            requires
                page_size > 0,
                len % page_size == 0,
        ;
        Ok(r)
    }

    /// The length in bytes.
    pub fn len(&self) -> (r: usize)
        ensures
            r == self.bytes().len(),
    {
        self.mmap.len()
    }

    /// The page size.
    pub fn page_size(&self) -> (r: usize)
        ensures
            r == self.spec_page_size(),
    {
        self.page_size
    }

    /// The mode flags.
    pub fn mode(&self) -> (r: u32)
        ensures
            r == self.spec_mode(),
    {
        self.mode
    }

    /// Byte `i`.
    pub fn byte(&self, i: usize) -> (r: u8)
        requires
            i < self.bytes().len(),
        ensures
            r == self.bytes()[i as int],
    {
        self.mmap[i]
    }

    /// Reads bit `i`.
    pub fn read_bit(&self, i: u64) -> (r: bool)
        requires
            i < self.num_bits(),
        ensures
            r == self.bit(i as int),
    {
        reveal(bit_of);
        let n = self.mmap.len();
        assert(i / 8 < n);
        let byte = self.mmap[(i / 8) as usize];
        let s: u8 = (i % 8) as u8;
        assert(s == ((i as int) % 8) as u8);
        (byte >> s) & 1u8 == 1u8
    }

    /// Sets bit `i` and marks its page dirty.
    pub fn set_bit(&mut self, i: u64)
        requires
            old(self).wf(),
            i < old(self).num_bits(),
        ensures
            final(self).wf(),
            final(self).bytes().len() == old(self).bytes().len(),
            forall|j: int| 0 <= j < final(self).num_bits() ==> #[trigger] final(self).bit(j) == (j == i || old(self).bit(j)),
            forall|b: int| 0 <= b < old(self).bytes().len() && b != i / 8 ==> final(self).bytes()[b] == old(self).bytes()[b],
            final(self).dirty() == old(self).dirty().update((i / 8) as int / old(self).spec_page_size() as int, true),
            final(self).dirty().len() == old(self).dirty().len(),
            final(self).spec_page_size() == old(self).spec_page_size(),
            final(self).spec_mode() == old(self).spec_mode(),
    {
        let n = self.mmap.len();
        assert(i / 8 < n);
        let idx: usize = (i / 8) as usize;
        let s: u8 = (i % 8) as u8;
        let old_byte = self.mmap[idx];
        let new_byte = old_byte | (1u8 << s);
        self.mmap.set(idx, new_byte);
        proof {
            assert(idx < self.dirty_pages@.len() * self.page_size);
            assert(idx / self.page_size < self.dirty_pages@.len()) by (nonlinear_arith)
                requires
                    idx < self.dirty_pages@.len() * self.page_size,
                    self.page_size > 0,
            ;
        }
        self.dirty_pages.set(idx / self.page_size, true);
        proof {
            reveal(bit_of);
            assert forall|j: int| 0 <= j < self.num_bits() implies #[trigger] self.bit(j) == (j == i
                || old(self).bit(j)) by {
                let t = (j % 8) as u8;
                if j / 8 == idx {
                    lemma_set_bit_u8(old_byte, s, t);
                    assert(s as int == i as int % 8);
                    assert(j == 8 * (j / 8) + j % 8);
                    assert(i == 8 * (i / 8) + i % 8);
                    assert(j == i <==> t == s);
                }
            }
        }
    }

    /// Overwrites the bytes from `offset` with `data`, marking their pages dirty.
    pub fn write_bytes(&mut self, offset: usize, data: &Vec<u8>)
        requires
            old(self).wf(),
            offset + data@.len() <= old(self).bytes().len(),
        ensures
            final(self).wf(),
            final(self).bytes() == old(self).bytes().subrange(0, offset as int) + data@
                + old(self).bytes().subrange(offset + data@.len(), old(self).bytes().len() as int),
            forall|p: int| 0 <= p < final(self).dirty().len() ==> #[trigger] final(self).dirty()[p]
                == (old(self).dirty()[p] || (data@.len() > 0 && offset < (p + 1) * old(self).spec_page_size() && p * old(self).spec_page_size() < offset + data@.len())),
            final(self).dirty().len() == old(self).dirty().len(),
            final(self).spec_page_size() == old(self).spec_page_size(),
            final(self).spec_mode() == old(self).spec_mode(),
    {
        let n = self.mmap.len();
        let mut k: usize = 0;
        while k < data.len()
            invariant
                n == old(self).bytes().len(),
                self.wf(),
                self.spec_page_size() == old(self).spec_page_size(),
                self.spec_mode() == old(self).spec_mode(),
                self.dirty().len() == old(self).dirty().len(),
                offset + data@.len() <= old(self).bytes().len(),
                k <= data@.len(),
                self.bytes() == old(self).bytes().subrange(0, offset as int) + data@.take(k as int)
                    + old(self).bytes().subrange(offset + k, old(self).bytes().len() as int),
                forall|p: int| 0 <= p < self.dirty().len() ==> #[trigger] self.dirty()[p] == (old(self).dirty()[p] || (k > 0 && offset < (p + 1) * self.spec_page_size() && p
                    * self.spec_page_size() < offset + k)),
                self.mmap@.len() == old(self).bytes().len(),
            decreases data@.len() - k,
        {
            let idx = offset + k;
            let ghost prev = self.dirty();
            self.mmap.set(idx, data[k]);
            let ps = self.page_size;
            proof {
                assert(idx / ps < self.dirty_pages@.len()) by (nonlinear_arith)
                    requires
                        idx < self.dirty_pages@.len() * ps,
                        ps > 0,
                ;
            }
            let pg = idx / ps;
            self.dirty_pages.set(pg, true);
            k += 1;
            proof {
                assert(self.bytes() =~= old(self).bytes().subrange(0, offset as int) + data@.take(
                    k as int,
                ) + old(self).bytes().subrange(offset + k, old(self).bytes().len() as int));
                assert forall|p: int| 0 <= p < self.dirty().len() implies #[trigger] self.dirty()[p]
                    == (old(self).dirty()[p] || (k > 0 && offset < (p + 1) * ps && p * ps < offset
                    + k)) by {
                    assert(prev[p] == (old(self).dirty()[p] || (k - 1 > 0 && offset < (p + 1) * ps
                        && p * ps < offset + k - 1)));
                    assert(pg * ps <= idx < (pg + 1) * ps) by (nonlinear_arith)
                        requires
                            pg == idx / ps,
                            ps > 0,
                    ;
                    if p < pg {
                        assert((p + 1) * ps <= pg * ps) by (nonlinear_arith)
                            requires
                                p < pg,
                                ps > 0,
                        ;
                        assert(p * ps + ps == (p + 1) * ps) by (nonlinear_arith);
                        assert(self.dirty()[p] == prev[p]);
                    } else if p > pg {
                        assert(p * ps >= (pg + 1) * ps) by (nonlinear_arith)
                            requires
                                p > pg,
                                ps > 0,
                        ;
                        assert(self.dirty()[p] == prev[p]);
                    }
                }
            }
        }
        assert(data@.take(k as int) =~= data@);
    }

    /// Clears every byte from `offset` on, marking dirty the pages it changed.
    pub fn zero_from(&mut self, offset: usize)
        requires
            old(self).wf(),
            offset <= old(self).bytes().len(),
        ensures
            final(self).wf(),
            final(self).bytes() == old(self).bytes().take(offset as int) + Seq::new(
                (old(self).bytes().len() - offset) as nat,
                |i: int| 0u8,
            ),
            final(self).dirty().len() == old(self).dirty().len(),
            forall|p: int| 0 <= p < old(self).dirty().len() && #[trigger] old(self).dirty()[p] ==> final(self).dirty()[p],
            final(self).spec_page_size() == old(self).spec_page_size(),
            final(self).spec_mode() == old(self).spec_mode(),
    {
        let n = self.mmap.len();
        let mut b: usize = offset;
        while b < n
            invariant
                n == old(self).bytes().len(),
                offset <= b <= n,
                self.wf(),
                self.mmap@.len() == n,
                self.dirty().len() == old(self).dirty().len(),
                self.spec_page_size() == old(self).spec_page_size(),
                self.spec_mode() == old(self).spec_mode(),
                forall|p: int| 0 <= p < old(self).dirty().len() && #[trigger] old(self).dirty()[p] ==> self.dirty()[p],
                self.bytes() == old(self).bytes().take(offset as int) + Seq::new(
                    (b - offset) as nat,
                    |i: int| 0u8,
                ) + old(self).bytes().skip(b as int),
            decreases n - b,
        {
            if self.mmap[b] != 0 {
                self.mmap.set(b, 0u8);
                let ps = self.page_size;
                proof {
                    assert(b / ps < self.dirty_pages@.len()) by (nonlinear_arith)
                        requires
                            b < self.dirty_pages@.len() * ps,
                            ps > 0,
                    ;
                }
                self.dirty_pages.set(b / ps, true);
            }
            b += 1;
            assert(self.bytes() =~= old(self).bytes().take(offset as int) + Seq::new(
                (b - offset) as nat,
                |i: int| 0u8,
            ) + old(self).bytes().skip(b as int));
        }
        assert(self.bytes() =~= old(self).bytes().take(offset as int) + Seq::new(
            (n - offset) as nat,
            |i: int| 0u8,
        ));
    }

    /// The bytes of page `p`.
    pub fn page(&self, p: usize) -> (r: Vec<u8>)
        requires
            self.wf(),
            p < self.dirty().len(),
        ensures
            r@ == self.bytes().subrange(p * self.spec_page_size(), (p + 1) * self.spec_page_size()),
    {
        let ps = self.page_size;
        let n = self.mmap.len();
        proof {
            assert((p + 1) * ps <= self.dirty().len() * ps) by (nonlinear_arith)
                requires
                    p < self.dirty().len(),
            ;
            assert(self.mmap@.len() == self.dirty().len() * ps);
            assert(p * ps <= (p + 1) * ps) by (nonlinear_arith);
            assert((p + 1) * ps == p * ps + ps) by (nonlinear_arith);
        }
        let start = p * ps;
        let mut r: Vec<u8> = Vec::new();
        let mut k: usize = 0;
        while k < ps
            invariant
                self.wf(),
                ps == self.spec_page_size(),
                start == p * ps,
                n == self.bytes().len(),
                start + ps <= self.bytes().len(),
                k <= ps,
                r@ == self.bytes().subrange(start as int, start + k),
            decreases ps - k,
        {
            r.push(self.mmap[start + k]);
            k += 1;
            assert(r@ =~= self.bytes().subrange(start as int, start + k));
        }
        assert((p + 1) * ps == p * ps + ps) by (nonlinear_arith);
        r
    }

    /// Hands back the pages written since the last flush, in ascending order,
    /// and marks every page clean. The bytes stay as they are. An anonymous
    /// bitmap has no file to write to: its flush hands back nothing and
    /// changes nothing.
    pub fn flush(&mut self) -> (r: Vec<usize>)
        requires
            old(self).wf(),
        ensures
            final(self).wf(),
            final(self).bytes() == old(self).bytes(),
            final(self).spec_page_size() == old(self).spec_page_size(),
            final(self).spec_mode() == old(self).spec_mode(),
            final(self).dirty().len() == old(self).dirty().len(),
            has_mode(old(self).spec_mode(), bitmap_mode::ANONYMOUS) ==> r@.len() == 0
                && final(self).dirty() == old(self).dirty(),
            !has_mode(old(self).spec_mode(), bitmap_mode::ANONYMOUS) ==> r@ == set_positions(
                old(self).dirty(),
            ) && final(self).dirty() == Seq::new(old(self).dirty().len(), |i: int| false),
    {
        if mode_has(self.mode, bitmap_mode::ANONYMOUS) {
            return Vec::new();
        }
        let mut r: Vec<usize> = Vec::new();
        let n = self.dirty_pages.len();
        let mut i: usize = 0;
        while i < n
            invariant
                n == old(self).dirty().len(),
                i <= n,
                self.mmap@ == old(self).bytes(),
                self.page_size == old(self).spec_page_size(),
                self.mode == old(self).spec_mode(),
                self.dirty().len() == n,
                forall|j: int| 0 <= j < i ==> !#[trigger] self.dirty()[j],
                forall|j: int| i <= j < n ==> #[trigger] self.dirty()[j] == old(self).dirty()[j],
                r@ == set_positions(old(self).dirty().take(i as int)),
            decreases n - i,
        {
            let d = self.dirty_pages[i];
            assert(old(self).dirty().take(i + 1).drop_last() =~= old(self).dirty().take(i as int));
            if d {
                r.push(i);
                self.dirty_pages.set(i, false);
            }
            i += 1;
        }
        assert(old(self).dirty().take(n as int) =~= old(self).dirty());
        assert(self.dirty() =~= Seq::new(old(self).dirty().len(), |i: int| false));
        r
    }
}

/// Each position that `set_positions` lists is below the length.
pub proof fn lemma_set_positions_bound(d: Seq<bool>)
    ensures
        forall|k: int| 0 <= k < set_positions(d).len() ==> (#[trigger] set_positions(d)[k]) < d.len(),
    decreases d.len(),
{
    if d.len() > 0 {
        lemma_set_positions_bound(d.drop_last());
        let p = set_positions(d.drop_last());
        if d.last() {
            assert forall|k: int| 0 <= k < set_positions(d).len() implies (#[trigger] set_positions(
                d,
            )[k]) < d.len() by {
                if k < p.len() {
                    assert(set_positions(d)[k] == p[k]);
                }
            }
        }
    }
}

/// Every bit of a zero-filled region is clear.
pub proof fn lemma_zero_bits(bytes: Seq<u8>, i: int)
    requires
        0 <= i < bytes.len() * 8,
        bytes[i / 8] == 0,
    ensures
        !bit_of(bytes, i),
{
    reveal(bit_of);
    lemma_zero_byte_bits((i % 8) as u8);
}

} // verus!
