//! Exact decimal fractions, such as a false-positive probability of `0.0001`,
//! read from and written as text.
use vstd::prelude::*;
use crate::text::{
    chars_of, dec, find_char, find_from, is_numeral, numeral_value, parse_u64, parsed_u64, push_char,
    string_of, sub_string, u64_to_string,
};

verus! {

/// The value `digits / 10^scale`, kept without trailing fractional zeros.
#[derive(Clone, Copy, Debug, PartialEq, Eq, Structural)]
pub struct Decimal {
    pub digits: u64,
    pub scale: u32,
}

/// The most fractional digits a decimal keeps.
pub const MAX_SCALE: u32 = 19;

/// `v / 10^sc` with trailing fractional zeros dropped.
pub open spec fn normalized(v: u64, sc: u32) -> Decimal
    decreases sc,
{
    if sc > 0 && v % 10 == 0 {
        normalized(v / 10, (sc - 1) as u32)
    } else {
        Decimal { digits: v, scale: sc }
    }
}

/// What reading `s` as a decimal gives: digits, optionally a point and more
/// digits, with no more than `MAX_SCALE` after the point and a value that
/// fits 64 bits once the point is dropped.
pub open spec fn parsed_decimal(s: Seq<char>) -> Option<Decimal> {
    let p = find_from(s, '.', 0);
    if p == s.len() {
        match parsed_u64(s) {
            Some(v) => Some(Decimal { digits: v, scale: 0 }),
            None => None,
        }
    } else {
        let a = s.take(p as int);
        let b = s.skip(p + 1 as int);
        if is_numeral(a) && is_numeral(b) && b.len() <= MAX_SCALE && numeral_value(a + b)
            <= u64::MAX {
            Some(normalized(numeral_value(a + b) as u64, b.len() as u32))
        } else {
            None
        }
    }
}

/// `d` preceded by zeros up to length `n`.
pub open spec fn zero_pad(d: Seq<char>, n: nat) -> Seq<char> {
    if d.len() < n {
        Seq::new((n - d.len()) as nat, |i: int| '0') + d
    } else {
        d
    }
}

/// The text of a decimal: its digits, with a point before the last `scale` of
/// them and a zero before the point when nothing else stands there.
pub open spec fn decimal_text(x: Decimal) -> Seq<char> {
    if x.scale == 0 {
        dec(x.digits as nat)
    } else {
        let p = zero_pad(dec(x.digits as nat), (x.scale + 1) as nat);
        p.take(p.len() - x.scale) + seq!['.'] + p.skip(p.len() - x.scale)
    }
}

fn normalize(v: u64, sc: u32) -> (r: Decimal)
    ensures
        r == normalized(v, sc),
    decreases sc,
{
    if sc > 0 && v % 10 == 0 {
        normalize(v / 10, sc - 1)
    } else {
        Decimal { digits: v, scale: sc }
    }
}

impl Decimal {
    /// Reads a decimal such as `0.0001` or `3`.
    pub fn parse(s: &str) -> (r: Option<Decimal>)
        ensures
            r == parsed_decimal(s@),
    {
        let cs = chars_of(s);
        let p = find_char(&cs, '.');
        if p == cs.len() {
            return match parse_u64(s) {
                Some(v) => Some(Decimal { digits: v, scale: 0 }),
                None => None,
            };
        }
        let a = sub_string(&cs, 0, p);
        let b = sub_string(&cs, p + 1, cs.len());
        assert(a@ == s@.take(p as int));
        assert(b@ == s@.skip(p + 1));
        let blen = cs.len() - p - 1;
        let va = parse_u64(a.as_str());
        let vb = parse_u64(b.as_str());
        if va.is_none() || vb.is_none() || blen > MAX_SCALE as usize {
            proof {
                if is_numeral(a@) && is_numeral(b@) && numeral_value(a@ + b@) <= u64::MAX {
                    crate::text::lemma_numeral_prefix(a@ + b@, a@.len() as int);
                    assert((a@ + b@).take(a@.len() as int) =~= a@);
                    lemma_numeral_suffix(a@, b@);
                }
            }
            return None;
        }
        let mut ab = cs.clone();
        ab.remove(p);
        assert(ab@ =~= a@ + b@);
        let both = string_of(&ab);
        match parse_u64(both.as_str()) {
            Some(v) => Some(normalize(v, blen as u32)),
            None => None,
        }
    }

    /// The text of the decimal, such as `0.0001`.
    pub fn to_text(&self) -> (r: String)
        requires
            self.scale <= MAX_SCALE,
        ensures
            r@ == decimal_text(*self),
    {
        let d = u64_to_string(self.digits);
        if self.scale == 0 {
            return d;
        }
        let dcs = chars_of(d.as_str());
        let want: usize = self.scale as usize + 1;
        let mut p: Vec<char> = Vec::new();
        if dcs.len() < want {
            let mut z: usize = 0;
            while z < want - dcs.len()
                invariant
                    dcs.len() < want,
                    z <= want - dcs.len(),
                    p@ == Seq::new(z as nat, |i: int| '0'),
                decreases want - dcs.len() - z,
            {
                p.push('0');
                z += 1;
                assert(p@ =~= Seq::new(z as nat, |i: int| '0'));
            }
        }
        let mut i: usize = 0;
        let ghost pre = p@;
        while i < dcs.len()
            invariant
                i <= dcs@.len(),
                p@ == pre + dcs@.take(i as int),
            decreases dcs@.len() - i,
        {
            p.push(dcs[i]);
            i += 1;
            assert(p@ =~= pre + dcs@.take(i as int));
        }
        assert(dcs@.take(i as int) =~= dcs@);
        assert(p@ =~= zero_pad(dec(self.digits as nat), (self.scale + 1) as nat));
        let cut = p.len() - self.scale as usize;
        let mut r = sub_string(&p, 0, cut);
        push_char(&mut r, '.');
        let tail = sub_string(&p, cut, p.len());
        let ghost r0 = r@;
        crate::text::push_all(&mut r, tail.as_str());
        assert(p@.skip(cut as int) =~= p@.subrange(cut as int, p@.len() as int));
        r
    }
}

/// The value of digits `a` then `b` is at least the value of `b`.
proof fn lemma_numeral_suffix(a: Seq<char>, b: Seq<char>)
    requires
        is_numeral(b),
    ensures
        numeral_value(a + b) >= numeral_value(b),
    decreases b.len(),
{
    assert((a + b).last() == b.last());
    if b.len() > 1 {
        assert((a + b).drop_last() =~= a + b.drop_last());
        assert forall|i: int| 0 <= i < b.drop_last().len() implies crate::text::is_digit(
            #[trigger] b.drop_last()[i],
        ) by {
            assert(b.drop_last()[i] == b[i]);
        }
        lemma_numeral_suffix(a, b.drop_last());
        assert(numeral_value(a + b) == numeral_value(a + b.drop_last()) * 10 + ((b.last() as u32)
            - 48) as nat);
        assert(numeral_value(b) == numeral_value(b.drop_last()) * 10 + ((b.last() as u32) - 48) as nat);
    } else {
        assert((a + b).drop_last() =~= a);
        assert(numeral_value(a + b) == numeral_value(a) * 10 + ((b.last() as u32) - 48) as nat);
        assert(numeral_value(b) == numeral_value(b.drop_last()) * 10 + ((b.last() as u32) - 48) as nat);
        assert((a + b).last() == b.last());
        assert(b.drop_last() =~= Seq::<char>::empty());
    }
}

/// Whether a decimal is in the form reading produces: few enough
/// fractional digits, and no trailing fractional zero.
pub open spec fn is_normal(d: Decimal) -> bool {
    d.scale <= MAX_SCALE && (d.scale > 0 ==> d.digits % 10 != 0)
}

proof fn lemma_zeros_value(k: nat)
    ensures
        numeral_value(Seq::new(k, |i: int| '0')) == 0,
    decreases k,
{
    if k > 0 {
        assert(Seq::new(k, |i: int| '0').drop_last() =~= Seq::new((k - 1) as nat, |i: int| '0'));
        lemma_zeros_value((k - 1) as nat);
    }
}

proof fn lemma_padded_value(k: nat, t: Seq<char>)
    ensures
        numeral_value(Seq::new(k, |i: int| '0') + t) == numeral_value(t),
    decreases t.len(),
{
    let z = Seq::new(k, |i: int| '0');
    if t.len() == 0 {
        assert(z + t =~= z);
        lemma_zeros_value(k);
    } else {
        assert((z + t).drop_last() =~= z + t.drop_last());
        assert((z + t).last() == t.last());
        lemma_padded_value(k, t.drop_last());
    }
}

/// Reading back the text of a decimal in normal form gives the decimal.
pub proof fn lemma_decimal_round_trip(d: Decimal)
    requires
        is_normal(d),
    ensures
        parsed_decimal(decimal_text(d)) == Some(d),
{
    let t = decimal_text(d);
    let ds = dec(d.digits as nat);
    crate::text::lemma_dec_parses(d.digits as nat);
    if d.scale == 0 {
        assert forall|j: int| 0 <= j < t.len() implies t[j] != '.' by {
            assert(crate::text::is_digit(ds[j]));
        }
        crate::text::lemma_find_up_pub(t, '.', t.len(), 0);
    } else {
        let n = (d.scale + 1) as nat;
        let p = zero_pad(ds, n);
        let k = if ds.len() < n { (n - ds.len()) as nat } else { 0 };
        let z = Seq::new(k, |i: int| '0');
        assert(p =~= z + ds);
        assert forall|j: int| 0 <= j < p.len() implies crate::text::is_digit(#[trigger] p[j]) by {
            if j >= k {
                assert(p[j] == ds[j - k]);
            }
        }
        let cut = p.len() - d.scale;
        let a = p.take(cut);
        let b = p.skip(cut);
        assert(t =~= a + seq!['.'] + b);
        assert forall|j: int| 0 <= j < a.len() implies t[j] != '.' by {
            assert(t[j] == p[j]);
        }
        assert(t[a.len() as int] == '.');
        crate::text::lemma_find_up_pub(t, '.', a.len(), 0);
        assert(t.take(a.len() as int) =~= a);
        assert(t.skip(a.len() + 1 as int) =~= b);
        assert forall|j: int| 0 <= j < a.len() implies crate::text::is_digit(#[trigger] a[j]) by {
            assert(a[j] == p[j]);
        }
        assert forall|j: int| 0 <= j < b.len() implies crate::text::is_digit(#[trigger] b[j]) by {
            assert(b[j] == p[cut + j]);
        }
        assert(a + b =~= p);
        lemma_padded_value(k, ds);
        assert(normalized(d.digits, d.scale) == d);
    }
}

/// The text of a decimal holds no line break.
pub proof fn lemma_decimal_plain(d: Decimal)
    ensures
        crate::text::plain_chars(decimal_text(d)),
{
    let ds = dec(d.digits as nat);
    crate::text::lemma_dec_plain(d.digits as nat);
    if d.scale > 0 {
        let n = (d.scale + 1) as nat;
        let p = zero_pad(ds, n);
        let k = if ds.len() < n { (n - ds.len()) as nat } else { 0 };
        assert(p =~= Seq::new(k, |i: int| '0') + ds);
        assert forall|j: int| 0 <= j < p.len() implies (#[trigger] p[j]) != '\n' && p[j] != '\r' by {
            if j >= k {
                assert(p[j] == ds[j - k]);
            }
        }
        let t = decimal_text(d);
        let cut = p.len() - d.scale;
        assert forall|j: int| 0 <= j < t.len() implies (#[trigger] t[j]) != '\n' && t[j] != '\r' by {
            if j < cut {
                assert(t[j] == p[j]);
            } else if j > cut {
                assert(t[j] == p[j - 1]);
            }
        }
    }
}

} // verus!
