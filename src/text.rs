//! Character-level helpers shared by the INI reader and the line protocol.
use vstd::prelude::*;
use vstd::std_specs::iter::IteratorSpec;

verus! {

broadcast use vstd::string::group_string_axioms;

/// Relies on `String::push`: appends one character.
#[verifier::external_body]
pub(crate) fn push_char(s: &mut String, c: char)
    ensures
        final(s)@ == old(s)@.push(c),
{
    s.push(c)
}

/// The characters of `s`, in order.
pub fn chars_of(s: &str) -> (r: Vec<char>)
    ensures
        r@ == s@,
{
    let mut r: Vec<char> = Vec::new();
    for c in it: s.chars()
        invariant
            it.seq() == s@,
            r@ == it.seq().take(it.index() as int),
    {
        r.push(c);
        assert(r@ =~= it.seq().take(it.index() + 1));
    }
    assert(r@ =~= s@);
    r
}

/// The string whose characters are `v`.
pub fn string_of(v: &Vec<char>) -> (r: String)
    ensures
        r@ == v@,
{
    let mut r = String::new();
    let mut i: usize = 0;
    while i < v.len()
        invariant
            i <= v.len(),
            r@ == v@.take(i as int),
        decreases v.len() - i,
    {
        push_char(&mut r, v[i]);
        i += 1;
        assert(r@ =~= v@.take(i as int));
    }
    assert(r@ =~= v@);
    r
}

/// Appends the characters of `t` to `r`.
pub fn push_all(r: &mut String, t: &str)
    ensures
        final(r)@ == old(r)@ + t@,
{
    let cs = chars_of(t);
    let mut i: usize = 0;
    while i < cs.len()
        invariant
            i <= cs.len(),
            cs@ == t@,
            r@ == old(r)@ + t@.take(i as int),
        decreases cs.len() - i,
    {
        push_char(r, cs[i]);
        i += 1;
        assert(r@ =~= old(r)@ + t@.take(i as int));
    }
    assert(t@.take(i as int) =~= t@);
}

/// The decimal digit character for `d < 10`.
pub open spec fn digit_char(d: nat) -> char {
    ((d + 48) as u8) as char
}

/// The decimal numeral of `n`, most significant digit first, without leading zeros.
pub open spec fn dec(n: nat) -> Seq<char>
    decreases n,
{
    if n < 10 {
        seq![digit_char(n)]
    } else {
        dec(n / 10).push(digit_char(n % 10))
    }
}

/// Whether `c` is one of `0` to `9`.
pub open spec fn is_digit(c: char) -> bool {
    '0' <= c && c <= '9'
}

/// Whether `s` is a non-empty run of decimal digits.
pub open spec fn is_numeral(s: Seq<char>) -> bool {
    s.len() > 0 && forall|i: int| 0 <= i < s.len() ==> is_digit(#[trigger] s[i])
}

/// The value of a run of decimal digits.
pub open spec fn numeral_value(s: Seq<char>) -> nat
    decreases s.len(),
{
    if s.len() == 0 {
        0
    } else {
        numeral_value(s.drop_last()) * 10 + ((s.last() as u32) - 48) as nat
    }
}

/// What reading `s` as an unsigned 64-bit decimal gives: the value when `s` is
/// all digits and the value fits, else nothing.
pub open spec fn parsed_u64(s: Seq<char>) -> Option<u64> {
    if is_numeral(s) && numeral_value(s) <= u64::MAX {
        Some(numeral_value(s) as u64)
    } else {
        None
    }
}

fn push_dec(out: &mut Vec<char>, n: u64)
    ensures
        final(out)@ == old(out)@ + dec(n as nat),
    decreases n,
{
    if n >= 10 {
        push_dec(out, n / 10);
    }
    let d: u8 = (n % 10) as u8;
    out.push((d + 48) as char);
    assert(final(out)@ =~= old(out)@ + dec(n as nat));
}

/// The decimal numeral of `n`.
pub fn u64_to_string(n: u64) -> (r: String)
    ensures
        r@ == dec(n as nat),
{
    let mut v: Vec<char> = Vec::new();
    push_dec(&mut v, n);
    assert(v@ =~= dec(n as nat));
    string_of(&v)
}

/// Every numeral of a prefix is at most the numeral of the whole.
pub proof fn lemma_numeral_prefix(s: Seq<char>, i: int)
    requires
        0 <= i <= s.len(),
        forall|j: int| 0 <= j < s.len() ==> is_digit(#[trigger] s[j]),
    ensures
        numeral_value(s.take(i)) <= numeral_value(s),
    decreases s.len(),
{
    if i < s.len() {
        assert(s.drop_last().take(i) =~= s.take(i));
        assert forall|j: int| 0 <= j < s.drop_last().len() implies is_digit(
            #[trigger] s.drop_last()[j],
        ) by {
            assert(s.drop_last()[j] == s[j]);
        }
        lemma_numeral_prefix(s.drop_last(), i);
        assert(numeral_value(s) >= numeral_value(s.drop_last()));
    } else {
        assert(s.take(i) =~= s);
    }
}

/// Reads `s` as an unsigned 64-bit decimal.
pub fn parse_u64(s: &str) -> (r: Option<u64>)
    ensures
        r == parsed_u64(s@),
{
    let cs = chars_of(s);
    if cs.len() == 0 {
        return None;
    }
    let mut v: u64 = 0;
    let mut i: usize = 0;
    while i < cs.len()
        invariant
            cs@ == s@,
            0 < cs.len(),
            i <= cs.len(),
            forall|j: int| 0 <= j < i ==> is_digit(#[trigger] cs@[j]),
            v as nat == numeral_value(cs@.take(i as int)),
        decreases cs.len() - i,
    {
        let c = cs[i];
        if c < '0' || c > '9' {
            assert(!is_digit(s@[i as int]));
            return None;
        }
        let d: u64 = ((c as u32) - 48) as u64;
        assert(cs@.take(i + 1).drop_last() =~= cs@.take(i as int));
        if v > (u64::MAX - d) / 10 {
            assert forall|j: int| 0 <= j < i + 1 implies is_digit(#[trigger] cs@.take(i + 1)[j]) by {}
            proof {
                if is_numeral(s@) {
                    lemma_numeral_prefix(s@, i + 1);
                }
            }
            assert(numeral_value(cs@.take(i + 1)) > u64::MAX) by (nonlinear_arith)
                requires
                    v > (u64::MAX - d) / 10,
                    numeral_value(cs@.take(i + 1)) == v * 10 + d,
            ;
            return None;
        }
        v = v * 10 + d;
        i += 1;
    }
    assert(cs@.take(i as int) =~= s@);
    Some(v)
}

/// Reading back the decimal numeral of `n` gives `n`.
pub proof fn lemma_dec_parses(n: nat)
    ensures
        is_numeral(dec(n)),
        numeral_value(dec(n)) == n,
    decreases n,
{
    let d = (n % 10) as u8;
    assert((digit_char(n % 10) as u32) - 48 == n % 10) by {
        assert(((d + 48) as u8) as char as u32 == (d + 48) as u32);
    }
    if n >= 10 {
        lemma_dec_parses(n / 10);
        assert(dec(n).drop_last() =~= dec(n / 10));
    } else {
        assert(dec(n).drop_last() =~= Seq::<char>::empty());
    }
    assert(dec(n).last() == digit_char(n % 10));
    assert(numeral_value(dec(n)) == numeral_value(dec(n).drop_last()) * 10 + ((dec(n).last() as u32) - 48) as nat);
    assert forall|i: int| 0 <= i < dec(n).len() implies is_digit(#[trigger] dec(n)[i]) by {
        if n >= 10 && i < dec(n).len() - 1 {
            assert(dec(n)[i] == dec(n / 10)[i]);
        }
    }
}

/// The index of the first `c` in `s` from `i`, or the length when there is none.
pub open spec fn find_from(s: Seq<char>, c: char, i: nat) -> nat
    decreases s.len() - i,
{
    if i >= s.len() || s[i as int] == c {
        i
    } else {
        find_from(s, c, i + 1)
    }
}

/// The index of the first `c` in `s`, or its length.
pub fn find_char(s: &Vec<char>, c: char) -> (r: usize)
    ensures
        r == find_from(s@, c, 0),
        r <= s@.len(),
{
    let mut i: usize = 0;
    while i < s.len()
        invariant
            i <= s@.len(),
            find_from(s@, c, i as nat) == find_from(s@, c, 0),
        decreases s@.len() - i,
    {
        if s[i] == c {
            return i;
        }
        i += 1;
    }
    i
}

/// The characters of `s` from `from` up to `to`, as a string.
pub fn sub_string(s: &Vec<char>, from: usize, to: usize) -> (r: String)
    requires
        from <= to <= s@.len(),
    ensures
        r@ == s@.subrange(from as int, to as int),
{
    let mut r = String::new();
    let mut i: usize = from;
    while i < to
        invariant
            from <= i <= to <= s@.len(),
            r@ == s@.subrange(from as int, i as int),
        decreases to - i,
    {
        push_char(&mut r, s[i]);
        i += 1;
        assert(r@ =~= s@.subrange(from as int, i as int));
    }
    r
}

/// The text of each string.
pub open spec fn lines_view(lines: Seq<String>) -> Seq<Seq<char>> {
    lines.map_values(|l: String| l@)
}

/// The pieces of `t` between occurrences of `c`, the last one kept only when
/// it is not empty.
pub open spec fn split_on(t: Seq<char>, c: char) -> Seq<Seq<char>>
    decreases t.len(),
{
    if t.len() == 0 {
        Seq::empty()
    } else {
        let p = find_from(t, c, 0);
        if p >= t.len() {
            seq![t]
        } else {
            seq![t.take(p as int)] + split_on(t.skip(p + 1 as int), c)
        }
    }
}

/// The pieces of `text` between occurrences of `c`, the last one kept only
/// when it is not empty.
pub fn split_on_char(text: &str, c: char) -> (r: Vec<String>)
    ensures
        lines_view(r@) == split_on(text@, c),
{
    let cs = chars_of(text);
    let mut r: Vec<String> = Vec::new();
    let mut start: usize = 0;
    let ghost t = text@;
    assert(t.skip(0) =~= t);
    assert(lines_view(r@) + split_on(t, c) =~= split_on(t, c));
    while start < cs.len()
        invariant
            cs@ == t,
            start <= cs@.len(),
            lines_view(r@) + split_on(t.skip(start as int), c) == split_on(t, c),
        decreases cs@.len() - start,
    {
        let ghost rest = t.skip(start as int);
        let mut e: usize = start;
        while e < cs.len() && cs[e] != c
            invariant
                cs@ == t,
                start <= e <= cs@.len(),
                forall|j: int| start <= j < e ==> cs@[j] != c,
            decreases cs@.len() - e,
        {
            e += 1;
        }
        proof {
            lemma_find_from_skip(t, c, start as nat, e as nat);
        }
        let piece = sub_string(&cs, start, e);
        assert(piece@ =~= rest.take(e - start));
        r.push(piece);
        if e >= cs.len() {
            assert(split_on(rest, c) == seq![rest]);
            assert(rest =~= piece@);
            start = e;
            assert(t.skip(start as int) =~= Seq::<char>::empty());
        } else {
            assert(rest.skip(e - start + 1) =~= t.skip(e + 1));
            start = e + 1;
        }
        assert(lines_view(r@) =~= lines_view(r@.drop_last()).push(piece@));
    }
    assert(t.skip(start as int) =~= Seq::<char>::empty());
    assert(lines_view(r@) + Seq::<Seq<char>>::empty() =~= lines_view(r@));
    r
}

/// In the text from `s`, the first line feed stands where the scan from `s` stopped.
proof fn lemma_find_from_skip(t: Seq<char>, c: char, s: nat, e: nat)
    requires
        s <= e <= t.len(),
        forall|j: int| s <= j < e ==> t[j] != c,
        e < t.len() ==> t[e as int] == c,
    ensures
        find_from(t.skip(s as int), c, 0) == e - s,
{
    let rest = t.skip(s as int);
    assert forall|k: nat| k <= e - s implies find_from(rest, c, k) == e - s by {
        lemma_find_from_up(rest, c, (e - s) as nat, k);
    }
}

proof fn lemma_find_from_up(rest: Seq<char>, c: char, stop: nat, k: nat)
    requires
        k <= stop <= rest.len(),
        forall|j: int| k <= j < stop ==> rest[j] != c,
        stop < rest.len() ==> rest[stop as int] == c,
    ensures
        find_from(rest, c, k) == stop,
    decreases stop - k,
{
    if k < stop {
        lemma_find_from_up(rest, c, stop, k + 1);
    }
}

/// The pieces joined with `c` between them.
pub open spec fn join_on(xs: Seq<Seq<char>>, c: char) -> Seq<char>
    decreases xs.len(),
{
    if xs.len() == 0 {
        Seq::empty()
    } else if xs.len() == 1 {
        xs[0]
    } else {
        join_on(xs.drop_last(), c) + seq![c] + xs.last()
    }
}

/// The strings joined with `c` between them.
pub fn join_strings(xs: &Vec<String>, c: char) -> (r: String)
    ensures
        r@ == join_on(lines_view(xs@), c),
{
    let mut r = String::new();
    let mut i: usize = 0;
    while i < xs.len()
        invariant
            i <= xs@.len(),
            r@ == join_on(lines_view(xs@).take(i as int), c),
        decreases xs@.len() - i,
    {
        assert(lines_view(xs@).take(i + 1).drop_last() =~= lines_view(xs@).take(i as int));
        if i > 0 {
            push_char(&mut r, c);
        }
        push_all(&mut r, xs[i].as_str());
        i += 1;
        assert(r@ =~= join_on(lines_view(xs@).take(i as int), c));
    }
    assert(lines_view(xs@).take(i as int) =~= lines_view(xs@));
    r
}

/// The decimal numerals of the numbers.
pub open spec fn decs(xs: Seq<u64>) -> Seq<Seq<char>> {
    xs.map_values(|x: u64| dec(x as nat))
}

/// The decimal numerals of the numbers, each as a string.
pub fn numerals(xs: &Vec<u64>) -> (r: Vec<String>)
    ensures
        lines_view(r@) == decs(xs@),
{
    let mut r: Vec<String> = Vec::new();
    let mut i: usize = 0;
    while i < xs.len()
        invariant
            i <= xs@.len(),
            lines_view(r@) == decs(xs@.take(i as int)),
        decreases xs@.len() - i,
    {
        let ghost r0 = r@;
        let s = u64_to_string(xs[i]);
        r.push(s);
        assert(r@ == r0.push(s));
        assert(lines_view(r@) =~= lines_view(r0).push(s@));
        assert(decs(xs@.take(i + 1)) =~= decs(xs@.take(i as int)).push(dec(xs@[i as int] as nat)));
        i += 1;
    }
    assert(xs@.take(i as int) =~= xs@);
    r
}

/// Each piece read as an unsigned 64-bit decimal, when every one reads.
pub open spec fn parsed_all(xs: Seq<Seq<char>>) -> Option<Seq<u64>>
    decreases xs.len(),
{
    if xs.len() == 0 {
        Some(Seq::empty())
    } else {
        match (parsed_all(xs.drop_last()), parsed_u64(xs.last())) {
            (Some(a), Some(b)) => Some(a.push(b)),
            _ => None,
        }
    }
}

/// Each string read as an unsigned 64-bit decimal, when every one reads.
pub fn parse_all(xs: &Vec<String>) -> (r: Option<Vec<u64>>)
    ensures
        r is Some <==> parsed_all(lines_view(xs@)) is Some,
        r matches Some(v) ==> parsed_all(lines_view(xs@)) == Some(v@),
{
    let mut r: Vec<u64> = Vec::new();
    let mut i: usize = 0;
    while i < xs.len()
        invariant
            i <= xs@.len(),
            parsed_all(lines_view(xs@).take(i as int)) == Some(r@),
        decreases xs@.len() - i,
    {
        assert(lines_view(xs@).take(i + 1).drop_last() =~= lines_view(xs@).take(i as int));
        match parse_u64(xs[i].as_str()) {
            Some(v) => r.push(v),
            None => {
                proof {
                    lemma_parsed_all_prefix(lines_view(xs@), i as int + 1);
                }
                return None;
            },
        }
        i += 1;
    }
    assert(lines_view(xs@).take(i as int) =~= lines_view(xs@));
    Some(r)
}

/// When some prefix fails to read, the whole fails to read.
pub proof fn lemma_parsed_all_prefix(xs: Seq<Seq<char>>, n: int)
    requires
        0 <= n <= xs.len(),
        parsed_all(xs.take(n)) is None,
    ensures
        parsed_all(xs) is None,
    decreases xs.len() - n,
{
    if n < xs.len() {
        assert(xs.take(n + 1).drop_last() =~= xs.take(n));
        lemma_parsed_all_prefix(xs, n + 1);
    } else {
        assert(xs.take(n) =~= xs);
    }
}

/// Whether `c` separates words: space, tab, line feed, carriage return,
/// vertical tab or form feed.
pub open spec fn is_space(c: char) -> bool {
    c == ' ' || c == '\t' || c == '\n' || c == '\r' || c == '\x0b' || c == '\x0c'
}

/// The number of leading separators of `s`.
pub open spec fn space_run(s: Seq<char>) -> nat
    decreases s.len(),
{
    if s.len() > 0 && is_space(s[0]) {
        1 + space_run(s.drop_first())
    } else {
        0
    }
}

/// The number of leading non-separators of `s`.
pub open spec fn word_run(s: Seq<char>) -> nat
    decreases s.len(),
{
    if s.len() > 0 && !is_space(s[0]) {
        1 + word_run(s.drop_first())
    } else {
        0
    }
}

/// The words of `s`: its maximal runs of non-separators, in order.
pub open spec fn words(s: Seq<char>) -> Seq<Seq<char>>
    decreases s.len(),
{
    let t = s.skip(space_run(s) as int);
    if space_run(s) >= s.len() {
        Seq::empty()
    } else if word_run(t) == 0 || word_run(t) > t.len() {
        Seq::empty()
    } else {
        seq![t.take(word_run(t) as int)] + words(t.skip(word_run(t) as int))
    }
}

proof fn lemma_runs(s: Seq<char>)
    ensures
        space_run(s) <= s.len(),
        word_run(s) <= s.len(),
        forall|j: int| 0 <= j < space_run(s) ==> is_space(#[trigger] s[j]),
        space_run(s) < s.len() ==> !is_space(s[space_run(s) as int]),
        forall|j: int| 0 <= j < word_run(s) ==> !is_space(#[trigger] s[j]),
        word_run(s) < s.len() ==> is_space(s[word_run(s) as int]),
    decreases s.len(),
{
    if s.len() > 0 {
        lemma_runs(s.drop_first());
        assert forall|j: int| 0 <= j < space_run(s) implies is_space(#[trigger] s[j]) by {
            if j > 0 {
                assert(s[j] == s.drop_first()[j - 1]);
            }
        }
        assert forall|j: int| 0 <= j < word_run(s) implies !is_space(#[trigger] s[j]) by {
            if j > 0 {
                assert(s[j] == s.drop_first()[j - 1]);
            }
        }
        if space_run(s) > 0 && space_run(s) < s.len() {
            assert(s[space_run(s) as int] == s.drop_first()[space_run(s) - 1]);
        }
        if word_run(s) > 0 && word_run(s) < s.len() {
            assert(s[word_run(s) as int] == s.drop_first()[word_run(s) - 1]);
        }
    }
}

proof fn lemma_space_run_exact(s: Seq<char>, n: nat)
    requires
        n <= s.len(),
        forall|j: int| 0 <= j < n ==> is_space(#[trigger] s[j]),
        n < s.len() ==> !is_space(s[n as int]),
    ensures
        space_run(s) == n,
    decreases n,
{
    if n > 0 {
        assert forall|j: int| 0 <= j < n - 1 implies is_space(#[trigger] s.drop_first()[j]) by {
            assert(s.drop_first()[j] == s[j + 1]);
        }
        if n - 1 < s.drop_first().len() {
            assert(s.drop_first()[n - 1] == s[n as int]);
        }
        lemma_space_run_exact(s.drop_first(), (n - 1) as nat);
    }
}

proof fn lemma_word_run_exact(s: Seq<char>, n: nat)
    requires
        n <= s.len(),
        forall|j: int| 0 <= j < n ==> !is_space(#[trigger] s[j]),
        n < s.len() ==> is_space(s[n as int]),
    ensures
        word_run(s) == n,
    decreases n,
{
    if n > 0 {
        assert forall|j: int| 0 <= j < n - 1 implies !is_space(#[trigger] s.drop_first()[j]) by {
            assert(s.drop_first()[j] == s[j + 1]);
        }
        if n - 1 < s.drop_first().len() {
            assert(s.drop_first()[n - 1] == s[n as int]);
        }
        lemma_word_run_exact(s.drop_first(), (n - 1) as nat);
    }
}

fn is_space_char(c: char) -> (r: bool)
    ensures
        r == is_space(c),
{
    c == ' ' || c == '\t' || c == '\n' || c == '\r' || c == '\x0b' || c == '\x0c'
}

/// The words of `s`: its maximal runs of non-separators, in order.
pub fn split_words(s: &str) -> (r: Vec<String>)
    ensures
        lines_view(r@) == words(s@),
{
    let cs = chars_of(s);
    let ghost t = s@;
    let mut r: Vec<String> = Vec::new();
    let mut i: usize = 0;
    assert(t.skip(0) =~= t);
    assert(lines_view(r@) + words(t) =~= words(t));
    while i < cs.len()
        invariant
            cs@ == t,
            i <= cs@.len(),
            lines_view(r@) + words(t.skip(i as int)) == words(t),
        decreases cs@.len() - i,
    {
        let ghost rest = t.skip(i as int);
        let mut a: usize = i;
        while a < cs.len() && is_space_char(cs[a])
            invariant
                cs@ == t,
                i <= a <= cs@.len(),
                forall|j: int| i <= j < a ==> is_space(#[trigger] cs@[j]),
            decreases cs@.len() - a,
        {
            a += 1;
        }
        proof {
            assert forall|j: int| 0 <= j < a - i implies is_space(#[trigger] rest[j]) by {
                assert(rest[j] == t[i + j]);
            }
            if a < cs.len() {
                assert(rest[a - i] == t[a as int]);
            }
            lemma_space_run_exact(rest, (a - i) as nat);
        }
        if a == cs.len() {
            assert(words(rest) == Seq::<Seq<char>>::empty());
            i = a;
            assert(t.skip(i as int) =~= Seq::<char>::empty());
            assert(words(t.skip(i as int)) == Seq::<Seq<char>>::empty());
            assert(lines_view(r@) + words(t.skip(i as int)) =~= lines_view(r@));
            assert(lines_view(r@) + Seq::<Seq<char>>::empty() =~= lines_view(r@));
        } else {
            let ghost w0 = rest.skip(a - i);
            let mut e: usize = a;
            while e < cs.len() && !is_space_char(cs[e])
                invariant
                    cs@ == t,
                    a <= e <= cs@.len(),
                    forall|j: int| a <= j < e ==> !is_space(#[trigger] cs@[j]),
                decreases cs@.len() - e,
            {
                e += 1;
            }
            proof {
                assert forall|j: int| 0 <= j < e - a implies !is_space(#[trigger] w0[j]) by {
                    assert(w0[j] == t[a + j]);
                }
                if e < cs.len() {
                    assert(w0[e - a] == t[e as int]);
                }
                lemma_word_run_exact(w0, (e - a) as nat);
                assert(w0.skip(e - a) =~= t.skip(e as int));
            }
            let piece = sub_string(&cs, a, e);
            assert(piece@ =~= w0.take(e - a));
            let ghost r0 = r@;
            r.push(piece);
            assert(lines_view(r@) =~= lines_view(r0).push(piece@));
            i = e;
            assert(lines_view(r@) + words(t.skip(i as int)) =~= lines_view(r0) + words(rest));
        }
    }
    assert(t.skip(i as int) =~= Seq::<char>::empty());
    assert(lines_view(r@) + Seq::<Seq<char>>::empty() =~= lines_view(r@));
    r
}

/// Whether `p` begins `s`.
pub open spec fn is_prefix(p: Seq<char>, s: Seq<char>) -> bool {
    p.len() <= s.len() && s.take(p.len() as int) == p
}

/// Whether `p` begins `s`.
pub fn starts_with(s: &str, p: &str) -> (r: bool)
    ensures
        r == is_prefix(p@, s@),
{
    let a = chars_of(s);
    let b = chars_of(p);
    if b.len() > a.len() {
        return false;
    }
    let mut i: usize = 0;
    while i < b.len()
        invariant
            a@ == s@,
            b@ == p@,
            b@.len() <= a@.len(),
            i <= b@.len(),
            forall|j: int| 0 <= j < i ==> a@[j] == b@[j],
        decreases b@.len() - i,
    {
        if a[i] != b[i] {
            assert(s@.take(p@.len() as int)[i as int] != p@[i as int]);
            return false;
        }
        i += 1;
    }
    assert(s@.take(p@.len() as int) =~= p@);
    true
}

/// Whether `a` reads `b`.
pub fn same_text(a: &String, b: &str) -> (r: bool)
    ensures
        r == (a@ == b@),
{
    let bb = b.to_owned();
    a.eq(&bb)
}

/// The lines, each followed by `c`.
pub open spec fn lines_join(ls: Seq<Seq<char>>, c: char) -> Seq<char>
    decreases ls.len(),
{
    if ls.len() == 0 {
        Seq::empty()
    } else {
        lines_join(ls.drop_last(), c) + ls.last() + seq![c]
    }
}

/// Joining two runs of lines joins their texts.
pub proof fn lemma_lines_join_concat(a: Seq<Seq<char>>, b: Seq<Seq<char>>, c: char)
    ensures
        lines_join(a + b, c) == lines_join(a, c) + lines_join(b, c),
    decreases b.len(),
{
    if b.len() == 0 {
        assert(a + b =~= a);
    } else {
        assert((a + b).drop_last() =~= a + b.drop_last());
        lemma_lines_join_concat(a, b.drop_last(), c);
        assert((a + b).last() == b.last());
    }
}

/// Lines that hold no `c`, joined with `c` after each, split back into themselves.
pub proof fn lemma_split_lines_join(ls: Seq<Seq<char>>, c: char)
    requires
        forall|i: int, j: int| 0 <= i < ls.len() && 0 <= j < ls[i].len() ==> (#[trigger] ls[i][j]) != c,
    ensures
        split_on(lines_join(ls, c), c) == ls,
    decreases ls.len(),
{
    if ls.len() > 0 {
        let l = ls[0];
        let rest = ls.drop_first();
        assert(ls =~= seq![l] + rest);
        lemma_lines_join_concat(seq![l], rest, c);
        assert(seq![l].drop_last() =~= Seq::<Seq<char>>::empty());
        assert(lines_join(Seq::<Seq<char>>::empty(), c) =~= Seq::<char>::empty());
        assert(seq![l].last() == l);
        assert(lines_join(seq![l], c) == lines_join(seq![l].drop_last(), c) + l + seq![c]);
        assert(lines_join(seq![l], c) =~= l + seq![c]);
        let t = lines_join(ls, c);
        let tr = lines_join(rest, c);
        assert(t =~= l + seq![c] + tr);
        assert forall|j: int| 0 <= j < l.len() implies t[j] != c by {
            assert(t[j] == ls[0][j]);
        }
        assert(t[l.len() as int] == c);
        lemma_find_from_up(t, c, l.len(), 0);
        assert(t.take(l.len() as int) =~= l);
        assert(t.skip(l.len() + 1 as int) =~= tr);
        assert forall|i: int, j: int| 0 <= i < rest.len() && 0 <= j < rest[i].len() implies (#[trigger] rest[i][j]) != c by {
            assert(rest[i] == ls[i + 1]);
        }
        lemma_split_lines_join(rest, c);
        assert(split_on(t, c) =~= seq![l] + rest);
    } else {
        assert(lines_join(ls, c) =~= Seq::<char>::empty());
    }
}

/// The first `c` from `k` on stands where the scan stops: at `stop`, when
/// nothing from `k` up to it is `c` and `stop` is the end or a `c`.
pub proof fn lemma_find_up_pub(rest: Seq<char>, c: char, stop: nat, k: nat)
    requires
        k <= stop <= rest.len(),
        forall|j: int| k <= j < stop ==> rest[j] != c,
        stop < rest.len() ==> rest[stop as int] == c,
    ensures
        find_from(rest, c, k) == stop,
{
    lemma_find_from_up(rest, c, stop, k);
}

/// Lines that hold no `c`, each followed by `c`, then a last piece without
/// `c`, split back into the lines and the piece when it is not empty.
pub proof fn lemma_split_lines_tail(ls: Seq<Seq<char>>, z: Seq<char>, c: char)
    requires
        forall|i: int, j: int| 0 <= i < ls.len() && 0 <= j < ls[i].len() ==> (#[trigger] ls[i][j]) != c,
        forall|j: int| 0 <= j < z.len() ==> (#[trigger] z[j]) != c,
    ensures
        split_on(lines_join(ls, c) + z, c) == ls + if z.len() > 0 {
            seq![z]
        } else {
            Seq::<Seq<char>>::empty()
        },
    decreases ls.len(),
{
    if ls.len() > 0 {
        let l = ls[0];
        let rest = ls.drop_first();
        assert(ls =~= seq![l] + rest);
        lemma_lines_join_concat(seq![l], rest, c);
        assert(seq![l].drop_last() =~= Seq::<Seq<char>>::empty());
        assert(lines_join(Seq::<Seq<char>>::empty(), c) =~= Seq::<char>::empty());
        assert(seq![l].last() == l);
        assert(lines_join(seq![l], c) == lines_join(seq![l].drop_last(), c) + l + seq![c]);
        let tr = lines_join(rest, c) + z;
        let t = lines_join(ls, c) + z;
        assert(t =~= l + seq![c] + tr);
        assert forall|j: int| 0 <= j < l.len() implies t[j] != c by {
            assert(t[j] == ls[0][j]);
        }
        assert(t[l.len() as int] == c);
        lemma_find_from_up(t, c, l.len(), 0);
        assert(t.take(l.len() as int) =~= l);
        assert(t.skip(l.len() + 1 as int) =~= tr);
        assert forall|i: int, j: int| 0 <= i < rest.len() && 0 <= j < rest[i].len() implies (#[trigger] rest[i][j]) != c by {
            assert(rest[i] == ls[i + 1]);
        }
        lemma_split_lines_tail(rest, z, c);
        assert(split_on(t, c) =~= ls + if z.len() > 0 {
            seq![z]
        } else {
            Seq::<Seq<char>>::empty()
        });
    } else {
        assert(lines_join(ls, c) =~= Seq::<char>::empty());
        assert(lines_join(ls, c) + z =~= z);
        if z.len() > 0 {
            lemma_find_from_up(z, c, z.len(), 0);
        }
    }
}

proof fn lemma_join_as_lines(xs: Seq<Seq<char>>, c: char)
    requires
        xs.len() > 0,
    ensures
        join_on(xs, c) == lines_join(xs.drop_last(), c) + xs.last(),
    decreases xs.len(),
{
    if xs.len() == 1 {
        assert(xs.drop_last() =~= Seq::<Seq<char>>::empty());
        assert(lines_join(xs.drop_last(), c) =~= Seq::<char>::empty());
        assert(join_on(xs, c) == xs[0]);
        assert(join_on(xs, c) =~= lines_join(xs.drop_last(), c) + xs.last());
    } else {
        lemma_join_as_lines(xs.drop_last(), c);
        assert(xs.drop_last().drop_last() =~= xs.drop_last().drop_last());
        let d = xs.drop_last();
        assert(lines_join(d, c) == lines_join(d.drop_last(), c) + d.last() + seq![c]);
        assert(join_on(xs, c) =~= lines_join(xs.drop_last(), c) + xs.last());
    }
}

/// Pieces without `c`, the last not empty, joined with `c` split back into themselves.
pub proof fn lemma_split_join(xs: Seq<Seq<char>>, c: char)
    requires
        xs.len() > 0 ==> xs.last().len() > 0,
        forall|i: int, j: int| 0 <= i < xs.len() && 0 <= j < xs[i].len() ==> (#[trigger] xs[i][j]) != c,
    ensures
        split_on(join_on(xs, c), c) == xs,
{
    if xs.len() > 0 {
        lemma_join_as_lines(xs, c);
        let d = xs.drop_last();
        assert forall|i: int, j: int| 0 <= i < d.len() && 0 <= j < d[i].len() implies (#[trigger] d[i][j]) != c by {
            assert(d[i] == xs[i]);
        }
        assert forall|j: int| 0 <= j < xs.last().len() implies (#[trigger] xs.last()[j]) != c by {
            assert(xs.last() == xs[xs.len() - 1]);
        }
        lemma_split_lines_tail(d, xs.last(), c);
        assert(d + seq![xs.last()] =~= xs);
    } else {
        assert(join_on(xs, c) =~= Seq::<char>::empty());
    }
}

/// The numerals of numbers read back as the numbers.
pub proof fn lemma_parse_decs(xs: Seq<u64>)
    ensures
        parsed_all(decs(xs)) == Some(xs),
    decreases xs.len(),
{
    if xs.len() > 0 {
        lemma_parse_decs(xs.drop_last());
        assert(decs(xs).drop_last() =~= decs(xs.drop_last()));
        lemma_dec_parses(xs.last() as nat);
        assert(decs(xs).last() == dec(xs.last() as nat));
        assert(xs.drop_last().push(xs.last()) =~= xs);
    } else {
        assert(decs(xs) =~= Seq::<Seq<char>>::empty());
    }
}

/// Whether `s` holds no line feed and no carriage return.
pub open spec fn plain_chars(s: Seq<char>) -> bool {
    forall|j: int| 0 <= j < s.len() ==> (#[trigger] s[j]) != '\n' && s[j] != '\r'
}

/// A decimal numeral holds no line break.
pub proof fn lemma_dec_plain(n: nat)
    ensures
        plain_chars(dec(n)),
        dec(n).len() > 0,
        forall|j: int| 0 <= j < dec(n).len() ==> (#[trigger] dec(n)[j]) != ',',
{
    lemma_dec_parses(n);
    assert forall|j: int| 0 <= j < dec(n).len() implies (#[trigger] dec(n)[j]) != '\n' && dec(n)[j] != '\r' && dec(n)[j] != ',' by {
        assert(is_digit(dec(n)[j]));
    }
}

/// Pieces without line breaks, joined with a separator that is none, hold none.
pub proof fn lemma_join_plain(xs: Seq<Seq<char>>, c: char)
    requires
        c != '\n' && c != '\r',
        forall|i: int| 0 <= i < xs.len() ==> plain_chars(#[trigger] xs[i]),
    ensures
        plain_chars(join_on(xs, c)),
    decreases xs.len(),
{
    if xs.len() > 1 {
        lemma_join_plain(xs.drop_last(), c);
        assert(plain_chars(xs[xs.len() - 1]));
        let t = join_on(xs, c);
        let a = join_on(xs.drop_last(), c);
        assert forall|j: int| 0 <= j < t.len() implies (#[trigger] t[j]) != '\n' && t[j] != '\r' by {
            if j < a.len() {
                assert(t[j] == a[j]);
            } else if j > a.len() {
                assert(t[j] == xs.last()[j - a.len() - 1]);
            }
        }
    } else if xs.len() == 1 {
        assert(plain_chars(xs[0]));
    }
}

} // verus!
