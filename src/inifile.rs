//! A minimal INI reader and writer: named sections, in the order they were
//! added, each holding `key=value` options in the order they were added.
use vstd::prelude::*;
use crate::text::{
    chars_of, find_char, find_from, push_all, push_char, split_on, split_on_char, sub_string,
    lines_view,
};

verus! {

/// One section as plain text: its name and its options, in order.
pub struct SectionView {
    pub name: Seq<char>,
    pub options: Seq<(Seq<char>, Seq<char>)>,
}

/// The position of the first section named `name` from `i` on, or -1.
pub open spec fn section_from(v: Seq<SectionView>, name: Seq<char>, i: nat) -> int
    decreases v.len() - i,
{
    if i >= v.len() {
        -1
    } else if v[i as int].name == name {
        i as int
    } else {
        section_from(v, name, i + 1)
    }
}

/// Section names are distinct, and so are the option names of each section.
pub open spec fn ini_distinct(v: Seq<SectionView>) -> bool {
    &&& forall|i: int, j: int| 0 <= i < j < v.len() ==> v[i].name != v[j].name
    &&& forall|s: int, i: int, j: int|
        0 <= s < v.len() && 0 <= i < j < v[s].options.len() ==> (#[trigger] v[s].options[i]).0
            != (#[trigger] v[s].options[j]).0
}

/// An option is found by key exactly when some option from `i` on has that key.
pub proof fn lemma_option_exists(o: Seq<(Seq<char>, Seq<char>)>, key: Seq<char>, i: nat)
    ensures
        option_from(o, key, i) >= 0 <==> exists|j: int| i <= j < o.len() && (#[trigger] o[j]).0 == key,
    decreases o.len() - i,
{
    if i < o.len() && o[i as int].0 != key {
        lemma_option_exists(o, key, i + 1);
        if exists|j: int| i <= j < o.len() && (#[trigger] o[j]).0 == key {
            let j = choose|j: int| i <= j < o.len() && (#[trigger] o[j]).0 == key;
            assert(i + 1 <= j);
        }
    }
}

/// Adding a section under a new name keeps names distinct.
pub proof fn lemma_distinct_add_section(v: Seq<SectionView>, name: Seq<char>)
    requires
        ini_distinct(v),
        section_index(v, name) < 0,
    ensures
        ini_distinct(v.push(SectionView { name, options: Seq::empty() })),
{
    lemma_section_exists(v, name, 0);
    let w = v.push(SectionView { name, options: Seq::empty() });
    assert forall|i: int, j: int| 0 <= i < j < w.len() implies w[i].name != w[j].name by {
        if j == v.len() {
            assert(w[i] == v[i]);
        }
    }
}

/// Setting an option keeps names distinct, and the option then reads as set.
pub proof fn lemma_distinct_set(v: Seq<SectionView>, sec: Seq<char>, key: Seq<char>, val: Seq<char>)
    requires
        ini_distinct(v),
        section_index(v, sec) >= 0,
    ensures
        ini_distinct(ini_set(v, sec, key, val)),
        ini_get(ini_set(v, sec, key, val), sec, key) == Some(val),
{
    lemma_section_from(v, sec, 0);
    let s = section_index(v, sec);
    let opts = v[s].options;
    lemma_option_from(opts, key, 0);
    lemma_option_exists(opts, key, 0);
    let w = ini_set(v, sec, key, val);
    let no = w[s].options;
    assert forall|i: int, j: int| 0 <= i < j < w.len() implies w[i].name != w[j].name by {
        assert(i != s ==> w[i] == v[i]);
        assert(j != s ==> w[j] == v[j]);
    }
    assert forall|t: int, i: int, j: int|
        0 <= t < w.len() && 0 <= i < j < w[t].options.len() implies (#[trigger] w[t].options[i]).0
            != (#[trigger] w[t].options[j]).0 by {
        if t != s {
            assert(w[t] == v[t]);
        } else if option_index(opts, key) < 0 {
            if j == opts.len() {
                assert(no[i] == opts[i]);
            } else {
                assert(no[i] == opts[i] && no[j] == opts[j]);
            }
        } else {
            let k = option_index(opts, key);
            if i != k && j != k {
                assert(no[i] == opts[i] && no[j] == opts[j]);
            } else if i == k {
                assert(no[j] == opts[j]);
                assert(opts[k].0 == key);
            } else {
                assert(no[i] == opts[i]);
                assert(opts[k].0 == key);
            }
        }
    }
    lemma_section_from(w, sec, 0);
    lemma_section_exists(w, sec, 0);
    assert(w[s].name == sec);
    lemma_section_first_found(w, sec, s);
    lemma_option_from(no, key, 0);
    let k2 = if option_index(opts, key) < 0 { opts.len() as int } else { option_index(opts, key) };
    assert(no[k2].0 == key);
    lemma_option_first(no, key, 0, k2);
}

/// With distinct names, the section found by a name is the one that has it.
pub proof fn lemma_section_first_found(v: Seq<SectionView>, name: Seq<char>, j: int)
    requires
        ini_distinct(v),
        0 <= j < v.len(),
        v[j].name == name,
    ensures
        section_index(v, name) == j,
{
    lemma_section_first(v, name, 0, j);
    lemma_section_from(v, name, 0);
}

/// The first option found by key comes no later than any option with it;
/// with distinct keys it is that option.
pub proof fn lemma_option_first(o: Seq<(Seq<char>, Seq<char>)>, key: Seq<char>, i: nat, j: int)
    requires
        i <= j < o.len(),
        o[j].0 == key,
        forall|a: int, b: int| 0 <= a < b < o.len() ==> (#[trigger] o[a]).0 != (#[trigger] o[b]).0,
    ensures
        option_from(o, key, i) == j,
    decreases o.len() - i,
{
    if i < j {
        assert(o[i as int].0 != key);
        lemma_option_first(o, key, i + 1, j);
    }
}

/// Removing an option from a document with distinct names keeps them
/// distinct and leaves no option of that key in the section.
pub proof fn lemma_remove_option_distinct(v: Seq<SectionView>, sec: Seq<char>, key: Seq<char>)
    requires
        ini_distinct(v),
        section_index(v, sec) >= 0,
    ensures
        ({
            let s = section_index(v, sec);
            let o = v[s].options;
            let k = option_index(o, key);
            let w = if k < 0 {
                v
            } else {
                v.update(s, SectionView { name: sec, options: o.remove(k) })
            };
            ini_distinct(w) && ini_get(w, sec, key) is None
        }),
{
    lemma_section_from(v, sec, 0);
    let s = section_index(v, sec);
    let o = v[s].options;
    let k = option_index(o, key);
    lemma_option_from(o, key, 0);
    lemma_option_exists(o, key, 0);
    if k < 0 {
        lemma_section_first_found(v, sec, s);
    } else {
        let w = v.update(s, SectionView { name: sec, options: o.remove(k) });
        let no = o.remove(k);
        assert forall|i: int, j: int| 0 <= i < j < w.len() implies w[i].name != w[j].name by {
            assert(i != s ==> w[i] == v[i]);
            assert(j != s ==> w[j] == v[j]);
        }
        assert forall|t: int, i: int, j: int|
            0 <= t < w.len() && 0 <= i < j < w[t].options.len() implies (#[trigger] w[t].options[i]).0
                != (#[trigger] w[t].options[j]).0 by {
            if t != s {
                assert(w[t] == v[t]);
            } else {
                let i0 = if i < k { i } else { i + 1 };
                let j0 = if j < k { j } else { j + 1 };
                assert(no[i] == o[i0] && no[j] == o[j0]);
            }
        }
        lemma_section_first_found(w, sec, s);
        lemma_option_exists(no, key, 0);
        if option_index(no, key) >= 0 {
            let j = choose|j: int| 0 <= j < no.len() && (#[trigger] no[j]).0 == key;
            let j0 = if j < k { j } else { j + 1 };
            assert(no[j] == o[j0]);
            assert(o[k].0 == key);
        }
    }
}

/// A section found by name has that name.
pub proof fn lemma_section_from(v: Seq<SectionView>, name: Seq<char>, i: nat)
    ensures
        section_from(v, name, i) >= 0 ==> section_from(v, name, i) < v.len() && v[section_from(
            v,
            name,
            i,
        )].name == name,
    decreases v.len() - i,
{
    if i < v.len() && v[i as int].name != name {
        lemma_section_from(v, name, i + 1);
    }
}

/// A section is found by name exactly when some section from `i` on has that name.
pub proof fn lemma_section_exists(v: Seq<SectionView>, name: Seq<char>, i: nat)
    ensures
        section_from(v, name, i) >= 0 <==> exists|j: int| i <= j < v.len() && (#[trigger] v[j]).name == name,
    decreases v.len() - i,
{
    if i < v.len() && v[i as int].name != name {
        lemma_section_exists(v, name, i + 1);
        if exists|j: int| i <= j < v.len() && (#[trigger] v[j]).name == name {
            let j = choose|j: int| i <= j < v.len() && (#[trigger] v[j]).name == name;
            assert(i + 1 <= j);
        }
    }
}

/// Reading a line keeps every section and keeps the current section present.
pub proof fn lemma_read_line(st: (Seq<SectionView>, Option<Seq<char>>), raw: Seq<char>)
    requires
        st.1 matches Some(c) ==> section_index(st.0, c) >= 0,
    ensures
        read_line(st, raw).1 matches Some(c) ==> section_index(read_line(st, raw).0, c) >= 0,
        read_line(st, raw).0.len() >= st.0.len(),
        forall|j: int| 0 <= j < st.0.len() ==> (#[trigger] read_line(st, raw).0[j]).name == st.0[j].name,
{
    let w = read_line(st, raw).0;
    let v = st.0;
    lemma_section_exists(v, read_line(st, raw).1->0, 0);
    lemma_section_exists(w, read_line(st, raw).1->0, 0);
    if read_line(st, raw).1 is Some {
        let c = read_line(st, raw).1->0;
        let l = strip_eol(raw);
        if l.len() > 0 && l[0] == '[' && section_index(v, header_name(l)) < 0 {
            assert(w[v.len() as int].name == c);
        } else if section_index(v, c) >= 0 {
            let j = choose|j: int| 0 <= j < v.len() && (#[trigger] v[j]).name == c;
            lemma_section_from(v, st.1->0, 0);
            assert(w[j].name == c);
        }
    }
    lemma_section_from(v, st.1->0, 0);
}

/// A section added under a new name is found at the end.
pub proof fn lemma_added_section(v: Seq<SectionView>, s: SectionView)
    requires
        section_index(v, s.name) < 0,
    ensures
        section_index(v.push(s), s.name) == v.len(),
{
    lemma_section_exists(v, s.name, 0);
    let w = v.push(s);
    assert(w[v.len() as int].name == s.name);
    lemma_section_first(w, s.name, 0, v.len() as int);
    lemma_section_from(w, s.name, 0);
    let k = section_index(w, s.name);
    if k < v.len() {
        assert(w[k] == v[k]);
        assert(v[k].name == s.name);
    }
}

/// Setting a key the last section lacks, in that section, appends the option.
pub proof fn lemma_set_fresh(v: Seq<SectionView>, sec: Seq<char>, key: Seq<char>, val: Seq<char>)
    requires
        v.len() > 0,
        section_index(v, sec) == v.len() - 1,
        forall|j: int| 0 <= j < v.last().options.len() ==> (#[trigger] v.last().options[j]).0 != key,
    ensures
        ini_set(v, sec, key, val) == v.drop_last().push(
            SectionView { name: sec, options: v.last().options.push((key, val)) },
        ),
        section_index(ini_set(v, sec, key, val), sec) == v.len() - 1,
{
    lemma_option_from(v.last().options, key, 0);
    lemma_section_from(v, sec, 0);
    let w = ini_set(v, sec, key, val);
    assert(w =~= v.drop_last().push(
        SectionView { name: sec, options: v.last().options.push((key, val)) },
    ));
    lemma_section_exists(v, sec, 0);
    lemma_section_exists(w, sec, 0);
    lemma_section_from(w, sec, 0);
    assert forall|j: int| 0 <= j < v.len() - 1 implies #[trigger] w[j].name != sec by {
        if w[j].name == sec {
            assert(v[j].name == sec);
            lemma_section_first(v, sec, 0, j);
        }
    }
    lemma_section_first(w, sec, 0, v.len() - 1);
}

/// No section before the first one found carries the name.
pub proof fn lemma_section_first(v: Seq<SectionView>, name: Seq<char>, i: nat, j: int)
    requires
        i <= j < v.len(),
        v[j].name == name,
    ensures
        section_from(v, name, i) <= j,
        section_from(v, name, i) >= 0,
    decreases v.len() - i,
{
    if i < j && v[i as int].name != name {
        lemma_section_first(v, name, i + 1, j);
    }
}

/// An option found by key has that key.
pub proof fn lemma_option_from(o: Seq<(Seq<char>, Seq<char>)>, key: Seq<char>, i: nat)
    ensures
        option_from(o, key, i) >= 0 ==> option_from(o, key, i) < o.len() && o[option_from(
            o,
            key,
            i,
        )].0 == key,
    decreases o.len() - i,
{
    if i < o.len() && o[i as int].0 != key {
        lemma_option_from(o, key, i + 1);
    }
}

/// The position of the first section named `name`, or -1.
pub open spec fn section_index(v: Seq<SectionView>, name: Seq<char>) -> int {
    section_from(v, name, 0)
}

/// The position of the first option `key` from `i` on, or -1.
pub open spec fn option_from(o: Seq<(Seq<char>, Seq<char>)>, key: Seq<char>, i: nat) -> int
    decreases o.len() - i,
{
    if i >= o.len() {
        -1
    } else if o[i as int].0 == key {
        i as int
    } else {
        option_from(o, key, i + 1)
    }
}

/// The position of the first option `key`, or -1.
pub open spec fn option_index(o: Seq<(Seq<char>, Seq<char>)>, key: Seq<char>) -> int {
    option_from(o, key, 0)
}

/// The value of `key` in section `sec`, if both are there.
pub open spec fn ini_get(v: Seq<SectionView>, sec: Seq<char>, key: Seq<char>) -> Option<Seq<char>> {
    let s = section_index(v, sec);
    if s < 0 {
        None
    } else {
        let o = option_index(v[s].options, key);
        if o < 0 {
            None
        } else {
            Some(v[s].options[o].1)
        }
    }
}

/// Section `sec` with `key` set to `value`: replaced in place when present,
/// else appended.
pub open spec fn ini_set(v: Seq<SectionView>, sec: Seq<char>, key: Seq<char>, value: Seq<char>) -> Seq<
    SectionView,
> {
    let s = section_index(v, sec);
    if s < 0 {
        v
    } else {
        let opts = v[s].options;
        let o = option_index(opts, key);
        let new_opts = if o < 0 {
            opts.push((key, value))
        } else {
            opts.update(o, (key, value))
        };
        v.update(s, SectionView { name: sec, options: new_opts })
    }
}

/// The text of the options: `key=value` lines.
pub open spec fn options_text(o: Seq<(Seq<char>, Seq<char>)>) -> Seq<char>
    decreases o.len(),
{
    if o.len() == 0 {
        Seq::empty()
    } else {
        options_text(o.drop_last()) + o.last().0 + seq!['='] + o.last().1 + seq!['\n']
    }
}

/// The text of the sections: a `[name]` line, then the section's options.
pub open spec fn ini_text(v: Seq<SectionView>) -> Seq<char>
    decreases v.len(),
{
    if v.len() == 0 {
        Seq::empty()
    } else {
        ini_text(v.drop_last()) + seq!['['] + v.last().name + seq![']', '\n'] + options_text(
            v.last().options,
        )
    }
}

/// A line without its trailing line-break characters.
pub open spec fn strip_eol(l: Seq<char>) -> Seq<char>
    decreases l.len(),
{
    if l.len() > 0 && (l.last() == '\n' || l.last() == '\r') {
        strip_eol(l.drop_last())
    } else {
        l
    }
}

/// The name in a `[name]` line: what follows `[`, up to a closing `]` if
/// the line ends with one.
pub open spec fn header_name(l: Seq<char>) -> Seq<char> {
    if l.len() >= 2 && l.last() == ']' {
        l.subrange(1, l.len() - 1)
    } else {
        l.skip(1)
    }
}

/// What reading one line does to the sections and the current section:
/// blank lines and lines opening with `#` or `;` are skipped; `[name]` adds
/// the section if new and makes it current; `key=value` sets the option in
/// the current section; anything else is skipped.
pub open spec fn read_line(st: (Seq<SectionView>, Option<Seq<char>>), raw: Seq<char>) -> (
    Seq<SectionView>,
    Option<Seq<char>>,
) {
    let l = strip_eol(raw);
    let (v, cur) = st;
    if l.len() == 0 || l[0] == '#' || l[0] == ';' {
        st
    } else if l[0] == '[' {
        let name = header_name(l);
        if section_index(v, name) < 0 {
            (v.push(SectionView { name, options: Seq::empty() }), Some(name))
        } else {
            (v, Some(name))
        }
    } else {
        let p = find_from(l, '=', 0);
        if p < l.len() && cur is Some {
            (ini_set(v, cur->0, l.take(p as int), l.skip(p + 1 as int)), cur)
        } else {
            st
        }
    }
}

/// What reading the lines in turn does.
pub open spec fn read_lines(st: (Seq<SectionView>, Option<Seq<char>>), lines: Seq<Seq<char>>) -> (
    Seq<SectionView>,
    Option<Seq<char>>,
)
    decreases lines.len(),
{
    if lines.len() == 0 {
        st
    } else {
        read_line(read_lines(st, lines.drop_last()), lines.last())
    }
}

/// The values an option reads as `true`.
pub open spec fn is_true_word(s: Seq<char>) -> bool {
    s == "1"@ || s == "yes"@ || s == "true"@ || s == "T"@ || s == "on"@
}

/// The values an option reads as `false`.
pub open spec fn is_false_word(s: Seq<char>) -> bool {
    s == "0"@ || s == "no"@ || s == "false"@ || s == "F"@ || s == "off"@
}


/// The current section's name, if any.
pub open spec fn cur_view(c: Option<String>) -> Option<Seq<char>> {
    match c {
        Some(s) => Some(s@),
        None => None,
    }
}

fn strip_len(cs: &Vec<char>, n: usize) -> (r: usize)
    requires
        n <= cs@.len(),
    ensures
        r <= n,
        strip_eol(cs@.take(n as int)) == cs@.take(r as int),
    decreases n,
{
    if n > 0 && (cs[n - 1] == '\n' || cs[n - 1] == '\r') {
        assert(cs@.take(n as int).drop_last() =~= cs@.take(n - 1));
        strip_len(cs, n - 1)
    } else {
        n
    }
}

struct IniOption {
    key: String,
    value: String,
}

struct IniSection {
    name: String,
    options: Vec<IniOption>,
}

/// An INI document.
pub struct IniFile {
    sections: Vec<IniSection>,
}

spec fn option_view(o: IniOption) -> (Seq<char>, Seq<char>) {
    (o.key@, o.value@)
}

spec fn options_view(o: Seq<IniOption>) -> Seq<(Seq<char>, Seq<char>)> {
    o.map_values(|o: IniOption| option_view(o))
}

spec fn section_view(s: IniSection) -> SectionView {
    SectionView { name: s.name@, options: options_view(s.options@) }
}

fn strings_equal(a: &String, b: &String) -> (r: bool)
    ensures
        r == (a@ == b@),
{
    a.eq(b)
}

impl IniFile {
    /// Section names are distinct, and so are the option names of each section.
    pub open spec fn wf(&self) -> bool {
        ini_distinct(self.view())
    }

    /// The sections as plain text.
    pub closed spec fn view(&self) -> Seq<SectionView> {
        self.sections@.map_values(|s: IniSection| section_view(s))
    }

    /// An empty document.
    pub fn new() -> (r: IniFile)
        ensures
            r.view() == Seq::<SectionView>::empty(),
            r.wf(),
    {
        let r = IniFile { sections: Vec::new() };
        assert(r.view() =~= Seq::<SectionView>::empty());
        r
    }

    fn find_section(&self, section: &String) -> (r: Option<usize>)
        ensures
            section_index(self.view(), section@) < 0 <==> r is None,
            r matches Some(i) ==> i < self.view().len() && i as int == section_index(
                self.view(),
                section@,
            ),
    {
        let mut i: usize = 0;
        while i < self.sections.len()
            invariant
                i <= self.sections@.len(),
                section_from(self.view(), section@, i as nat) == section_index(self.view(), section@),
            decreases self.sections@.len() - i,
        {
            assert(self.view()[i as int] == section_view(self.sections@[i as int]));
            if strings_equal(&self.sections[i].name, section) {
                return Some(i);
            }
            i += 1;
        }
        None
    }

    fn find_option(opts: &Vec<IniOption>, key: &String) -> (r: Option<usize>)
        ensures
            option_index(options_view(opts@), key@) < 0 <==> r is None,
            r matches Some(i) ==> i < opts@.len() && i as int == option_index(
                options_view(opts@),
                key@,
            ),
    {
        let ghost ov = options_view(opts@);
        let mut i: usize = 0;
        while i < opts.len()
            invariant
                ov == options_view(opts@),
                i <= opts@.len(),
                option_from(ov, key@, i as nat) == option_index(ov, key@),
            decreases opts@.len() - i,
        {
            assert(ov[i as int] == option_view(opts@[i as int]));
            if strings_equal(&opts[i].key, key) {
                return Some(i);
            }
            i += 1;
        }
        None
    }

    /// Whether a section named `section` is there.
    pub fn has_section(&self, section: &str) -> (r: bool)
        ensures
            r == (section_index(self.view(), section@) >= 0),
    {
        let s = section.to_owned();
        self.find_section(&s).is_some()
    }

    /// Whether section `section` is there and holds option `option`.
    pub fn has_option(&self, section: &str, option: &str) -> (r: bool)
        ensures
            r == (ini_get(self.view(), section@, option@) is Some),
    {
        let s = section.to_owned();
        let o = option.to_owned();
        assert(s@ == section@);
        assert(o@ == option@);
        match self.find_section(&s) {
            None => false,
            Some(i) => {
                assert(self.view()[i as int] == section_view(self.sections@[i as int]));
                let f = Self::find_option(&self.sections[i].options, &o);
                assert(section_index(self.view(), section@) == i);
                assert(self.view()[i as int].options == options_view(self.sections@[i as int].options@));
                f.is_some()
            },
        }
    }

    /// The value of option `option` in section `section`.
    pub fn get_string(&self, section: &str, option: &str) -> (r: Option<String>)
        ensures
            r is Some <==> ini_get(self.view(), section@, option@) is Some,
            r matches Some(v) ==> ini_get(self.view(), section@, option@) == Some(v@),
    {
        let s = section.to_owned();
        let o = option.to_owned();
        match self.find_section(&s) {
            None => None,
            Some(i) => {
                assert(self.view()[i as int] == section_view(self.sections@[i as int]));
                match Self::find_option(&self.sections[i].options, &o) {
                    None => None,
                    Some(j) => {
                        let ghost ov = options_view(self.sections@[i as int].options@);
                        assert(ov[j as int] == option_view(self.sections@[i as int].options@[j as int]));
                        Some(self.sections[i].options[j].value.clone())
                    },
                }
            },
        }
    }

    /// The option read as a boolean: `1`, `yes`, `true`, `T` or `on` for
    /// true, `0`, `no`, `false`, `F` or `off` for false, else nothing.
    pub fn get_bool(&self, section: &str, option: &str) -> (r: Option<bool>)
        ensures
            r == (match ini_get(self.view(), section@, option@) {
                Some(v) => if is_true_word(v) {
                    Some(true)
                } else if is_false_word(v) {
                    Some(false)
                } else {
                    None
                },
                None => None,
            }),
    {
        match self.get_string(section, option) {
            None => None,
            Some(v) => {
                let words_true: Vec<String> = vec![
                    "1".to_owned(),
                    "yes".to_owned(),
                    "true".to_owned(),
                    "T".to_owned(),
                    "on".to_owned(),
                ];
                let words_false: Vec<String> = vec![
                    "0".to_owned(),
                    "no".to_owned(),
                    "false".to_owned(),
                    "F".to_owned(),
                    "off".to_owned(),
                ];
                if strings_equal(&v, &words_true[0]) || strings_equal(&v, &words_true[1])
                    || strings_equal(&v, &words_true[2]) || strings_equal(&v, &words_true[3])
                    || strings_equal(&v, &words_true[4]) {
                    Some(true)
                } else if strings_equal(&v, &words_false[0]) || strings_equal(&v, &words_false[1])
                    || strings_equal(&v, &words_false[2]) || strings_equal(&v, &words_false[3])
                    || strings_equal(&v, &words_false[4]) {
                    Some(false)
                } else {
                    None
                }
            },
        }
    }

    /// The option read as an unsigned 64-bit decimal.
    pub fn get(&self, section: &str, option: &str) -> (r: Option<u64>)
        ensures
            r == (match ini_get(self.view(), section@, option@) {
                Some(v) => crate::text::parsed_u64(v),
                None => None,
            }),
    {
        match self.get_string(section, option) {
            None => None,
            Some(v) => crate::text::parse_u64(v.as_str()),
        }
    }

    /// Adds an empty section named `section` at the end.
    pub fn add_section(&mut self, section: &str)
        requires
            old(self).wf(),
            section_index(old(self).view(), section@) < 0,
        ensures
            final(self).view() == old(self).view().push(
                SectionView { name: section@, options: Seq::empty() },
            ),
            final(self).wf(),
    {
        proof {
            if ini_distinct(self.view()) {
                lemma_distinct_add_section(self.view(), section@);
            }
        }
        let sec = IniSection { name: section.to_owned(), options: Vec::new() };
        self.sections.push(sec);
        assert(section_view(sec).options =~= Seq::<(Seq<char>, Seq<char>)>::empty());
        assert(self.view() =~= old(self).view().push(
            SectionView { name: section@, options: Seq::empty() },
        ));
    }

    /// Sets option `option` of section `section` to `value`.
    pub fn set(&mut self, section: &str, option: &str, value: String)
        requires
            old(self).wf(),
            section_index(old(self).view(), section@) >= 0,
        ensures
            final(self).view() == ini_set(old(self).view(), section@, option@, value@),
            final(self).wf(),
            ini_get(final(self).view(), section@, option@) == Some(value@),
    {
        proof {
            if ini_distinct(self.view()) {
                lemma_distinct_set(self.view(), section@, option@, value@);
            }
        }
        let s = section.to_owned();
        let o = option.to_owned();
        let i = self.find_section(&s).unwrap();
        proof {
            lemma_section_from(self.view(), section@, 0);
            assert(self.view()[i as int] == section_view(self.sections@[i as int]));
        }
        let mut sec = self.sections.remove(i);
        let ghost ov = options_view(sec.options@);
        match Self::find_option(&sec.options, &o) {
            None => {
                sec.options.push(IniOption { key: o, value });
                assert(options_view(sec.options@) =~= ov.push(
                    (option@, value@),
                ));
            },
            Some(j) => {
                sec.options.set(j, IniOption { key: o, value });
                assert(options_view(sec.options@) =~= ov.update(
                    j as int,
                    (option@, value@),
                ));
            },
        }
        self.sections.insert(i, sec);
        assert(self.sections@ =~= old(self).sections@.update(i as int, sec));
        assert(self.view() =~= ini_set(old(self).view(), section@, option@, value@));
    }

    /// Reads one line, with `cur` the current section.
    fn read_one(&mut self, cur: &mut Option<String>, raw: &String)
        requires
            old(self).wf(),
            cur_view(*old(cur)) matches Some(c) ==> section_index(old(self).view(), c) >= 0,
        ensures
            (final(self).view(), cur_view(*final(cur))) == read_line(
                (old(self).view(), cur_view(*old(cur))),
                raw@,
            ),
            cur_view(*final(cur)) matches Some(c) ==> section_index(final(self).view(), c) >= 0,
            final(self).wf(),
    {
        proof {
            let st = (self.view(), cur_view(*cur));
            let l = strip_eol(raw@);
            if ini_distinct(self.view()) {
                if l.len() > 0 && l[0] != '#' && l[0] != ';' {
                    if l[0] == '[' {
                        if section_index(self.view(), header_name(l)) < 0 {
                            lemma_distinct_add_section(self.view(), header_name(l));
                        }
                    } else if find_from(l, '=', 0) < l.len() && cur_view(*cur) is Some {
                        let p = find_from(l, '=', 0);
                        lemma_distinct_set(self.view(), cur_view(*cur)->0, l.take(p as int), l.skip(p + 1 as int));
                    }
                }
            }
        }
        proof {
            lemma_read_line((self.view(), cur_view(*cur)), raw@);
        }
        let cs0 = chars_of(raw.as_str());
        let n = strip_len(&cs0, cs0.len());
        assert(cs0@.take(cs0@.len() as int) =~= cs0@);
        let ghost l = cs0@.take(n as int);
        if n == 0 || cs0[0] == '#' || cs0[0] == ';' {
            return;
        }
        if cs0[0] == '[' {
            let name = if n >= 2 && cs0[n - 1] == ']' {
                sub_string(&cs0, 1, n - 1)
            } else {
                sub_string(&cs0, 1, n)
            };
            assert(name@ == header_name(l));
            if !self.has_section(name.as_str()) {
                self.add_section(name.as_str());
            }
            *cur = Some(name);
            return;
        }
        let line = chars_of(sub_string(&cs0, 0, n).as_str());
        let p = find_char(&line, '=');
        if p < n {
            match cur {
                Some(c) => {
                    let key = sub_string(&line, 0, p);
                    let value = sub_string(&line, p + 1, n);
                    let c2 = c.clone();
                    self.set(c2.as_str(), key.as_str(), value);
                },
                None => {},
            }
        }
    }

    /// Reads lines of INI text into the document: `[name]` lines open (and
    /// if new, add) a section, `key=value` lines set an option in the section
    /// opened last, and blank lines, lines opening with `#` or `;`, options
    /// before any section and lines without `=` are passed over.
    pub fn read_string(&mut self, lines: Vec<String>)
        requires
            old(self).wf(),
        ensures
            final(self).view() == read_lines((old(self).view(), None), lines_view(lines@)).0,
            final(self).wf(),
    {
        let mut cur: Option<String> = None;
        let mut i: usize = 0;
        while i < lines.len()
            invariant
                i <= lines@.len(),
                (self.view(), cur_view(cur)) == read_lines(
                    (old(self).view(), None),
                    lines_view(lines@).take(i as int),
                ),
                cur_view(cur) matches Some(c) ==> section_index(self.view(), c) >= 0,
                self.wf(),
            decreases lines@.len() - i,
        {
            assert(lines_view(lines@).take(i + 1).drop_last() =~= lines_view(lines@).take(i as int));
            self.read_one(&mut cur, &lines[i]);
            i += 1;
        }
        assert(lines_view(lines@).take(i as int) =~= lines_view(lines@));
    }

    /// Reads INI text, split at line feeds, into the document.
    pub fn read_text(&mut self, text: &str)
        requires
            old(self).wf(),
        ensures
            final(self).view() == read_lines((old(self).view(), None), split_on(text@, '\n')).0,
            final(self).wf(),
    {
        let lines = split_on_char(text, '\n');
        self.read_string(lines);
    }

    /// The names of the sections, in order.
    pub fn sections(&self) -> (r: Vec<String>)
        ensures
            r@.len() == self.view().len(),
            forall|i: int| 0 <= i < r@.len() ==> (#[trigger] r@[i])@ == self.view()[i].name,
    {
        let mut r: Vec<String> = Vec::new();
        let mut i: usize = 0;
        while i < self.sections.len()
            invariant
                i <= self.sections@.len(),
                r@.len() == i,
                forall|j: int| 0 <= j < i ==> (#[trigger] r@[j])@ == self.view()[j].name,
            decreases self.sections@.len() - i,
        {
            assert(self.view()[i as int] == section_view(self.sections@[i as int]));
            r.push(self.sections[i].name.clone());
            i += 1;
        }
        r
    }

    /// The option names of section `section`, in order; none when it is absent.
    pub fn options(&self, section: String) -> (r: Vec<String>)
        ensures
            section_index(self.view(), section@) < 0 ==> r@.len() == 0,
            section_index(self.view(), section@) >= 0 ==> {
                let o = self.view()[section_index(self.view(), section@)].options;
                &&& r@.len() == o.len()
                &&& forall|i: int| 0 <= i < r@.len() ==> (#[trigger] r@[i])@ == o[i].0
            },
    {
        let mut r: Vec<String> = Vec::new();
        match self.find_section(&section) {
            None => r,
            Some(s) => {
                assert(self.view()[s as int] == section_view(self.sections@[s as int]));
                let opts = &self.sections[s].options;
                let ghost ov = options_view(opts@);
                let mut i: usize = 0;
                while i < opts.len()
                    invariant
                        ov == options_view(opts@),
                        i <= opts@.len(),
                        r@.len() == i,
                        forall|j: int| 0 <= j < i ==> (#[trigger] r@[j])@ == ov[j].0,
                    decreases opts@.len() - i,
                {
                    assert(ov[i as int] == option_view(opts@[i as int]));
                    r.push(opts[i].key.clone());
                    i += 1;
                }
                r
            },
        }
    }

    /// Removes option `option` from section `section`; answers whether it was there.
    pub fn remove_option(&mut self, section: String, option: String) -> (r: bool)
        requires
            old(self).wf(),
            section_index(old(self).view(), section@) >= 0,
        ensures
            r == (ini_get(old(self).view(), section@, option@) is Some),
            ({
                let s = section_index(old(self).view(), section@);
                let o = old(self).view()[s].options;
                let k = option_index(o, option@);
                final(self).view() == if k < 0 {
                    old(self).view()
                } else {
                    old(self).view().update(s, SectionView { name: section@, options: o.remove(k) })
                }
            }),
            final(self).wf(),
            ini_get(final(self).view(), section@, option@) is None,
    {
        proof {
            let v = self.view();
            if ini_distinct(v) {
                lemma_remove_option_distinct(v, section@, option@);
            }
        }
        let i = self.find_section(&section).unwrap();
        assert(self.view()[i as int] == section_view(self.sections@[i as int]));
        proof {
            lemma_section_from(self.view(), section@, 0);
        }
        let mut sec = self.sections.remove(i);
        let ghost ov = options_view(sec.options@);
        let found = match Self::find_option(&sec.options, &option) {
            None => false,
            Some(j) => {
                sec.options.remove(j);
                assert(options_view(sec.options@) =~= ov.remove(
                    j as int,
                ));
                true
            },
        };
        self.sections.insert(i, sec);
        assert(self.sections@ =~= old(self).sections@.update(i as int, sec));
        assert(self.view() =~= (if !found {
            old(self).view()
        } else {
            old(self).view().update(
                i as int,
                SectionView { name: section@, options: ov.remove(option_index(ov, option@)) },
            )
        }));
        found
    }

    /// Removes section `section`; answers whether it was there.
    pub fn remove_section(&mut self, section: String) -> (r: bool)
        requires
            old(self).wf(),
        ensures
            r == (section_index(old(self).view(), section@) >= 0),
            r ==> final(self).view() == old(self).view().remove(section_index(old(self).view(), section@)),
            !r ==> final(self).view() == old(self).view(),
            final(self).wf(),
            section_index(final(self).view(), section@) < 0,
    {
        proof {
            let v = self.view();
            lemma_section_from(v, section@, 0);
            if ini_distinct(v) && section_index(v, section@) >= 0 {
                let k = section_index(v, section@);
                let w = v.remove(k);
                assert forall|t: int, i: int, j: int|
                    0 <= t < w.len() && 0 <= i < j < w[t].options.len() implies (#[trigger] w[t].options[i]).0
                        != (#[trigger] w[t].options[j]).0 by {
                    let t0 = if t < k { t } else { t + 1 };
                    assert(w[t] == v[t0]);
                }
                assert forall|i: int, j: int| 0 <= i < j < w.len() implies w[i].name != w[j].name by {
                    let i0 = if i < k { i } else { i + 1 };
                    let j0 = if j < k { j } else { j + 1 };
                    assert(w[i] == v[i0] && w[j] == v[j0]);
                }
                lemma_section_exists(w, section@, 0);
                if section_index(w, section@) >= 0 {
                    let j = choose|j: int| 0 <= j < w.len() && (#[trigger] w[j]).name == section@;
                    let j0 = if j < k { j } else { j + 1 };
                    assert(w[j] == v[j0]);
                }
            }
        }
        match self.find_section(&section) {
            None => false,
            Some(i) => {
                self.sections.remove(i);
                assert(self.view() =~= old(self).view().remove(i as int));
                true
            },
        }
    }

    /// The document as text: each section's `[name]` line followed by its
    /// `key=value` lines.
    pub fn to_text(&self) -> (r: String)
        ensures
            r@ == ini_text(self.view()),
    {
        let mut r = String::new();
        let mut i: usize = 0;
        while i < self.sections.len()
            invariant
                i <= self.sections@.len(),
                r@ == ini_text(self.view().take(i as int)),
            decreases self.sections@.len() - i,
        {
            let sec = &self.sections[i];
            assert(self.view()[i as int] == section_view(*sec));
            assert(self.view().take(i + 1).drop_last() =~= self.view().take(i as int));
            push_char(&mut r, '[');
            push_all(&mut r, sec.name.as_str());
            push_char(&mut r, ']');
            push_char(&mut r, '\n');
            let ghost ov = options_view(sec.options@);
            let ghost base = r@;
            let mut j: usize = 0;
            while j < sec.options.len()
                invariant
                    ov == options_view(sec.options@),
                    j <= sec.options@.len(),
                    r@ == base + options_text(ov.take(j as int)),
                decreases sec.options@.len() - j,
            {
                assert(ov[j as int] == option_view(sec.options@[j as int]));
                assert(ov.take(j + 1).drop_last() =~= ov.take(j as int));
                push_all(&mut r, sec.options[j].key.as_str());
                push_char(&mut r, '=');
                push_all(&mut r, sec.options[j].value.as_str());
                push_char(&mut r, '\n');
                j += 1;
                assert(r@ =~= base + options_text(ov.take(j as int)));
            }
            assert(ov.take(j as int) =~= ov);
            i += 1;
            assert(r@ =~= ini_text(self.view().take(i as int)));
        }
        assert(self.view().take(i as int) =~= self.view());
        r
    }
}

/// The `[name]` line of a section.
pub open spec fn header_line(name: Seq<char>) -> Seq<char> {
    seq!['['] + name + seq![']']
}

/// The `key=value` line of an option.
pub open spec fn option_line(p: (Seq<char>, Seq<char>)) -> Seq<char> {
    p.0 + seq!['='] + p.1
}

/// The lines of the options, in order.
pub open spec fn option_lines(o: Seq<(Seq<char>, Seq<char>)>) -> Seq<Seq<char>>
    decreases o.len(),
{
    if o.len() == 0 {
        Seq::empty()
    } else {
        option_lines(o.drop_last()).push(option_line(o.last()))
    }
}

/// The lines of a document: each section's header line, then its option lines.
pub open spec fn ini_lines(v: Seq<SectionView>) -> Seq<Seq<char>>
    decreases v.len(),
{
    if v.len() == 0 {
        Seq::empty()
    } else {
        ini_lines(v.drop_last()) + seq![header_line(v.last().name)] + option_lines(v.last().options)
    }
}

/// Whether an option survives being written as a line and read back: no
/// line feed anywhere, no `=` in the key, a key that does not open with
/// `#`, `;` or `[`, and a value that does not end with a carriage return.
pub open spec fn option_text_ok(p: (Seq<char>, Seq<char>)) -> bool {
    &&& forall|j: int| 0 <= j < p.0.len() ==> (#[trigger] p.0[j]) != '\n' && p.0[j] != '='
    &&& forall|j: int| 0 <= j < p.1.len() ==> (#[trigger] p.1[j]) != '\n'
    &&& p.0.len() > 0 ==> p.0[0] != '#' && p.0[0] != ';' && p.0[0] != '['
    &&& p.1.len() > 0 ==> p.1.last() != '\r'
}

/// Whether a document survives being written as text and read back: names
/// distinct, no line feed in a section name, every option surviving.
pub open spec fn ini_text_ok(v: Seq<SectionView>) -> bool {
    &&& ini_distinct(v)
    &&& forall|s: int, j: int| 0 <= s < v.len() && 0 <= j < v[s].name.len() ==> (#[trigger] v[s].name[j]) != '\n'
    &&& forall|s: int, i: int| 0 <= s < v.len() && 0 <= i < v[s].options.len() ==> option_text_ok(#[trigger] v[s].options[i])
}

proof fn lemma_options_text(o: Seq<(Seq<char>, Seq<char>)>)
    ensures
        options_text(o) == crate::text::lines_join(option_lines(o), '\n'),
        option_lines(o).len() == o.len(),
        forall|i: int| 0 <= i < o.len() ==> #[trigger] option_lines(o)[i] == option_line(o[i]),
    decreases o.len(),
{
    if o.len() > 0 {
        lemma_options_text(o.drop_last());
        assert(option_lines(o).drop_last() =~= option_lines(o.drop_last()));
        assert(options_text(o) =~= crate::text::lines_join(option_lines(o), '\n'));
    } else {
        assert(crate::text::lines_join(option_lines(o), '\n') =~= Seq::<char>::empty());
    }
}

proof fn lemma_ini_text_lines(v: Seq<SectionView>)
    ensures
        ini_text(v) == crate::text::lines_join(ini_lines(v), '\n'),
    decreases v.len(),
{
    if v.len() > 0 {
        lemma_ini_text_lines(v.drop_last());
        lemma_options_text(v.last().options);
        let a = ini_lines(v.drop_last());
        let h = seq![header_line(v.last().name)];
        let o = option_lines(v.last().options);
        crate::text::lemma_lines_join_concat(a + h, o, '\n');
        crate::text::lemma_lines_join_concat(a, h, '\n');
        assert(h.drop_last() =~= Seq::<Seq<char>>::empty());
        assert(crate::text::lines_join(Seq::<Seq<char>>::empty(), '\n') =~= Seq::<char>::empty());
        assert(crate::text::lines_join(h, '\n') =~= header_line(v.last().name) + seq!['\n']);
        assert(ini_text(v) =~= crate::text::lines_join(ini_lines(v), '\n'));
    } else {
        assert(crate::text::lines_join(ini_lines(v), '\n') =~= Seq::<char>::empty());
    }
}

/// Reading lines in two runs reads them all.
pub proof fn lemma_read_lines_concat(
    st: (Seq<SectionView>, Option<Seq<char>>),
    a: Seq<Seq<char>>,
    b: Seq<Seq<char>>,
)
    ensures
        read_lines(st, a + b) == read_lines(read_lines(st, a), b),
    decreases b.len(),
{
    if b.len() == 0 {
        assert(a + b =~= a);
    } else {
        assert((a + b).drop_last() =~= a + b.drop_last());
        lemma_read_lines_concat(st, a, b.drop_last());
    }
}

proof fn lemma_read_options(w: Seq<SectionView>, name: Seq<char>, o: Seq<(Seq<char>, Seq<char>)>, n: nat)
    requires
        n <= o.len(),
        section_index(w, name) < 0,
        forall|i: int, j: int| 0 <= i < j < o.len() ==> (#[trigger] o[i]).0 != (#[trigger] o[j]).0,
        forall|i: int| 0 <= i < o.len() ==> option_text_ok(#[trigger] o[i]),
    ensures
        read_lines(
            (w.push(SectionView { name, options: Seq::empty() }), Some(name)),
            option_lines(o.take(n as int)),
        ) == (w.push(SectionView { name, options: o.take(n as int) }), Some(name)),
    decreases n,
{
    if n == 0 {
        assert(o.take(0) =~= Seq::<(Seq<char>, Seq<char>)>::empty());
    } else {
        let m = (n - 1) as nat;
        lemma_read_options(w, name, o, m);
        assert(o.take(n as int).drop_last() =~= o.take(m as int));
        assert(o.take(n as int).last() == o[m as int]);
        let ls = option_lines(o.take(n as int));
        assert(ls.drop_last() == option_lines(o.take(m as int)));
        let v0 = w.push(SectionView { name, options: o.take(m as int) });
        let p = o[m as int];
        let line = option_line(p);
        assert(ls.last() == line);
        // the line reads back as the option
        assert(line.len() > 0);
        assert(line[p.0.len() as int] == '=');
        assert(strip_eol(line) == line) by {
            if p.1.len() > 0 {
                assert(line.last() == p.1.last());
            } else {
                assert(line.last() == '=');
            }
        }
        if p.0.len() > 0 {
            assert(line[0] == p.0[0]);
        } else {
            assert(line[0] == '=');
        }
        assert forall|j: int| 0 <= j < p.0.len() implies line[j] != '=' by {
            assert(line[j] == p.0[j]);
        }
        crate::text::lemma_find_up_pub(line, '=', p.0.len(), 0);
        assert(line.take(p.0.len() as int) =~= p.0);
        assert(line.skip(p.0.len() + 1 as int) =~= p.1);
        lemma_added_section(w, SectionView { name, options: Seq::empty() });
        assert(section_index(v0, name) == v0.len() - 1) by {
            lemma_section_exists(w, name, 0);
            lemma_section_first(v0, name, 0, w.len() as int);
            lemma_section_from(v0, name, 0);
            if section_index(v0, name) < w.len() {
                assert(v0[section_index(v0, name)] == w[section_index(v0, name)]);
            }
        }
        assert forall|j: int| 0 <= j < v0.last().options.len() implies (#[trigger] v0.last().options[j]).0 != p.0 by {
            assert(v0.last().options[j] == o[j]);
        }
        lemma_set_fresh(v0, name, p.0, p.1);
        assert(o.take(m as int).push((p.0, p.1)) =~= o.take(n as int));
        assert(v0.drop_last() =~= w);
    }
}

/// Round trip of INI text: a document whose names and options survive
/// being written as lines reads back from its text as itself.
pub proof fn lemma_ini_round_trip(v: Seq<SectionView>)
    requires
        ini_text_ok(v),
    ensures
        read_lines((Seq::empty(), None), crate::text::split_on(ini_text(v), '\n')).0 == v,
{
    lemma_ini_lines_ok(v);
    lemma_ini_text_lines(v);
    crate::text::lemma_split_lines_join(ini_lines(v), '\n');
    lemma_read_ini_lines(v);
}

proof fn lemma_ini_lines_ok(v: Seq<SectionView>)
    requires
        ini_text_ok(v),
    ensures
        forall|i: int, j: int| 0 <= i < ini_lines(v).len() && 0 <= j < ini_lines(v)[i].len() ==> (#[trigger] ini_lines(v)[i][j]) != '\n',
    decreases v.len(),
{
    if v.len() > 0 {
        let dl = v.drop_last();
        assert(ini_text_ok(dl)) by {
            assert forall|s: int, i: int| 0 <= s < dl.len() && 0 <= i < dl[s].options.len() implies option_text_ok(#[trigger] dl[s].options[i]) by {
                assert(dl[s] == v[s]);
            }
            assert forall|s: int, j: int| 0 <= s < dl.len() && 0 <= j < dl[s].name.len() implies (#[trigger] dl[s].name[j]) != '\n' by {
                assert(dl[s] == v[s]);
            }
            assert forall|s: int, i: int, j: int| 0 <= s < dl.len() && 0 <= i < j < dl[s].options.len() implies (#[trigger] dl[s].options[i]).0 != (#[trigger] dl[s].options[j]).0 by {
                assert(dl[s] == v[s]);
            }
        }
        lemma_ini_lines_ok(dl);
        let o = v.last().options;
        lemma_options_text(o);
        let a = ini_lines(dl);
        let h = header_line(v.last().name);
        let ls = ini_lines(v);
        assert forall|i: int, j: int| 0 <= i < ls.len() && 0 <= j < ls[i].len() implies (#[trigger] ls[i][j]) != '\n' by {
            if i < a.len() {
                assert(ls[i] == a[i]);
            } else if i == a.len() {
                assert(ls[i] == h);
                if 0 < j < h.len() - 1 {
                    assert(h[j] == v.last().name[j - 1]);
                    assert(v.last().name[j - 1] == v[v.len() - 1].name[j - 1]);
                }
            } else {
                let k = i - a.len() - 1;
                assert(ls[i] == option_lines(o)[k]);
                assert(ls[i] == option_line(o[k]));
                assert(option_text_ok(v[v.len() - 1].options[k]));
                let p = o[k];
                if j < p.0.len() {
                    assert(ls[i][j] == p.0[j]);
                } else if j > p.0.len() {
                    assert(ls[i][j] == p.1[j - p.0.len() - 1]);
                }
            }
        }
    }
}

proof fn lemma_read_ini_lines(v: Seq<SectionView>)
    requires
        ini_text_ok(v),
    ensures
        read_lines((Seq::empty(), None), ini_lines(v)).0 == v,
    decreases v.len(),
{
    if v.len() > 0 {
        let dl = v.drop_last();
        assert(ini_text_ok(dl)) by {
            assert forall|s: int, i: int| 0 <= s < dl.len() && 0 <= i < dl[s].options.len() implies option_text_ok(#[trigger] dl[s].options[i]) by {
                assert(dl[s] == v[s]);
            }
            assert forall|s: int, j: int| 0 <= s < dl.len() && 0 <= j < dl[s].name.len() implies (#[trigger] dl[s].name[j]) != '\n' by {
                assert(dl[s] == v[s]);
            }
            assert forall|s: int, i: int, j: int| 0 <= s < dl.len() && 0 <= i < j < dl[s].options.len() implies (#[trigger] dl[s].options[i]).0 != (#[trigger] dl[s].options[j]).0 by {
                assert(dl[s] == v[s]);
            }
        }
        lemma_read_ini_lines(dl);
        let name = v.last().name;
        let o = v.last().options;
        let st0 = (Seq::<SectionView>::empty(), Option::<Seq<char>>::None);
        let a = ini_lines(dl);
        let h = seq![header_line(name)];
        let ol = option_lines(o);
        lemma_read_lines_concat(st0, a + h, ol);
        lemma_read_lines_concat(st0, a, h);
        let r1 = read_lines(st0, a);
        assert(h.drop_last() =~= Seq::<Seq<char>>::empty());
        let hl = header_line(name);
        assert(strip_eol(hl) == hl);
        assert(hl[0] == '[');
        assert(header_name(hl) =~= name);
        assert(section_index(dl, name) < 0) by {
            lemma_section_exists(dl, name, 0);
            if section_index(dl, name) >= 0 {
                let j = choose|j: int| 0 <= j < dl.len() && (#[trigger] dl[j]).name == name;
                assert(dl[j] == v[j]);
                assert(v[v.len() - 1].name == name);
            }
        }
        assert(read_lines(r1, h.drop_last()) == r1);
        assert(h.last() == hl);
        assert(r1.0 == dl);
        assert(hl.len() >= 2);
        assert(hl[0] != '#' && hl[0] != ';');
        assert(read_line(r1, hl) == (dl.push(SectionView { name, options: Seq::empty() }), Some(name)));
        assert(read_lines(r1, h) == (dl.push(SectionView { name, options: Seq::empty() }), Some(name)));
        assert forall|i: int, j: int| 0 <= i < j < o.len() implies (#[trigger] o[i]).0 != (#[trigger] o[j]).0 by {
            assert(o == v[v.len() - 1].options);
        }
        assert forall|i: int| 0 <= i < o.len() implies option_text_ok(#[trigger] o[i]) by {
            assert(o == v[v.len() - 1].options);
        }
        lemma_read_options(dl, name, o, o.len());
        assert(o.take(o.len() as int) =~= o);
        assert(dl.push(SectionView { name, options: o }) =~= v);
    } else {
        assert(ini_lines(v) =~= Seq::<Seq<char>>::empty());
    }
}

/// The option found by key is the first one with that key.
pub proof fn lemma_option_at(o: Seq<(Seq<char>, Seq<char>)>, key: Seq<char>, i: nat, j: int)
    requires
        i <= j < o.len(),
        o[j].0 == key,
        forall|m: int| i <= m < j ==> (#[trigger] o[m]).0 != key,
    ensures
        option_from(o, key, i) == j,
    decreases j - i,
{
    if i < j {
        lemma_option_at(o, key, i + 1, j);
    }
}

} // verus!
