//! The request dispatcher: reads a protocol line, acts on the registry of
//! filters, and answers with the reply line and the disk changes to make.
use vstd::prelude::*;
use crate::config::BloomConfig;
use crate::decimal::{Decimal, MAX_SCALE};
use crate::lbf::{generation, set_layers};
use crate::text::{
    dec, is_prefix, lines_view, push_all, push_char, same_text, split_words, starts_with,
    u64_to_string, words,
};
use crate::wrappers::{can_grow, fresh_layer, BloomFilter, DiskOp};
use vstd::string::StringSliceAdditionalSpecFns;

verus! {

/// The protocol's commands.
#[derive(Clone, Copy, Debug, PartialEq, Eq, Structural)]
pub enum CommandKind {
    Bulk,
    Check,
    Create,
    Close,
    Clear,
    Drop,
    Info,
    List,
    Multi,
    Flush,
    SetKey,
    Unknown,
}

/// The command a word names, aliases included.
pub open spec fn command_of(w: Seq<char>) -> CommandKind {
    if w == "bulk"@ || w == "b"@ {
        CommandKind::Bulk
    } else if w == "check"@ || w == "c"@ {
        CommandKind::Check
    } else if w == "create"@ {
        CommandKind::Create
    } else if w == "close"@ {
        CommandKind::Close
    } else if w == "clear"@ {
        CommandKind::Clear
    } else if w == "drop"@ {
        CommandKind::Drop
    } else if w == "info"@ {
        CommandKind::Info
    } else if w == "list"@ {
        CommandKind::List
    } else if w == "multi"@ || w == "m"@ {
        CommandKind::Multi
    } else if w == "flush"@ {
        CommandKind::Flush
    } else if w == "set"@ || w == "s"@ {
        CommandKind::SetKey
    } else {
        CommandKind::Unknown
    }
}

/// A request: its command and the words after it.
pub struct Request {
    pub kind: CommandKind,
    pub args: Vec<String>,
}

fn command_kind(w: &String) -> (r: CommandKind)
    ensures
        r == command_of(w@),
{
    if same_text(w, "bulk") || same_text(w, "b") {
        CommandKind::Bulk
    } else if same_text(w, "check") || same_text(w, "c") {
        CommandKind::Check
    } else if same_text(w, "create") {
        CommandKind::Create
    } else if same_text(w, "close") {
        CommandKind::Close
    } else if same_text(w, "clear") {
        CommandKind::Clear
    } else if same_text(w, "drop") {
        CommandKind::Drop
    } else if same_text(w, "info") {
        CommandKind::Info
    } else if same_text(w, "list") {
        CommandKind::List
    } else if same_text(w, "multi") || same_text(w, "m") {
        CommandKind::Multi
    } else if same_text(w, "flush") {
        CommandKind::Flush
    } else if same_text(w, "set") || same_text(w, "s") {
        CommandKind::SetKey
    } else {
        CommandKind::Unknown
    }
}

/// Splits a request line into words; the first names the command.
pub fn parse_request(line: &str) -> (r: Request)
    ensures
        words(line@).len() == 0 ==> r.kind == CommandKind::Unknown && r.args@.len() == 0,
        words(line@).len() > 0 ==> r.kind == command_of(words(line@)[0]) && lines_view(r.args@)
            == words(line@).drop_first(),
{
    let mut ws = split_words(line);
    if ws.len() == 0 {
        return Request { kind: CommandKind::Unknown, args: ws };
    }
    let ghost all = lines_view(ws@);
    let first = ws.remove(0);
    assert(lines_view(ws@) =~= all.drop_first());
    assert(first@ == all[0]);
    Request { kind: command_kind(&first), args: ws }
}

/// The reply to a request that names no known command.
pub open spec fn not_supported() -> Seq<char> {
    "Client Error: Command not supported\r\n"@
}

/// The reply to a request with the wrong arguments.
pub open spec fn bad_args() -> Seq<char> {
    "Client Error: Bad arguments\r\n"@
}

/// The reply to a request on a filter that is not there.
pub open spec fn no_exist() -> Seq<char> {
    "Filter does not exist\r\n"@
}

/// The reply to a request that succeeded.
pub open spec fn done() -> Seq<char> {
    "Done\r\n"@
}

/// The reply to a create of a filter that is there already.
pub open spec fn exists_reply() -> Seq<char> {
    "Exists\r\n"@
}

/// The reply when the server could not carry out a request.
pub open spec fn internal_error() -> Seq<char> {
    "Internal Error\r\n"@
}

/// What a request comes to.
pub enum Outcome {
    /// Send `text`, after carrying out `ops`.
    Reply { text: String, ops: Vec<DiskOp> },
    /// The filter `name` must be loaded first: read the files at `paths`,
    /// hand their bytes to `load_filter`, then make the request again.
    NeedLayers { name: String, paths: Vec<String> },
    /// Make filter `name` in `directory`: recover it with `recover_filter`
    /// when the directory is there, else size it and call `create_filter`.
    NeedCreate {
        name: String,
        directory: String,
        capacity: u64,
        probability: Decimal,
        in_memory: bool,
    },
}

/// Whether an outcome is the reply `text` with no disk changes.
pub open spec fn is_reply(o: Outcome, text: Seq<char>) -> bool {
    o matches Outcome::Reply { text: t, ops } && t@ == text && ops@.len() == 0
}

/// The server's state: its settings, the page size, and its filters by name.
pub struct BloomServer {
    config: BloomConfig,
    page_size: u64,
    names: Vec<String>,
    filters: Vec<BloomFilter>,
    last_flush: u64,
}

/// The position of the first name `n` from `i` on, or -1.
pub open spec fn name_from(names: Seq<Seq<char>>, n: Seq<char>, i: nat) -> int
    decreases names.len() - i,
{
    if i >= names.len() {
        -1
    } else if names[i as int] == n {
        i as int
    } else {
        name_from(names, n, i + 1)
    }
}

proof fn lemma_name_from(names: Seq<Seq<char>>, n: Seq<char>, i: nat)
    ensures
        name_from(names, n, i) >= 0 ==> name_from(names, n, i) < names.len() && names[name_from(
            names,
            n,
            i,
        )] == n,
        name_from(names, n, i) >= -1,
    decreases names.len() - i,
{
    if i < names.len() && names[i as int] != n {
        lemma_name_from(names, n, i + 1);
    }
}

/// The first match from `i` on comes no later than any match `j`; with
/// distinct names it is `j` itself.
proof fn lemma_name_first(names: Seq<Seq<char>>, n: Seq<char>, i: nat, j: int)
    requires
        i <= j < names.len(),
        names[j] == n,
    ensures
        0 <= name_from(names, n, i) <= j,
        (forall|a: int, b: int| 0 <= a < b < names.len() ==> names[a] != names[b]) ==> name_from(names, n, i) == j,
    decreases names.len() - i,
{
    if i < j && names[i as int] != n {
        lemma_name_first(names, n, i + 1, j);
    }
}

impl BloomServer {
    /// The names of the filters, in the order they were made.
    pub closed spec fn names(&self) -> Seq<Seq<char>> {
        lines_view(self.names@)
    }

    /// The filters, in the same order.
    pub closed spec fn filters(&self) -> Seq<BloomFilter> {
        self.filters@
    }

    /// The settings.
    pub closed spec fn spec_config(&self) -> BloomConfig {
        self.config
    }

    /// The page size bitmaps are made of.
    pub closed spec fn spec_page_size(&self) -> u64 {
        self.page_size
    }

    /// The position of filter `n`, or -1.
    pub open spec fn index_of(&self, n: Seq<char>) -> int {
        name_from(self.names(), n, 0)
    }

    /// One filter per name, names distinct, each filter well formed and
    /// living in the directory its name gives under the data directory.
    pub closed spec fn wf(&self) -> bool {
        &&& self.names@.len() == self.filters@.len()
        &&& forall|i: int| 0 <= i < self.filters@.len() ==> (#[trigger] self.filters@[i]).wf()
        &&& forall|i: int, j: int| 0 <= i < j < self.names@.len() ==> self.names@[i]@ != self.names@[j]@
        &&& forall|i: int| 0 <= i < self.filters@.len() ==> (#[trigger] self.filters@[i]).spec_directory()
            == filter_dir(self.config.data_dir@, self.names@[i]@)
        &&& self.config.default_probability.scale <= MAX_SCALE
    }

    /// What a well-formed server holds: one filter per name, distinct names,
    /// each filter well formed in its own directory, and every name found at
    /// its own position.
    pub proof fn lemma_registry(&self)
        requires
            self.wf(),
        ensures
            self.filters().len() == self.names().len(),
            forall|i: int, j: int| 0 <= i < j < self.names().len() ==> self.names()[i] != self.names()[j],
            forall|i: int| 0 <= i < self.filters().len() ==> (#[trigger] self.filters()[i]).wf(),
            forall|i: int| 0 <= i < self.filters().len() ==> (#[trigger] self.filters()[i]).spec_directory()
                == filter_dir(self.spec_config().data_dir@, self.names()[i]),
            forall|i: int| 0 <= i < self.names().len() ==> self.index_of(#[trigger] self.names()[i]) == i,
            forall|n: Seq<char>| #[trigger] self.index_of(n) < 0 <==> !self.names().contains(n),
            forall|n: Seq<char>| #[trigger] self.index_of(n) >= 0 ==> self.index_of(n) < self.names().len()
                && self.names()[self.index_of(n)] == n,
    {
        assert forall|i: int| 0 <= i < self.names().len() implies self.index_of(#[trigger] self.names()[i]) == i by {
            lemma_name_first(self.names(), self.names()[i], 0, i);
            lemma_name_from(self.names(), self.names()[i], 0);
        }
        assert forall|n: Seq<char>| #[trigger] self.index_of(n) < 0 <==> !self.names().contains(n) by {
            lemma_name_from(self.names(), n, 0);
            if self.names().contains(n) {
                let j = choose|j: int| 0 <= j < self.names().len() && self.names()[j] == n;
                lemma_name_first(self.names(), n, 0, j);
            }
        }
        assert forall|n: Seq<char>| #[trigger] self.index_of(n) >= 0 implies self.index_of(n) < self.names().len()
            && self.names()[self.index_of(n)] == n by {
            lemma_name_from(self.names(), n, 0);
        }
    }

    /// A server with no filters yet.
    pub fn new(config: BloomConfig, page_size: u64) -> (r: Self)
        ensures
            r.spec_config() == config,
            r.spec_last_flush() == 0,
            r.wf() <==> config.default_probability.scale <= MAX_SCALE,
            r.names().len() == 0,
            r.spec_page_size() == page_size,
    {
        let r = BloomServer { config, page_size, names: Vec::new(), filters: Vec::new(), last_flush: 0 };
        assert(r.names() =~= Seq::<Seq<char>>::empty());
        r
    }

    /// The settings.
    pub fn config(&self) -> (r: &BloomConfig)
        ensures
            *r == self.spec_config(),
    {
        &self.config
    }

    /// The number of filters.
    pub fn len(&self) -> (r: usize)
        requires
            self.wf(),
        ensures
            r == self.names().len(),
    {
        self.names.len()
    }

    /// The names of the filters, in order.
    pub fn filter_names(&self) -> (r: Vec<String>)
        ensures
            lines_view(r@) == self.names(),
    {
        let r = self.names.clone();
        proof {
            assert forall|i: int| 0 <= i < r@.len() implies r@[i]@ == self.names@[i]@ by {
                assert(vstd::pervasive::cloned::<String>(self.names@[i], r@[i]));
            }
            assert(lines_view(r@) =~= lines_view(self.names@));
        }
        r
    }

    fn find(&self, name: &String) -> (r: Option<usize>)
        requires
            self.wf(),
        ensures
            self.index_of(name@) < 0 <==> r is None,
            r matches Some(i) ==> i < self.filters().len() && i as int == self.index_of(name@)
                && self.names()[i as int] == name@,
    {
        proof {
            lemma_name_from(self.names(), name@, 0);
        }
        let mut i: usize = 0;
        while i < self.names.len()
            invariant
                self.wf(),
                i <= self.names@.len(),
                name_from(self.names(), name@, i as nat) == self.index_of(name@),
            decreases self.names@.len() - i,
        {
            if self.names[i].eq(name) {
                return Some(i);
            }
            i += 1;
        }
        None
    }

    /// The filter called `name`.
    pub fn filter(&self, name: &String) -> (r: Option<&BloomFilter>)
        requires
            self.wf(),
        ensures
            self.index_of(name@) < 0 <==> r is None,
            r matches Some(f) ==> *f == self.filters()[self.index_of(name@)],
    {
        match self.find(name) {
            Some(i) => Some(&self.filters[i]),
            None => None,
        }
    }
}

/// The reply when the server could not carry out a request, such as when
/// writing its disk changes failed.
pub fn failure_reply() -> (r: String)
    ensures
        r@ == internal_error(),
{
    "Internal Error\r\n".to_owned()
}

fn reply(text: &str) -> (r: Outcome)
    ensures
        is_reply(r, text@),
{
    Outcome::Reply { text: text.to_owned(), ops: Vec::new() }
}

fn line_of(n: u64) -> (r: String)
    ensures
        r@ == dec(n as nat) + seq!['\r', '\n'],
{
    let mut r = u64_to_string(n);
    push_char(&mut r, '\r');
    push_char(&mut r, '\n');
    r
}

/// The bytes of a key as the protocol carries it.
pub open spec fn key_bytes(k: Seq<char>) -> Seq<u8> {
    vstd::utf8::encode_utf8(k)
}

/// The generations of `keys` in `ls`, as decimal words.
pub open spec fn generation_words(ls: Seq<crate::bloom::LayerView>, keys: Seq<Seq<char>>) -> Seq<
    Seq<char>,
> {
    keys.map_values(|k: Seq<char>| dec(generation(ls, key_bytes(k))))
}

/// What setting `keys` in turn does to layers `ls` of a filter with `k`
/// probes and layers of `bytes` over pages of `ps` bytes: the layers after,
/// and the word each key answers, its new generation, or `E` when the key
/// needed a layer that could not be grown.
pub open spec fn bulk_run(
    ls: Seq<crate::bloom::LayerView>,
    keys: Seq<Seq<char>>,
    k: u32,
    bytes: u64,
    ps: u64,
) -> (Seq<crate::bloom::LayerView>, Seq<Seq<char>>)
    decreases keys.len(),
{
    if keys.len() == 0 {
        (ls, Seq::empty())
    } else {
        let (l0, w0) = bulk_run(ls, keys.drop_last(), k, bytes, ps);
        let kb = key_bytes(keys.last());
        if generation(l0, kb) < l0.len() || can_grow(k, bytes, ps, l0.len()) {
            (set_layers(l0, kb, fresh_layer(k, bytes, ps)), w0.push(dec(generation(l0, kb) + 1)))
        } else {
            (l0, w0.push("E"@))
        }
    }
}

fn make_filter_dir(data_dir: &String, name: &String) -> (r: String)
    ensures
        r@ == filter_dir(data_dir@, name@),
{
    let mut directory = data_dir.clone();
    push_all(&mut directory, "/filter.");
    push_all(&mut directory, name.as_str());
    directory
}

/// Whether loading filter `name` of `s` from `images` succeeds: the files were
/// read, and the filter is loaded already, kept only in memory, or the
/// images hold its layers.
pub open spec fn load_ok(s: BloomServer, name: Seq<char>, images: Option<Vec<Vec<u8>>>) -> bool {
    let e = s.filters()[s.index_of(name)];
    images matches Some(v) && (e.loaded() || e.spec_config().in_memory || crate::wrappers::images_loadable(
        v@,
        e.spec_config().k_num,
        e.spec_config().bytes,
        e.spec_config().filter_sizes@,
        e.spec_config().size,
        s.spec_page_size(),
    ))
}

/// The disk changes of flushing the first `n` filters `olds` into `news`, in order.
pub open spec fn all_flush_ops(olds: Seq<BloomFilter>, news: Seq<BloomFilter>, n: nat) -> Seq<
    crate::wrappers::OpView,
>
    decreases n,
{
    if n == 0 {
        Seq::empty()
    } else {
        all_flush_ops(olds, news, (n - 1) as nat) + crate::wrappers::entry_flush_ops(
            olds[n - 1],
            news[n - 1],
        )
    }
}

/// The directory of filter `name` under the data directory.
pub open spec fn filter_dir(data_dir: Seq<char>, name: Seq<char>) -> Seq<char> {
    data_dir + "/filter."@ + name
}

impl BloomServer {
    /// Answers `set filter key`: the key's new generation.
    pub fn process_set(&mut self, args: &Vec<String>) -> (r: Outcome)
        requires
            old(self).wf(),
        ensures
            final(self).wf(),
            set_post(*old(self), *final(self), lines_view(args@), r),
    {
        if args.len() != 2 {
            return reply("Client Error: Bad arguments\r\n");
        }
        let i = match self.find(&args[0]) {
            Some(i) => i,
            None => return reply("Filter does not exist\r\n"),
        };
        if !self.filters[i].is_loaded() {
            return self.need_layers(i, &args[0]);
        }
        let mut f = self.filters.remove(i);
        let ps = self.page_size;
        proof {
            crate::lbf::lemma_generation(f.layers(), key_bytes(args@[1]@));
        }
        let out = f.set(args[1].as_str(), ps);
        self.filters.insert(i, f);
        assert(self.filters@ =~= old(self).filters@.update(i as int, f));
        match out {
            Ok((g, ops)) => Outcome::Reply { text: line_of(g as u64), ops },
            Err(_) => reply("Internal Error\r\n"),
        }
    }

    /// Answers `check filter key`: the key's generation, zero when absent.
    pub fn process_check(&mut self, args: &Vec<String>) -> (r: Outcome)
        requires
            old(self).wf(),
        ensures
            final(self).wf(),
            check_post(*old(self), *final(self), lines_view(args@), r),
    {
        if args.len() != 2 {
            return reply("Client Error: Bad arguments\r\n");
        }
        let i = match self.find(&args[0]) {
            Some(i) => i,
            None => return reply("Filter does not exist\r\n"),
        };
        if !self.filters[i].is_loaded() {
            return self.need_layers(i, &args[0]);
        }
        let mut f = self.filters.remove(i);
        let g = f.check(args[1].as_str());
        self.filters.insert(i, f);
        assert(self.filters@ =~= old(self).filters@.update(i as int, f));
        Outcome::Reply { text: line_of(g as u64), ops: Vec::new() }
    }
}

/// What the options of a create make of the defaults: `capacity=N`,
/// `prob=P` and `in_memory=B` replace them when their value reads (a flag
/// reads as a number up to 255, on when not zero); any other option makes
/// the request bad.
pub open spec fn create_options(args: Seq<Seq<char>>, start: (u64, Decimal, bool)) -> Option<
    (u64, Decimal, bool),
>
    decreases args.len(),
{
    if args.len() == 0 {
        Some(start)
    } else {
        match create_options(args.drop_last(), start) {
            None => None,
            Some(st) => apply_create_option(st, args.last()),
        }
    }
}

/// What one create option makes of the settings so far.
pub open spec fn apply_create_option(st: (u64, Decimal, bool), a: Seq<char>) -> Option<
    (u64, Decimal, bool),
> {
    if is_prefix("capacity="@, a) {
        match crate::text::parsed_u64(a.skip(9)) {
            Some(v) => Some((v, st.1, st.2)),
            None => Some(st),
        }
    } else if is_prefix("prob="@, a) {
        match crate::decimal::parsed_decimal(a.skip(5)) {
            Some(d) => Some((st.0, d, st.2)),
            None => Some(st),
        }
    } else if is_prefix("in_memory="@, a) {
        match crate::text::parsed_u64(a.skip(10)) {
            Some(v) => if v <= 255 {
                Some((st.0, st.1, v > 0))
            } else {
                Some(st)
            },
            None => Some(st),
        }
    } else {
        None
    }
}

fn suffix(s: &String, n: usize) -> (r: String)
    requires
        n <= s@.len(),
    ensures
        r@ == s@.skip(n as int),
{
    let cs = crate::text::chars_of(s.as_str());
    crate::text::sub_string(&cs, n, cs.len())
}

fn apply_option(st: (u64, Decimal, bool), a: &String) -> (r: Option<(u64, Decimal, bool)>)
    ensures
        r == apply_create_option(st, a@),
{
    proof {
        reveal_strlit("capacity=");
        reveal_strlit("prob=");
        reveal_strlit("in_memory=");
    }
    if starts_with(a.as_str(), "capacity=") {
        let v = suffix(a, 9);
        match crate::text::parse_u64(v.as_str()) {
            Some(x) => Some((x, st.1, st.2)),
            None => Some(st),
        }
    } else if starts_with(a.as_str(), "prob=") {
        let v = suffix(a, 5);
        match Decimal::parse(v.as_str()) {
            Some(d) => Some((st.0, d, st.2)),
            None => Some(st),
        }
    } else if starts_with(a.as_str(), "in_memory=") {
        let v = suffix(a, 10);
        match crate::text::parse_u64(v.as_str()) {
            Some(x) => if x <= 255 {
                Some((st.0, st.1, x > 0))
            } else {
                Some(st)
            },
            None => Some(st),
        }
    } else {
        None
    }
}

impl BloomServer {
    /// Answers `multi filter key...`: the generation of each key.
    pub fn process_multi(&mut self, args: &Vec<String>) -> (r: Outcome)
        requires
            old(self).wf(),
        ensures
            final(self).wf(),
            multi_post(*old(self), *final(self), lines_view(args@), r),
    {
        if args.len() < 2 {
            return reply("Client Error: Bad arguments\r\n");
        }
        let i = match self.find(&args[0]) {
            Some(i) => i,
            None => return reply("Filter does not exist\r\n"),
        };
        if !self.filters[i].is_loaded() {
            return self.need_layers(i, &args[0]);
        }
        let mut f = self.filters.remove(i);
        let ghost ls = f.layers();
        let ghost keys = lines_view(args@).drop_first();
        let mut out: Vec<String> = Vec::new();
        let mut k: usize = 1;
        while k < args.len()
            invariant
                f.wf(),
                f.loaded(),
                f.spec_directory() == old(self).filters@[i as int].spec_directory(),
                f.layers() == ls,
                f.spec_config() == old(self).filters@[i as int].spec_config(),
                k > 1 ==> f.spec_cold() == 0,
                f.spec_counters() == check_counts(old(self).filters@[i as int].spec_counters(), ls, keys.take(k - 1)),
                keys == lines_view(args@).drop_first(),
                1 <= k <= args@.len(),
                lines_view(out@) == generation_words(ls, keys.take(k - 1)),
            decreases args@.len() - k,
        {
            proof {
                assert(keys.take(k as int).drop_last() =~= keys.take(k - 1));
            }
            let g = f.check(args[k].as_str());
            let ghost o0 = out@;
            let s = u64_to_string(g as u64);
            out.push(s);
            proof {
                assert(keys[k - 1] == args@[k as int]@);
                assert(lines_view(out@) =~= lines_view(o0).push(s@));
                assert(generation_words(ls, keys.take(k as int)) =~= generation_words(ls, keys.take(k - 1)).push(dec(generation(ls, key_bytes(keys[k - 1])))));
            }
            k += 1;
        }
        assert(keys.take(k - 1) =~= keys);
        self.filters.insert(i, f);
        assert(self.filters@ =~= old(self).filters@.update(i as int, f));
        let mut text = crate::text::join_strings(&out, ' ');
        let ghost t0 = text@;
        push_char(&mut text, '\r');
        push_char(&mut text, '\n');
        assert(text@ =~= t0 + seq!['\r', '\n']);
        Outcome::Reply { text, ops: Vec::new() }
    }

    /// Answers `bulk filter key...`: sets each key in turn and answers each
    /// key's new generation; a key whose set fails answers `E`.
    pub fn process_bulk(&mut self, args: &Vec<String>) -> (r: Outcome)
        requires
            old(self).wf(),
        ensures
            final(self).wf(),
            bulk_post(*old(self), *final(self), lines_view(args@), r),
    {
        if args.len() < 2 {
            return reply("Client Error: Bad arguments\r\n");
        }
        let i = match self.find(&args[0]) {
            Some(i) => i,
            None => return reply("Filter does not exist\r\n"),
        };
        if !self.filters[i].is_loaded() {
            return self.need_layers(i, &args[0]);
        }
        let mut f = self.filters.remove(i);
        let ps = self.page_size;
        let ghost e = f;
        let ghost keys = lines_view(args@).drop_first();
        let mut out: Vec<String> = Vec::new();
        let mut ops: Vec<DiskOp> = Vec::new();
        let mut k: usize = 1;
        while k < args.len()
            invariant
                f.wf(),
                f.loaded(),
                f.spec_directory() == old(self).filters@[i as int].spec_directory(),
                1 <= k <= args@.len(),
                keys == lines_view(args@).drop_first(),
                ps == self.page_size,
                f.spec_config().k_num == e.spec_config().k_num,
                f.spec_config().bytes == e.spec_config().bytes,
                f.spec_config().in_memory == e.spec_config().in_memory,
                i < old(self).filters@.len(),
                e == old(self).filters@[i as int],
                f.spec_config().capacity == e.spec_config().capacity,
                f.spec_config().probability == e.spec_config().probability,
                k > 1 ==> f.spec_cold() == 0,
                (f.layers(), lines_view(out@)) == bulk_run(e.layers(), keys.take(k - 1), e.spec_config().k_num, e.spec_config().bytes, ps),
                f.spec_counters() == bulk_counters(e.spec_counters(), e.layers(), keys.take(k - 1), e.spec_config().k_num, e.spec_config().bytes, ps),
                crate::wrappers::ops_view(ops@) == bulk_ops(e.layers(), keys.take(k - 1), e.spec_config().k_num, e.spec_config().bytes, ps, e.spec_directory(), e.spec_config().in_memory),
            decreases args@.len() - k,
        {
            proof {
                assert(keys.take(k as int).drop_last() =~= keys.take(k - 1));
                assert(keys[k - 1] == args@[k as int]@);
            }
            let ghost o0 = out@;
            let ghost f0 = f;
            match f.set(args[k].as_str(), ps) {
                Ok((g, mut more)) => {
                    assert(crate::wrappers::ops_view(more@) == crate::wrappers::set_ops(f0, key_bytes(keys[k - 1]), ps));
                    let w = u64_to_string(g as u64);
                    out.push(w);
                    assert(lines_view(out@) =~= lines_view(o0).push(w@));
                    let ghost p0 = ops@;
                    let ghost m = more@;
                    ops.append(&mut more);
                    assert(crate::wrappers::ops_view(ops@) =~= crate::wrappers::ops_view(p0) + crate::wrappers::ops_view(m));
                    proof {
                        let kb = key_bytes(keys[k - 1]);
                        assert(keys.take(k as int).last() == keys[k - 1]);
                        let l0 = bulk_run(e.layers(), keys.take(k - 1), e.spec_config().k_num, e.spec_config().bytes, ps).0;
                        assert(l0 == f0.layers());
                        crate::lbf::lemma_generation(l0, kb);
                        if generation(l0, kb) == l0.len() && !e.spec_config().in_memory {
                            assert(can_grow(e.spec_config().k_num, e.spec_config().bytes, ps, l0.len()));
                            assert(crate::wrappers::ops_view(m) =~= seq![crate::wrappers::OpView::CreateFile(crate::wrappers::layer_path(e.spec_directory(), l0.len()), crate::wrappers::layer_len(e.spec_config().bytes, ps) as u64)]);
                        } else {
                            assert(crate::wrappers::ops_view(m) =~= Seq::<crate::wrappers::OpView>::empty());
                        }
                        assert(crate::wrappers::ops_view(ops@) =~= bulk_ops(e.layers(), keys.take(k as int), e.spec_config().k_num, e.spec_config().bytes, ps, e.spec_directory(), e.spec_config().in_memory));
                    }
                },
                Err(_) => {
                    let w = "E".to_owned();
                    out.push(w);
                    assert(lines_view(out@) =~= lines_view(o0).push(w@));
                },
            }
            k += 1;
        }
        assert(keys.take(k - 1) =~= keys);
        self.filters.insert(i, f);
        assert(self.filters@ =~= old(self).filters@.update(i as int, f));
        let mut text = crate::text::join_strings(&out, ' ');
        let ghost t0 = text@;
        push_char(&mut text, '\r');
        push_char(&mut text, '\n');
        assert(text@ =~= t0 + seq!['\r', '\n']);
        Outcome::Reply { text, ops }
    }

    /// Answers `create name [capacity=N] [prob=P] [in_memory=B]`: `Exists`
    /// when the filter is there, else asks for it to be made with the options
    /// applied over the server's defaults.
    pub fn process_create(&self, args: &Vec<String>) -> (r: Outcome)
        requires
            self.wf(),
        ensures
            create_post(*self, lines_view(args@), r),
    {
        if args.len() == 0 {
            return reply("Client Error: Bad arguments\r\n");
        }
        if self.find(&args[0]).is_some() {
            return reply("Exists\r\n");
        }
        let ghost opts = lines_view(args@).drop_first();
        let mut st = (self.config.initial_capacity, self.config.default_probability, self.config.in_memory);
        let mut k: usize = 1;
        while k < args.len()
            invariant
                self.wf(),
                self.index_of(args@[0]@) < 0,
                1 <= k <= args@.len(),
                opts == lines_view(args@).drop_first(),
                create_options(opts.take(k - 1), (self.config.initial_capacity, self.config.default_probability, self.config.in_memory)) == Some(st),
            decreases args@.len() - k,
        {
            assert(opts.take(k as int).drop_last() =~= opts.take(k - 1));
            assert(opts[k - 1] == args@[k as int]@);
            match apply_option(st, &args[k]) {
                Some(next) => st = next,
                None => {
                    proof {
                        lemma_create_options_prefix(opts, k as int, (self.config.initial_capacity, self.config.default_probability, self.config.in_memory));
                    }
                    return reply("Client Error: Bad arguments\r\n");
                },
            }
            k += 1;
        }
        assert(opts.take(k - 1) =~= opts);
        let directory = make_filter_dir(&self.config.data_dir, &args[0]);
        Outcome::NeedCreate {
            name: args[0].clone(),
            directory,
            capacity: st.0,
            probability: st.1,
            in_memory: st.2,
        }
    }
}

/// The flush ops of the first `n` filters depend only on those filters.
proof fn lemma_all_flush_ops_prefix(olds: Seq<BloomFilter>, a: Seq<BloomFilter>, b: Seq<BloomFilter>, n: nat)
    requires
        n < a.len(),
        a.len() == b.len(),
        forall|j: int| 0 <= j < n ==> a[j] == b[j],
    ensures
        all_flush_ops(olds, b, n + 1) == all_flush_ops(olds, a, n) + crate::wrappers::entry_flush_ops(olds[n as int], b[n as int]),
    decreases n,
{
    lemma_all_flush_ops_same(olds, a, b, n);
}

proof fn lemma_all_flush_ops_same(olds: Seq<BloomFilter>, a: Seq<BloomFilter>, b: Seq<BloomFilter>, n: nat)
    requires
        n <= a.len(),
        n <= b.len(),
        forall|j: int| 0 <= j < n ==> a[j] == b[j],
    ensures
        all_flush_ops(olds, a, n) == all_flush_ops(olds, b, n),
    decreases n,
{
    if n > 0 {
        lemma_all_flush_ops_same(olds, a, b, (n - 1) as nat);
    }
}

/// What `process_set` does: the reply and the state after it, for arguments `a`.
pub open spec fn set_post(old: BloomServer, new: BloomServer, a: Seq<Seq<char>>, r: Outcome) -> bool {
    &&& new.spec_config() == old.spec_config()
    &&& new.spec_page_size() == old.spec_page_size()
    &&& forall|j: int| 0 <= j < old.filters().len() && (a.len() == 0 || j != old.index_of(a[0])) ==> #[trigger] new.filters()[j] == old.filters()[j]
    &&& new.names() == old.names()
    &&& new.filters().len() == old.filters().len()
    &&& a.len() != 2 ==> is_reply(r, bad_args()) && new.filters() == old.filters()
    &&& a.len() == 2 && old.index_of(a[0]) < 0 ==> is_reply(r, no_exist())
                    && new.filters() == old.filters()
    &&& a.len() == 2 && old.index_of(a[0]) >= 0 && !old.filters()[old.index_of(a[0])].loaded()
                    ==> (r matches Outcome::NeedLayers { name, paths } && name@ == a[0]
                    && lines_view(paths@) == old.filters()[old.index_of(a[0])].spec_config().view().bitmap_filenames)
                    && new.filters() == old.filters()
    &&& a.len() == 2 && old.index_of(a[0]) >= 0 && old.filters()[old.index_of(a[0])].loaded()
                    ==> ({
                    let i = old.index_of(a[0]);
                    let e = old.filters()[i];
                    let kb = key_bytes(a[1]);
                    let g = generation(e.layers(), kb);
                    r matches Outcome::Reply { text, ops } && if g < e.layers().len() || can_grow(
                        e.spec_config().k_num,
                        e.spec_config().bytes,
                        old.spec_page_size(),
                        e.layers().len(),
                    ) {
                        text@ == dec(g + 1) + seq!['\r', '\n'] && new.filters()[i].loaded()
                            && crate::wrappers::ops_view(ops@) == crate::wrappers::set_ops(e, kb, old.spec_page_size())
                            && lines_view(new.filters()[i].spec_config().bitmap_filenames@) == crate::wrappers::set_files(e, kb)
                            && new.filters()[i].spec_directory() == e.spec_directory()
                            && new.filters()[i].spec_config().k_num == e.spec_config().k_num
                            && new.filters()[i].spec_config().bytes == e.spec_config().bytes
                            && new.filters()[i].spec_config().in_memory == e.spec_config().in_memory
                            && new.filters()[i].spec_config().capacity == e.spec_config().capacity
                            && new.filters()[i].spec_config().probability == e.spec_config().probability
                            && new.filters()[i].spec_config().filter_name@ == e.spec_config().filter_name@
                            && new.filters()[i].layers()
                            == set_layers(e.layers(), kb, fresh_layer(e.spec_config().k_num, e.spec_config().bytes, old.spec_page_size()))
                            && new.filters()[i].spec_config().size == new.filters()[i].layers()[0].count
                            && new.filters()[i].spec_config().filter_sizes@[g as int] == new.filters()[i].layers()[g as int].count
                            && new.filters()[i].spec_cold() == 0
                            && new.filters()[i].spec_counters() == (if g > 0 {
                                crate::wrappers::BloomFilterCounters {
                                    set_hits: crate::wrappers::sat_add(e.spec_counters().set_hits, 1),
                                    ..e.spec_counters()
                                }
                            } else {
                                crate::wrappers::BloomFilterCounters {
                                    set_misses: crate::wrappers::sat_add(e.spec_counters().set_misses, 1),
                                    ..e.spec_counters()
                                }
                            })
                    } else {
                        text@ == internal_error() && new.filters()[i].layers() == e.layers()
                            && new.filters()[i].loaded()
                    }
                })
}

/// What `process_check` does: the reply and the state after it, for arguments `a`.
pub open spec fn check_post(old: BloomServer, new: BloomServer, a: Seq<Seq<char>>, r: Outcome) -> bool {
    &&& new.spec_config() == old.spec_config()
    &&& new.spec_page_size() == old.spec_page_size()
    &&& forall|j: int| 0 <= j < old.filters().len() && (a.len() == 0 || j != old.index_of(a[0])) ==> #[trigger] new.filters()[j] == old.filters()[j]
    &&& new.names() == old.names()
    &&& new.filters().len() == old.filters().len()
    &&& a.len() != 2 ==> is_reply(r, bad_args()) && new.filters() == old.filters()
    &&& a.len() == 2 && old.index_of(a[0]) < 0 ==> is_reply(r, no_exist())
                    && new.filters() == old.filters()
    &&& a.len() == 2 && old.index_of(a[0]) >= 0 && !old.filters()[old.index_of(a[0])].loaded()
                    ==> (r matches Outcome::NeedLayers { name, paths } && name@ == a[0]
                    && lines_view(paths@) == old.filters()[old.index_of(a[0])].spec_config().view().bitmap_filenames)
                    && new.filters() == old.filters()
    &&& a.len() == 2 && old.index_of(a[0]) >= 0 && old.filters()[old.index_of(a[0])].loaded()
                    ==> ({
                    let i = old.index_of(a[0]);
                    let e = old.filters()[i];
                    is_reply(r, dec(generation(e.layers(), key_bytes(a[1]))) + seq!['\r', '\n'])
                        && new.filters()[i].layers() == e.layers()
                        && new.filters()[i].loaded()
                        && new.filters()[i].spec_config() == e.spec_config()
                        && new.filters()[i].spec_cold() == 0
                        && new.filters()[i].spec_counters() == (if generation(e.layers(), key_bytes(a[1])) > 0 {
                            crate::wrappers::BloomFilterCounters {
                                check_hits: crate::wrappers::sat_add(e.spec_counters().check_hits, 1),
                                ..e.spec_counters()
                            }
                        } else {
                            crate::wrappers::BloomFilterCounters {
                                check_misses: crate::wrappers::sat_add(e.spec_counters().check_misses, 1),
                                ..e.spec_counters()
                            }
                        })
                })
}

/// What `process_multi` does: the reply and the state after it, for arguments `a`.
pub open spec fn multi_post(old: BloomServer, new: BloomServer, a: Seq<Seq<char>>, r: Outcome) -> bool {
    &&& new.spec_config() == old.spec_config()
    &&& new.spec_page_size() == old.spec_page_size()
    &&& forall|j: int| 0 <= j < old.filters().len() && (a.len() == 0 || j != old.index_of(a[0])) ==> #[trigger] new.filters()[j] == old.filters()[j]
    &&& new.names() == old.names()
    &&& new.filters().len() == old.filters().len()
    &&& a.len() < 2 ==> is_reply(r, bad_args()) && new.filters() == old.filters()
    &&& a.len() >= 2 && old.index_of(a[0]) < 0 ==> is_reply(r, no_exist())
                    && new.filters() == old.filters()
    &&& a.len() >= 2 && old.index_of(a[0]) >= 0 && !old.filters()[old.index_of(a[0])].loaded()
                    ==> (r matches Outcome::NeedLayers { name, paths } && name@ == a[0]
                    && lines_view(paths@) == old.filters()[old.index_of(a[0])].spec_config().view().bitmap_filenames)
                    && new.filters() == old.filters()
    &&& a.len() >= 2 && old.index_of(a[0]) >= 0 && old.filters()[old.index_of(a[0])].loaded()
                    ==> ({
                    let i = old.index_of(a[0]);
                    let e = old.filters()[i];
                    is_reply(r, crate::text::join_on(generation_words(e.layers(), a.drop_first()), ' ') + seq!['\r', '\n'])
                        && new.filters()[i].layers() == e.layers()
                        && new.filters()[i].loaded()
                        && new.filters()[i].spec_config() == e.spec_config()
                        && new.filters()[i].spec_directory() == e.spec_directory()
                        && new.filters()[i].spec_cold() == 0
                        && new.filters()[i].spec_counters() == check_counts(e.spec_counters(), e.layers(), a.drop_first())
                })
}

/// The counters after checking `keys` in turn against layers `ls`: a hit
/// for each key of positive generation, else a miss.
pub open spec fn check_counts(
    c: crate::wrappers::BloomFilterCounters,
    ls: Seq<crate::bloom::LayerView>,
    keys: Seq<Seq<char>>,
) -> crate::wrappers::BloomFilterCounters
    decreases keys.len(),
{
    if keys.len() == 0 {
        c
    } else {
        let c0 = check_counts(c, ls, keys.drop_last());
        if generation(ls, key_bytes(keys.last())) > 0 {
            crate::wrappers::BloomFilterCounters { check_hits: crate::wrappers::sat_add(c0.check_hits, 1), ..c0 }
        } else {
            crate::wrappers::BloomFilterCounters { check_misses: crate::wrappers::sat_add(c0.check_misses, 1), ..c0 }
        }
    }
}

/// The counters after setting `keys` in turn on layers `ls`: a set hit for
/// each key of positive generation, a set miss for each other, none for a
/// key whose set failed.
pub open spec fn bulk_counters(
    c: crate::wrappers::BloomFilterCounters,
    ls: Seq<crate::bloom::LayerView>,
    keys: Seq<Seq<char>>,
    k: u32,
    bytes: u64,
    ps: u64,
) -> crate::wrappers::BloomFilterCounters
    decreases keys.len(),
{
    if keys.len() == 0 {
        c
    } else {
        let c0 = bulk_counters(c, ls, keys.drop_last(), k, bytes, ps);
        let l0 = bulk_run(ls, keys.drop_last(), k, bytes, ps).0;
        let g = generation(l0, key_bytes(keys.last()));
        if !(g < l0.len() || can_grow(k, bytes, ps, l0.len())) {
            c0
        } else if g > 0 {
            crate::wrappers::BloomFilterCounters { set_hits: crate::wrappers::sat_add(c0.set_hits, 1), ..c0 }
        } else {
            crate::wrappers::BloomFilterCounters { set_misses: crate::wrappers::sat_add(c0.set_misses, 1), ..c0 }
        }
    }
}

/// The disk changes of setting `keys` in turn on layers `ls` of a filter in
/// directory `dir`: a new layer file for each layer grown on disk.
pub open spec fn bulk_ops(
    ls: Seq<crate::bloom::LayerView>,
    keys: Seq<Seq<char>>,
    k: u32,
    bytes: u64,
    ps: u64,
    dir: Seq<char>,
    in_memory: bool,
) -> Seq<crate::wrappers::OpView>
    decreases keys.len(),
{
    if keys.len() == 0 {
        Seq::empty()
    } else {
        let o0 = bulk_ops(ls, keys.drop_last(), k, bytes, ps, dir, in_memory);
        let l0 = bulk_run(ls, keys.drop_last(), k, bytes, ps).0;
        let g = generation(l0, key_bytes(keys.last()));
        if g == l0.len() && can_grow(k, bytes, ps, l0.len()) && !in_memory {
            o0.push(crate::wrappers::OpView::CreateFile(crate::wrappers::layer_path(dir, l0.len()), crate::wrappers::layer_len(bytes, ps) as u64))
        } else {
            o0
        }
    }
}

/// What `process_bulk` does: the reply and the state after it, for arguments `a`.
pub open spec fn bulk_post(old: BloomServer, new: BloomServer, a: Seq<Seq<char>>, r: Outcome) -> bool {
    &&& new.spec_config() == old.spec_config()
    &&& new.spec_page_size() == old.spec_page_size()
    &&& forall|j: int| 0 <= j < old.filters().len() && (a.len() == 0 || j != old.index_of(a[0])) ==> #[trigger] new.filters()[j] == old.filters()[j]
    &&& new.names() == old.names()
    &&& new.filters().len() == old.filters().len()
    &&& a.len() < 2 ==> is_reply(r, bad_args()) && new.filters() == old.filters()
    &&& a.len() >= 2 && old.index_of(a[0]) < 0 ==> is_reply(r, no_exist())
                    && new.filters() == old.filters()
    &&& a.len() >= 2 && old.index_of(a[0]) >= 0 && !old.filters()[old.index_of(a[0])].loaded()
                    ==> (r matches Outcome::NeedLayers { name, paths } && name@ == a[0]
                    && lines_view(paths@) == old.filters()[old.index_of(a[0])].spec_config().view().bitmap_filenames)
                    && new.filters() == old.filters()
    &&& a.len() >= 2 && old.index_of(a[0]) >= 0 && old.filters()[old.index_of(a[0])].loaded()
                    ==> ({
                    let i = old.index_of(a[0]);
                    let e = old.filters()[i];
                    let run = bulk_run(e.layers(), a.drop_first(), e.spec_config().k_num, e.spec_config().bytes, old.spec_page_size());
                    &&& r matches Outcome::Reply { text, ops } && text@ == crate::text::join_on(run.1, ' ') + seq!['\r', '\n']
                        && crate::wrappers::ops_view(ops@) == bulk_ops(e.layers(), a.drop_first(), e.spec_config().k_num, e.spec_config().bytes, old.spec_page_size(), e.spec_directory(), e.spec_config().in_memory)
                    &&& new.filters()[i].layers() == run.0
                    &&& new.filters()[i].loaded()
                    &&& new.filters()[i].spec_directory() == e.spec_directory()
                    &&& new.filters()[i].spec_config().k_num == e.spec_config().k_num
                    &&& new.filters()[i].spec_config().bytes == e.spec_config().bytes
                    &&& new.filters()[i].spec_config().in_memory == e.spec_config().in_memory
                    &&& new.filters()[i].spec_config().capacity == e.spec_config().capacity
                    &&& new.filters()[i].spec_config().probability == e.spec_config().probability
                    &&& a.len() > 1 ==> new.filters()[i].spec_cold() == 0
                    &&& new.filters()[i].spec_counters() == bulk_counters(e.spec_counters(), e.layers(), a.drop_first(), e.spec_config().k_num, e.spec_config().bytes, old.spec_page_size())
                })
}

/// What `process_close` does: the reply and the state after it, for arguments `a`.
pub open spec fn close_post(old: BloomServer, new: BloomServer, a: Seq<Seq<char>>, r: Outcome) -> bool {
    &&& new.spec_config() == old.spec_config()
    &&& new.spec_page_size() == old.spec_page_size()
    &&& new.names() == old.names()
    &&& a.len() == 0 ==> is_reply(r, bad_args())
    &&& a.len() > 0 && old.index_of(a[0]) < 0 ==> is_reply(r, no_exist())
    &&& a.len() > 0 && old.index_of(a[0]) >= 0 ==> (r matches Outcome::Reply { text, ops } && text@ == done())
                    && !new.filters()[old.index_of(a[0])].loaded()
                    && new.filters()[old.index_of(a[0])].spec_config() == old.filters()[old.index_of(a[0])].spec_config()
                    && new.filters()[old.index_of(a[0])].spec_counters() == (if old.filters()[old.index_of(a[0])].loaded() {
                        crate::wrappers::BloomFilterCounters {
                            page_outs: crate::wrappers::sat_add(old.filters()[old.index_of(a[0])].spec_counters().page_outs, 1),
                            ..old.filters()[old.index_of(a[0])].spec_counters()
                        }
                    } else {
                        old.filters()[old.index_of(a[0])].spec_counters()
                    })
                    && (forall|j: int| 0 <= j < old.filters().len() && j != old.index_of(a[0]) ==> #[trigger] new.filters()[j] == old.filters()[j])
}

/// What `process_clear` does: the reply and the state after it, for arguments `a`.
pub open spec fn clear_post(old: BloomServer, new: BloomServer, a: Seq<Seq<char>>, r: Outcome) -> bool {
    &&& new.spec_config() == old.spec_config()
    &&& new.spec_page_size() == old.spec_page_size()
    &&& a.len() == 0 ==> is_reply(r, bad_args()) && new.names() == old.names()
    &&& a.len() > 0 && old.index_of(a[0]) < 0 ==> is_reply(r, no_exist()) && new.names() == old.names()
    &&& a.len() > 0 && old.index_of(a[0]) >= 0 ==> (r matches Outcome::Reply { text, ops } && text@ == done()
                    && crate::wrappers::keeps_dirs(ops@))
                    && new.names() == old.names().remove(old.index_of(a[0]))
                    && new.index_of(a[0]) < 0
                    && new.filters() == old.filters().remove(old.index_of(a[0]))
}

/// What `process_drop` does: the reply and the state after it, for arguments `a`.
pub open spec fn drop_post(old: BloomServer, new: BloomServer, a: Seq<Seq<char>>, r: Outcome) -> bool {
    &&& new.spec_config() == old.spec_config()
    &&& new.spec_page_size() == old.spec_page_size()
    &&& a.len() == 0 ==> is_reply(r, bad_args()) && new.names() == old.names()
    &&& a.len() > 0 && old.index_of(a[0]) < 0 ==> is_reply(r, no_exist()) && new.names() == old.names()
    &&& a.len() > 0 && old.index_of(a[0]) >= 0 ==> (r matches Outcome::Reply { text, ops } && text@ == done()
                    && ops@.len() == 1 && (ops@[0] matches DiskOp::RemoveDir { path } && path@ == old.filters()[old.index_of(a[0])].spec_directory()))
                    && new.names() == old.names().remove(old.index_of(a[0]))
                    && new.index_of(a[0]) < 0
                    && new.filters() == old.filters().remove(old.index_of(a[0]))
}

/// What `process_flush` does: the reply and the state after it, for arguments `a`.
pub open spec fn flush_post(old: BloomServer, new: BloomServer, a: Seq<Seq<char>>, r: Outcome) -> bool {
    &&& new.spec_config() == old.spec_config()
    &&& new.spec_page_size() == old.spec_page_size()
    &&& new.names() == old.names()
    &&& a.len() > 1 ==> is_reply(r, bad_args())
    &&& a.len() == 1 && old.index_of(a[0]) < 0 ==> is_reply(r, no_exist())
    &&& a.len() == 1 && old.index_of(a[0]) >= 0 ==> (r matches Outcome::Reply { text, ops } && text@ == done()
                    && crate::wrappers::ops_view(ops@) == crate::wrappers::entry_flush_ops(
                    old.filters()[old.index_of(a[0])],
                    new.filters()[old.index_of(a[0])],
                ))
    &&& a.len() == 0 ==> (r matches Outcome::Reply { text, ops } && text@ == done()
                    && crate::wrappers::ops_view(ops@) == all_flush_ops(old.filters(), new.filters(), old.filters().len()))
    &&& new.filters().len() == old.filters().len()
    &&& forall|i: int| 0 <= i < old.filters().len() ==> (#[trigger] new.filters()[i]).layers() == old.filters()[i].layers()
                    && new.filters()[i].loaded() == old.filters()[i].loaded()
}

/// What `process_create` does: the reply and the state after it, for arguments `a`.
pub open spec fn create_post(s: BloomServer, a: Seq<Seq<char>>, r: Outcome) -> bool {
    &&& a.len() == 0 ==> is_reply(r, bad_args())
    &&& a.len() > 0 && s.index_of(a[0]) >= 0 ==> is_reply(r, exists_reply())
    &&& a.len() > 0 && s.index_of(a[0]) < 0 ==> ({
                    let opts = create_options(
                        a.drop_first(),
                        (s.spec_config().initial_capacity, s.spec_config().default_probability, s.spec_config().in_memory),
                    );
                    &&& opts is None ==> is_reply(r, bad_args())
                    &&& opts matches Some(o) ==> (r matches Outcome::NeedCreate { name, directory, capacity, probability, in_memory }
                        && name@ == a[0] && directory@ == filter_dir(s.spec_config().data_dir@, a[0])
                        && capacity == o.0 && probability == o.1 && in_memory == o.2)
                })
}

/// What `process_info` does: the reply and the state after it, for arguments `a`.
pub open spec fn info_post(s: BloomServer, a: Seq<Seq<char>>, r: Outcome) -> bool {
    &&& a.len() == 0 ==> is_reply(r, bad_args())
    &&& a.len() > 0 && s.index_of(a[0]) < 0 ==> is_reply(r, no_exist())
    &&& a.len() > 0 && s.index_of(a[0]) >= 0 ==> is_reply(
                    r,
                    "START\r\n"@ + crate::wrappers::info_body(
                        s.filters()[s.index_of(a[0])].spec_config(),
                        s.filters()[s.index_of(a[0])].spec_counters(),
                    ) + "END\r\n"@,
                )
}

/// What `process_list` does: the reply and the state after it, for arguments `a`.
pub open spec fn list_post(s: BloomServer, a: Seq<Seq<char>>, r: Outcome) -> bool {
    &&& a.len() > 1 ==> is_reply(r, bad_args())
    &&& a.len() <= 1 ==> is_reply(
                    r,
                    "START\r\n"@ + list_body(
                        s.names(),
                        s.filters(),
                        if a.len() == 1 {
                            a[0]
                        } else {
                            Seq::empty()
                        },
                    ) + "END\r\n"@,
                )
}

/// The command a request line names: the first word's, or none.
pub open spec fn line_command(line: Seq<char>) -> CommandKind {
    if words(line).len() == 0 {
        CommandKind::Unknown
    } else {
        command_of(words(line)[0])
    }
}

/// What answering request line `line` does: the matching command's effect,
/// with the words after the command as its arguments; a line that names no
/// known command is answered as not supported and changes nothing.
pub open spec fn request_post(old: BloomServer, new: BloomServer, line: Seq<char>, r: Outcome) -> bool {
    let a = words(line).drop_first();
    match line_command(line) {
        CommandKind::Bulk => bulk_post(old, new, a, r),
        CommandKind::Check => check_post(old, new, a, r),
        CommandKind::Create => create_post(old, a, r) && new == old,
        CommandKind::Close => close_post(old, new, a, r),
        CommandKind::Clear => clear_post(old, new, a, r),
        CommandKind::Drop => drop_post(old, new, a, r),
        CommandKind::Info => info_post(old, a, r) && new == old,
        CommandKind::List => list_post(old, a, r) && new == old,
        CommandKind::Multi => multi_post(old, new, a, r),
        CommandKind::Flush => flush_post(old, new, a, r),
        CommandKind::SetKey => set_post(old, new, a, r),
        CommandKind::Unknown => is_reply(r, not_supported()) && new == old,
    }
}

/// No false negatives, request by request: a `set` of a key that succeeds,
/// then a `check` of the same key on the same filter, answers a generation
/// past the one the key had before the set, and so at least one.
pub proof fn lemma_set_then_check(
    s0: BloomServer,
    s1: BloomServer,
    s2: BloomServer,
    a: Seq<Seq<char>>,
    r1: Outcome,
    r2: Outcome,
)
    requires
        s0.wf(),
        a.len() == 2,
        s0.index_of(a[0]) >= 0,
        s0.filters()[s0.index_of(a[0])].loaded(),
        set_post(s0, s1, a, r1),
        check_post(s1, s2, a, r2),
        r1 matches Outcome::Reply { text, ops } && text@ != internal_error(),
    ensures
        ({
            let i = s0.index_of(a[0]);
            let kb = key_bytes(a[1]);
            let g2 = generation(s1.filters()[i].layers(), kb);
            &&& is_reply(r2, dec(g2) + seq!['\r', '\n'])
            &&& g2 >= generation(s0.filters()[i].layers(), kb) + 1
            &&& g2 >= 1
        }),
{
    s0.lemma_registry();
    let i = s0.index_of(a[0]);
    let e = s0.filters()[i];
    let kb = key_bytes(a[1]);
    crate::wrappers::lemma_entry_layers_ok(e);
    crate::lbf::lemma_generation(e.layers(), kb);
    let fresh = fresh_layer(e.spec_config().k_num, e.spec_config().bytes, s0.spec_page_size());
    if generation(e.layers(), kb) == e.layers().len() {
        crate::wrappers::lemma_fresh_layer_ok(e.spec_config().k_num, e.spec_config().bytes, s0.spec_page_size(), e.layers().len());
    }
    crate::lbf::lemma_set_layers(e.layers(), kb, fresh);
}

/// Monotone generation, request by request: two successful `set`s of the
/// same key on the same filter answer increasing generations.
pub proof fn lemma_set_then_set(
    s0: BloomServer,
    s1: BloomServer,
    s2: BloomServer,
    a: Seq<Seq<char>>,
    r1: Outcome,
    r2: Outcome,
)
    requires
        s0.wf(),
        a.len() == 2,
        s0.index_of(a[0]) >= 0,
        s0.filters()[s0.index_of(a[0])].loaded(),
        set_post(s0, s1, a, r1),
        set_post(s1, s2, a, r2),
        r1 matches Outcome::Reply { text, ops } && text@ != internal_error(),
        r2 matches Outcome::Reply { text, ops } && text@ != internal_error(),
    ensures
        ({
            let i = s0.index_of(a[0]);
            let kb = key_bytes(a[1]);
            &&& r1 matches Outcome::Reply { text, ops } && text@ == dec(generation(s0.filters()[i].layers(), kb) + 1) + seq!['\r', '\n']
            &&& r2 matches Outcome::Reply { text, ops } && text@ == dec(generation(s1.filters()[i].layers(), kb) + 1) + seq!['\r', '\n']
            &&& generation(s1.filters()[i].layers(), kb) + 1 > generation(s0.filters()[i].layers(), kb) + 1
        }),
{
    s0.lemma_registry();
    let i = s0.index_of(a[0]);
    let e = s0.filters()[i];
    let kb = key_bytes(a[1]);
    crate::wrappers::lemma_entry_layers_ok(e);
    crate::lbf::lemma_generation(e.layers(), kb);
    let fresh = fresh_layer(e.spec_config().k_num, e.spec_config().bytes, s0.spec_page_size());
    if generation(e.layers(), kb) == e.layers().len() {
        crate::wrappers::lemma_fresh_layer_ok(e.spec_config().k_num, e.spec_config().bytes, s0.spec_page_size(), e.layers().len());
    }
    crate::lbf::lemma_set_layers(e.layers(), kb, fresh);
}

/// Options that go bad on a prefix stay bad.
proof fn lemma_create_options_prefix(args: Seq<Seq<char>>, n: int, start: (u64, Decimal, bool))
    requires
        0 <= n <= args.len(),
        create_options(args.take(n), start) is None,
    ensures
        create_options(args, start) is None,
    decreases args.len() - n,
{
    if n < args.len() {
        assert(args.take(n + 1).drop_last() =~= args.take(n));
        lemma_create_options_prefix(args, n + 1, start);
    } else {
        assert(args.take(n) =~= args);
    }
}

impl BloomServer {
    fn insert_filter(&mut self, name: String, f: BloomFilter)
        requires
            old(self).wf(),
            f.wf(),
            old(self).index_of(name@) < 0,
            f.spec_directory() == filter_dir(old(self).spec_config().data_dir@, name@),
        ensures
            final(self).wf(),
            final(self).names() == old(self).names().push(name@),
            final(self).filters() == old(self).filters().push(f),
            final(self).spec_config() == old(self).spec_config(),
            final(self).spec_page_size() == old(self).spec_page_size(),
    {
        let ghost n0 = self.names@;
        proof {
            self.lemma_registry();
        }
        self.names.push(name);
        self.filters.push(f);
        assert(lines_view(self.names@) =~= lines_view(n0).push(name@));
        assert forall|i: int, j: int| 0 <= i < j < self.names@.len() implies self.names@[i]@ != self.names@[j]@ by {
            if j == n0.len() {
                assert(lines_view(n0)[i] == n0[i]@);
            }
        }
    }

    proof fn lemma_index_removed(&self, before: &BloomServer, i: int)
        requires
            before.wf(),
            self.wf(),
            0 <= i < before.names().len(),
            self.names() == before.names().remove(i),
        ensures
            self.index_of(before.names()[i]) < 0,
    {
        before.lemma_registry();
        self.lemma_registry();
        if self.names().contains(before.names()[i]) {
            let j = choose|j: int| 0 <= j < self.names().len() && self.names()[j] == before.names()[i];
            let j0 = if j < i { j } else { j + 1 };
            assert(self.names()[j] == before.names()[j0]);
        }
    }

    /// Asks for filter `i`, called `name`, to be loaded from its layer files.
    fn need_layers(&self, i: usize, name: &String) -> (r: Outcome)
        requires
            self.wf(),
            i < self.filters().len(),
        ensures
            r matches Outcome::NeedLayers { name: n, paths } && n@ == name@ && lines_view(paths@)
                == self.filters()[i as int].spec_config().view().bitmap_filenames,
    {
        let paths = self.filters[i].config().bitmap_filenames.clone();
        proof {
            assert forall|j: int| 0 <= j < paths@.len() implies paths@[j]@ == self.filters@[i as int].spec_config().bitmap_filenames@[j]@ by {
                assert(vstd::pervasive::cloned::<String>(self.filters@[i as int].spec_config().bitmap_filenames@[j], paths@[j]));
            }
            assert(lines_view(paths@) =~= self.filters@[i as int].spec_config().view().bitmap_filenames);
        }
        Outcome::NeedLayers { name: name.clone(), paths }
    }

    fn remove_at(&mut self, i: usize) -> (r: BloomFilter)
        requires
            old(self).wf(),
            i < old(self).filters().len(),
        ensures
            final(self).wf(),
            r.wf(),
            r == old(self).filters()[i as int],
            final(self).names() == old(self).names().remove(i as int),
            final(self).filters() == old(self).filters().remove(i as int),
            final(self).spec_config() == old(self).spec_config(),
            final(self).spec_page_size() == old(self).spec_page_size(),
    {
        let ghost n0 = self.names@;
        self.names.remove(i);
        let f = self.filters.remove(i);
        assert(lines_view(self.names@) =~= lines_view(n0).remove(i as int));
        assert forall|a: int, b: int| 0 <= a < b < self.names@.len() implies self.names@[a]@ != self.names@[b]@ by {
            let a0 = if a < i { a } else { a + 1 };
            let b0 = if b < i { b } else { b + 1 };
            assert(self.names@[a] == n0[a0]);
            assert(self.names@[b] == n0[b0]);
        }
        f
    }

    /// Makes a new, empty filter `name` in its directory under the data
    /// directory, with `bytes` per layer and `k_num` probes, and answers
    /// `Done`, with the directory and INI file to write (none for a filter
    /// kept only in memory); answers `Exists` when the name is taken.
    pub fn create_filter(
        &mut self,
        name: String,
        capacity: u64,
        probability: Decimal,
        in_memory: bool,
        bytes: u64,
        k_num: u32,
    ) -> (r: Outcome)
        requires
            old(self).wf(),
        ensures
            final(self).wf(),
            final(self).spec_config() == old(self).spec_config(),
            final(self).spec_page_size() == old(self).spec_page_size(),
            old(self).index_of(name@) >= 0 ==> is_reply(r, exists_reply()) && *final(self) == *old(self),
            old(self).index_of(name@) < 0 && probability.scale > MAX_SCALE ==> is_reply(r, bad_args()) && *final(self) == *old(self),
            old(self).index_of(name@) < 0 && probability.scale <= MAX_SCALE ==> ({
                let e = final(self).filters().last();
                let dir = filter_dir(old(self).spec_config().data_dir@, name@);
                &&& r matches Outcome::Reply { text, ops } && text@ == done() && (if in_memory {
                    ops@.len() == 0
                } else {
                    crate::wrappers::ops_view(ops@) == seq![crate::wrappers::OpView::MakeDir(dir)]
                        + crate::wrappers::ini_write(e)
                })
                &&& final(self).names() == old(self).names().push(name@)
                &&& final(self).filters().len() == final(self).names().len()
                &&& final(self).filters().drop_last() == old(self).filters()
                &&& e.spec_config().view() == (crate::config::FilterConfigView {
                    filter_name: name@,
                    capacity,
                    probability,
                    k_num,
                    in_memory,
                    bytes,
                    size: 0,
                    bitmap_filenames: Seq::empty(),
                    filter_sizes: Seq::empty(),
                })
                &&& e.spec_directory() == dir
                &&& e.loaded()
                &&& e.layers().len() == 0
                &&& e.spec_cold() == 0
                &&& e.spec_counters() == crate::wrappers::BloomFilterCounters::new_spec()
            }),
    {
        if self.find(&name).is_some() {
            return reply("Exists\r\n");
        }
        if probability.scale > MAX_SCALE {
            return reply("Client Error: Bad arguments\r\n");
        }
        let directory = make_filter_dir(&self.config.data_dir, &name);
        let params = crate::bloom::bloom_filter_params::new(bytes, k_num, capacity, probability);
        let config = crate::config::BloomFilterConfig::new(name.clone(), capacity, probability, k_num, in_memory, bytes);
        let lbf = crate::lbf::bloom_lbf::new(params, name.clone(), Vec::new());
        assert(lbf.view() =~= Seq::<crate::bloom::LayerView>::empty());
        assert(lines_view(config.bitmap_filenames@).len() == config.bitmap_filenames@.len());
        assert(config.filter_sizes@.len() == 0);
        let mut f = BloomFilter::new(config, lbf, directory.clone());
        let mut ops: Vec<DiskOp> = Vec::new();
        if !in_memory {
            let op = DiskOp::MakeDir { path: directory };
            ops.push(op);
            let ghost f0 = f;
            let mut more = f.flush();
            let ghost o0 = ops@;
            let ghost m = more@;
            ops.append(&mut more);
            assert(crate::wrappers::ops_view(ops@) =~= crate::wrappers::ops_view(o0) + crate::wrappers::ops_view(m));
            assert(crate::wrappers::ops_view(m) =~= crate::wrappers::ini_write(f0));
            assert(crate::wrappers::ini_write(f0) == crate::wrappers::ini_write(f));
        }
        let ghost s0 = self.filters();
        self.insert_filter(name, f);
        assert(self.filters().drop_last() =~= s0);
        Outcome::Reply { text: "Done\r\n".to_owned(), ops }
    }

    /// Registers filter `name`, unloaded, from the INI text found in its
    /// directory, and answers `Done`; answers `Exists` when the name is taken
    /// and an internal error when the text does not describe a filter.
    /// Recovery writes nothing.
    pub fn recover_filter(&mut self, name: String, ini_text: &str) -> (r: Outcome)
        requires
            old(self).wf(),
        ensures
            final(self).wf(),
            final(self).spec_config() == old(self).spec_config(),
            final(self).spec_page_size() == old(self).spec_page_size(),
            old(self).index_of(name@) >= 0 ==> is_reply(r, exists_reply()) && *final(self) == *old(self),
            old(self).index_of(name@) < 0 ==> ({
                let v = crate::inifile::read_lines((Seq::empty(), None), crate::text::split_on(ini_text@, '\n')).0;
                if crate::wrappers::entry_ini_ok(v) {
                    let e = final(self).filters().last();
                    &&& is_reply(r, done())
                    &&& final(self).names() == old(self).names().push(name@)
                    &&& final(self).filters().len() == final(self).names().len()
                    &&& final(self).filters().drop_last() == old(self).filters()
                    &&& crate::config::config_of(v) == Some(e.spec_config().view())
                    &&& crate::wrappers::counters_of(v) == Some(e.spec_counters())
                    &&& e.spec_directory() == filter_dir(old(self).spec_config().data_dir@, name@)
                    &&& !e.loaded()
                    &&& e.spec_cold() == 0
                } else {
                    is_reply(r, internal_error()) && *final(self) == *old(self)
                }
            }),
    {
        if self.find(&name).is_some() {
            return reply("Exists\r\n");
        }
        let mut ini = crate::inifile::IniFile::new();
        ini.read_text(ini_text);
        let directory = make_filter_dir(&self.config.data_dir, &name);
        match BloomFilter::from_ini(&ini, directory) {
            Ok(f) => {
                let ghost s0 = self.filters();
                self.insert_filter(name, f);
                assert(self.filters().drop_last() =~= s0);
                reply("Done\r\n")
            },
            Err(_) => reply("Internal Error\r\n"),
        }
    }

    /// Brings filter `name` into memory from the bytes of its layer files
    /// (nothing when they could not be read). Answers nothing when the filter
    /// is now loaded, else the reply to send: no such filter, or an internal
    /// error when the files could not be read or do not hold its layers.
    pub fn load_filter(&mut self, name: &String, images: Option<Vec<Vec<u8>>>) -> (r: Option<String>)
        requires
            old(self).wf(),
        ensures
            final(self).wf(),
            final(self).names() == old(self).names(),
            final(self).spec_config() == old(self).spec_config(),
            final(self).spec_page_size() == old(self).spec_page_size(),
            final(self).filters().len() == old(self).filters().len(),
            old(self).index_of(name@) < 0 ==> (r matches Some(t) && t@ == no_exist()) && final(self).filters() == old(self).filters(),
            old(self).index_of(name@) >= 0 && load_ok(*old(self), name@, images) ==> r is None
                && final(self).filters()[old(self).index_of(name@)].loaded(),
            old(self).index_of(name@) >= 0 && !load_ok(*old(self), name@, images) ==> (r matches Some(
                t,
            ) && t@ == internal_error()) && final(self).filters() == old(self).filters(),
            forall|j: int| 0 <= j < old(self).filters().len() && j != old(self).index_of(name@) ==> #[trigger] final(self).filters()[j] == old(self).filters()[j],
            old(self).index_of(name@) >= 0 && old(self).filters()[old(self).index_of(name@)].loaded() ==> final(self).filters() == old(self).filters(),
            old(self).index_of(name@) >= 0 && load_ok(*old(self), name@, images) && !old(self).filters()[old(self).index_of(name@)].loaded()
                ==> final(self).filters()[old(self).index_of(name@)].spec_counters() == (crate::wrappers::BloomFilterCounters {
                    page_ins: crate::wrappers::sat_add(old(self).filters()[old(self).index_of(name@)].spec_counters().page_ins, 1),
                    ..old(self).filters()[old(self).index_of(name@)].spec_counters()
                }),
            old(self).index_of(name@) >= 0 && load_ok(*old(self), name@, images) && !old(self).filters()[old(self).index_of(name@)].loaded()
                && !old(self).filters()[old(self).index_of(name@)].spec_config().in_memory ==> (images matches Some(v)
                && final(self).filters()[old(self).index_of(name@)].layers() == crate::wrappers::images_view(v@)
                && final(self).filters()[old(self).index_of(name@)].spec_config() == old(self).filters()[old(self).index_of(name@)].spec_config()),
    {
        let i = match self.find(name) {
            Some(i) => i,
            None => return Some("Filter does not exist\r\n".to_owned()),
        };
        let imgs = match images {
            Some(v) => v,
            None => return Some("Internal Error\r\n".to_owned()),
        };
        if self.filters[i].is_loaded() {
            return None;
        }
        let mut f = self.filters.remove(i);
        let out = f.load_layers(imgs, self.page_size);
        match out {
            Ok(()) => {
                self.filters.insert(i, f);
                assert(self.filters@ =~= old(self).filters@.update(i as int, f));
                None
            },
            Err(_) => {
                self.filters.insert(i, f);
                assert(self.filters@ =~= old(self).filters@);
                Some("Internal Error\r\n".to_owned())
            },
        }
    }

    /// Answers `close filter`: unloads it, keeping settings and counters.
    pub fn process_close(&mut self, args: &Vec<String>) -> (r: Outcome)
        requires
            old(self).wf(),
        ensures
            final(self).wf(),
            close_post(*old(self), *final(self), lines_view(args@), r),
    {
        if args.len() == 0 {
            return reply("Client Error: Bad arguments\r\n");
        }
        let i = match self.find(&args[0]) {
            Some(i) => i,
            None => return reply("Filter does not exist\r\n"),
        };
        let mut f = self.filters.remove(i);
        let ops = f.unload_filter();
        self.filters.insert(i, f);
        assert(self.filters@ =~= old(self).filters@.update(i as int, f));
        Outcome::Reply { text: "Done\r\n".to_owned(), ops }
    }

    /// Answers `clear filter`: writes it back and forgets it, leaving its
    /// files for a later create to recover.
    pub fn process_clear(&mut self, args: &Vec<String>) -> (r: Outcome)
        requires
            old(self).wf(),
        ensures
            final(self).wf(),
            clear_post(*old(self), *final(self), lines_view(args@), r),
    {
        if args.len() == 0 {
            return reply("Client Error: Bad arguments\r\n");
        }
        let i = match self.find(&args[0]) {
            Some(i) => i,
            None => return reply("Filter does not exist\r\n"),
        };
        let mut f = self.remove_at(i);
        proof {
            self.lemma_index_removed(old(self), i as int);
        }
        let ops = f.unload_filter();
        let mut all = f.flush();
        let mut rest = ops;
        let ghost a0 = all@;
        let ghost r0 = rest@;
        all.append(&mut rest);
        assert(all@ == a0 + r0);
        Outcome::Reply { text: "Done\r\n".to_owned(), ops: all }
    }

    /// Answers `drop filter`: forgets it and erases its directory.
    pub fn process_drop(&mut self, args: &Vec<String>) -> (r: Outcome)
        requires
            old(self).wf(),
        ensures
            final(self).wf(),
            drop_post(*old(self), *final(self), lines_view(args@), r),
    {
        if args.len() == 0 {
            return reply("Client Error: Bad arguments\r\n");
        }
        let i = match self.find(&args[0]) {
            Some(i) => i,
            None => return reply("Filter does not exist\r\n"),
        };
        let f = self.remove_at(i);
        proof {
            self.lemma_index_removed(old(self), i as int);
        }
        let op = f.delete();
        Outcome::Reply { text: "Done\r\n".to_owned(), ops: vec![op] }
    }
}

/// The body of a `list` reply: a line for each filter whose name begins
/// with `prefix`, in order.
pub open spec fn list_body(names: Seq<Seq<char>>, filters: Seq<BloomFilter>, prefix: Seq<char>) -> Seq<char>
    decreases names.len(),
{
    if names.len() == 0 || filters.len() < names.len() {
        Seq::empty()
    } else {
        list_body(names.drop_last(), filters.take(names.len() - 1), prefix) + if is_prefix(prefix, names.last()) {
            crate::wrappers::list_line(names.last(), filters[names.len() - 1].spec_config())
        } else {
            Seq::empty()
        }
    }
}

impl BloomServer {
    /// Answers `flush [filter]`: writes back the named filter, or all of them.
    pub fn process_flush(&mut self, args: &Vec<String>) -> (r: Outcome)
        requires
            old(self).wf(),
        ensures
            final(self).wf(),
            flush_post(*old(self), *final(self), lines_view(args@), r),
    {
        if args.len() > 1 {
            return reply("Client Error: Bad arguments\r\n");
        }
        if args.len() == 1 {
            let i = match self.find(&args[0]) {
                Some(i) => i,
                None => return reply("Filter does not exist\r\n"),
            };
            let mut f = self.filters.remove(i);
            let ops = f.flush();
            self.filters.insert(i, f);
            assert(self.filters@ =~= old(self).filters@.update(i as int, f));
            return Outcome::Reply { text: "Done\r\n".to_owned(), ops };
        }
        let ops = self.flush_all();
        Outcome::Reply { text: "Done\r\n".to_owned(), ops }
    }

    /// Writes back every filter.
    pub fn flush_all(&mut self) -> (r: Vec<DiskOp>)
        requires
            old(self).wf(),
        ensures
            final(self).wf(),
            final(self).spec_last_flush() == old(self).spec_last_flush(),
            final(self).spec_config() == old(self).spec_config(),
            final(self).spec_page_size() == old(self).spec_page_size(),
            final(self).names() == old(self).names(),
            final(self).filters().len() == old(self).filters().len(),
            forall|i: int| 0 <= i < old(self).filters().len() ==> (#[trigger] final(self).filters()[i]).layers() == old(self).filters()[i].layers()
                && final(self).filters()[i].loaded() == old(self).filters()[i].loaded(),
            crate::wrappers::ops_view(r@) == all_flush_ops(old(self).filters(), final(self).filters(), old(self).filters().len()),
    {
        let mut ops: Vec<DiskOp> = Vec::new();
        let mut i: usize = 0;
        while i < self.filters.len()
            invariant
                self.wf(),
                self.names() == old(self).names(),
                self.last_flush == old(self).last_flush,
                self.config == old(self).config,
                self.page_size == old(self).page_size,
                self.filters@.len() == old(self).filters@.len(),
                i <= self.filters@.len(),
                forall|j: int| 0 <= j < old(self).filters().len() ==> (#[trigger] self.filters@[j]).layers() == old(self).filters()[j].layers()
                    && self.filters@[j].loaded() == old(self).filters()[j].loaded(),
                forall|j: int| i <= j < self.filters@.len() ==> #[trigger] self.filters@[j] == old(self).filters@[j],
                crate::wrappers::ops_view(ops@) == all_flush_ops(old(self).filters(), self.filters(), i as nat),
            decreases self.filters@.len() - i,
        {
            let ghost prev = self.filters@;
            let mut f = self.filters.remove(i);
            let mut more = f.flush();
            self.filters.insert(i, f);
            assert(self.filters@ =~= prev.update(i as int, f));
            let ghost o0 = ops@;
            let ghost m = more@;
            ops.append(&mut more);
            proof {
                assert(crate::wrappers::ops_view(ops@) =~= crate::wrappers::ops_view(o0) + crate::wrappers::ops_view(m));
                lemma_all_flush_ops_prefix(old(self).filters(), prev, self.filters(), i as nat);
            }
            i += 1;
        }
        ops
    }

    /// Answers `info filter`: its settings and counters between `START` and `END`.
    pub fn process_info(&self, args: &Vec<String>) -> (r: Outcome)
        requires
            self.wf(),
        ensures
            info_post(*self, lines_view(args@), r),
    {
        if args.len() == 0 {
            return reply("Client Error: Bad arguments\r\n");
        }
        let i = match self.find(&args[0]) {
            Some(i) => i,
            None => return reply("Filter does not exist\r\n"),
        };
        let mut text = "START\r\n".to_owned();
        let body = self.filters[i].info_body();
        push_all(&mut text, body.as_str());
        push_all(&mut text, "END\r\n");
        Outcome::Reply { text, ops: Vec::new() }
    }

    /// Answers `list [prefix]`: a line for each filter whose name begins
    /// with the prefix, between `START` and `END`.
    pub fn process_list(&self, args: &Vec<String>) -> (r: Outcome)
        requires
            self.wf(),
        ensures
            list_post(*self, lines_view(args@), r),
    {
        if args.len() > 1 {
            return reply("Client Error: Bad arguments\r\n");
        }
        let prefix = if args.len() == 1 {
            args[0].clone()
        } else {
            String::new()
        };
        let ghost p = prefix@;
        let mut text = "START\r\n".to_owned();
        let ghost t0 = text@;
        let mut i: usize = 0;
        while i < self.names.len()
            invariant
                self.wf(),
                prefix@ == p,
                i <= self.names@.len(),
                text@ == t0 + list_body(self.names().take(i as int), self.filters().take(i as int), p),
            decreases self.names@.len() - i,
        {
            proof {
                assert(self.names().take(i + 1).drop_last() =~= self.names().take(i as int));
                assert(self.filters().take(i + 1).take(i as int) =~= self.filters().take(i as int));
                assert(self.names().take(i + 1).last() == self.names@[i as int]@);
                assert(self.filters().take(i + 1)[i as int] == self.filters@[i as int]);
            }
            if starts_with(self.names[i].as_str(), prefix.as_str()) {
                let line = self.filters[i].list_line(&self.names[i]);
                push_all(&mut text, line.as_str());
            }
            i += 1;
            assert(text@ =~= t0 + list_body(self.names().take(i as int), self.filters().take(i as int), p));
        }
        proof {
            assert(self.names().take(i as int) =~= self.names());
            assert(self.filters().take(i as int) =~= self.filters());
        }
        push_all(&mut text, "END\r\n");
        Outcome::Reply { text, ops: Vec::new() }
    }

    /// Answers a request line.
    pub fn interpret_request(&mut self, line: &str) -> (r: Outcome)
        requires
            old(self).wf(),
        ensures
            final(self).wf(),
            request_post(*old(self), *final(self), line@, r),
    {
        let req = parse_request(line);
        match req.kind {
            CommandKind::Bulk => self.process_bulk(&req.args),
            CommandKind::Check => self.process_check(&req.args),
            CommandKind::Create => self.process_create(&req.args),
            CommandKind::Close => self.process_close(&req.args),
            CommandKind::Clear => self.process_clear(&req.args),
            CommandKind::Drop => self.process_drop(&req.args),
            CommandKind::Info => self.process_info(&req.args),
            CommandKind::List => self.process_list(&req.args),
            CommandKind::Multi => self.process_multi(&req.args),
            CommandKind::Flush => self.process_flush(&req.args),
            CommandKind::SetKey => self.process_set(&req.args),
            CommandKind::Unknown => reply("Client Error: Command not supported\r\n"),
        }
    }

    /// One tick of the flush task at tick `now`: writes back every filter when
    /// more than `flush_interval / 60` ticks passed since the last flush.
    pub fn flush_tick(&mut self, now: u64) -> (r: Vec<DiskOp>)
        requires
            old(self).wf(),
        ensures
            final(self).spec_config() == old(self).spec_config(),
            final(self).spec_page_size() == old(self).spec_page_size(),
            final(self).wf(),
            final(self).names() == old(self).names(),
            final(self).filters().len() == old(self).filters().len(),
            forall|i: int| 0 <= i < old(self).filters().len() ==> (#[trigger] final(self).filters()[i]).layers() == old(self).filters()[i].layers()
                && final(self).filters()[i].loaded() == old(self).filters()[i].loaded(),
            old(self).flush_due(now) ==> final(self).spec_last_flush() == now
                && crate::wrappers::ops_view(r@) == all_flush_ops(old(self).filters(), final(self).filters(), old(self).filters().len()),
            !old(self).flush_due(now) ==> r@.len() == 0 && final(self).filters() == old(self).filters()
                && final(self).spec_last_flush() == old(self).spec_last_flush(),
    {
        let every: u64 = if self.config.flush_interval > 0 {
            (self.config.flush_interval / 60) as u64
        } else {
            0
        };
        if now >= self.last_flush && now - self.last_flush > every {
            self.last_flush = now;
            self.flush_all()
        } else {
            Vec::new()
        }
    }

    /// One tick of the eviction task: counts an idle tick on every filter and
    /// unloads each one idle for more than `cold_interval / 60` ticks.
    pub fn cold_tick(&mut self) -> (r: Vec<DiskOp>)
        requires
            old(self).wf(),
        ensures
            final(self).spec_config() == old(self).spec_config(),
            final(self).spec_page_size() == old(self).spec_page_size(),
            final(self).wf(),
            final(self).names() == old(self).names(),
            final(self).filters().len() == old(self).filters().len(),
            forall|i: int| 0 <= i < old(self).filters().len() ==> (#[trigger] final(self).filters()[i]).spec_cold() == sat_add_one(old(self).filters()[i].spec_cold()),
            forall|i: int| 0 <= i < old(self).filters().len() && sat_add_one(old(self).filters()[i].spec_cold()) > old(self).cold_limit() ==> !(#[trigger] final(self).filters()[i]).loaded(),
            forall|i: int| 0 <= i < old(self).filters().len() ==> (#[trigger] final(self).filters()[i]).spec_config() == old(self).filters()[i].spec_config()
                && final(self).filters()[i].spec_directory() == old(self).filters()[i].spec_directory(),
            forall|i: int| 0 <= i < old(self).filters().len() && sat_add_one(old(self).filters()[i].spec_cold()) <= old(self).cold_limit() ==> (#[trigger] final(self).filters()[i]).loaded() == old(self).filters()[i].loaded()
                && final(self).filters()[i].layers() == old(self).filters()[i].layers()
                && final(self).filters()[i].spec_counters() == old(self).filters()[i].spec_counters(),
            forall|i: int| 0 <= i < old(self).filters().len() && sat_add_one(old(self).filters()[i].spec_cold()) > old(self).cold_limit() ==> (#[trigger] final(self).filters()[i]).spec_counters() == if old(self).filters()[i].loaded() {
                crate::wrappers::BloomFilterCounters {
                    page_outs: crate::wrappers::sat_add(old(self).filters()[i].spec_counters().page_outs, 1),
                    ..old(self).filters()[i].spec_counters()
                }
            } else {
                old(self).filters()[i].spec_counters()
            },
            crate::wrappers::keeps_dirs(r@),
            (forall|i: int| 0 <= i < old(self).filters().len() ==> !(sat_add_one(old(self).filters()[i].spec_cold()) > old(self).cold_limit()
                && (#[trigger] old(self).filters()[i]).loaded() && !old(self).filters()[i].spec_config().in_memory)) ==> r@.len() == 0,
    {
        let limit: u64 = if self.config.cold_interval > 0 {
            (self.config.cold_interval / 60) as u64
        } else {
            0
        };
        let mut ops: Vec<DiskOp> = Vec::new();
        let mut i: usize = 0;
        while i < self.filters.len()
            invariant
                self.wf(),
                limit == old(self).cold_limit(),
                self.page_size == old(self).page_size,
                self.names() == old(self).names(),
                self.config == old(self).config,
                self.filters@.len() == old(self).filters@.len(),
                i <= self.filters@.len(),
                forall|j: int| 0 <= j < i ==> (#[trigger] self.filters@[j]).spec_cold() == sat_add_one(old(self).filters()[j].spec_cold()),
                forall|j: int| 0 <= j < i && sat_add_one(old(self).filters()[j].spec_cold()) > limit ==> !(#[trigger] self.filters@[j]).loaded(),
                forall|j: int| i <= j < self.filters@.len() ==> #[trigger] self.filters@[j] == old(self).filters@[j],
                forall|j: int| 0 <= j < i ==> (#[trigger] self.filters@[j]).spec_config() == old(self).filters()[j].spec_config()
                    && self.filters@[j].spec_directory() == old(self).filters()[j].spec_directory(),
                forall|j: int| 0 <= j < i && sat_add_one(old(self).filters()[j].spec_cold()) <= limit ==> (#[trigger] self.filters@[j]).loaded() == old(self).filters()[j].loaded()
                    && self.filters@[j].layers() == old(self).filters()[j].layers()
                    && self.filters@[j].spec_counters() == old(self).filters()[j].spec_counters(),
                forall|j: int| 0 <= j < i && sat_add_one(old(self).filters()[j].spec_cold()) > limit ==> (#[trigger] self.filters@[j]).spec_counters() == if old(self).filters()[j].loaded() {
                    crate::wrappers::BloomFilterCounters {
                        page_outs: crate::wrappers::sat_add(old(self).filters()[j].spec_counters().page_outs, 1),
                        ..old(self).filters()[j].spec_counters()
                    }
                } else {
                    old(self).filters()[j].spec_counters()
                },
                crate::wrappers::keeps_dirs(ops@),
                (forall|j: int| 0 <= j < i ==> !(sat_add_one(old(self).filters()[j].spec_cold()) > limit
                    && (#[trigger] old(self).filters()[j]).loaded() && !old(self).filters()[j].spec_config().in_memory)) ==> ops@.len() == 0,
            decreases self.filters@.len() - i,
        {
            let ghost prev = self.filters@;
            let mut f = self.filters.remove(i);
            f.tick_cold();
            if f.cold_index() > limit {
                let mut more = f.unload_filter();
                let ghost p0 = ops@;
                let ghost m = more@;
                ops.append(&mut more);
                assert(ops@ == p0 + m);
            }
            proof {
                let o = old(self).filters()[i as int];
                assert(o == prev[i as int]);
                if forall|j: int| 0 <= j < i + 1 ==> !(sat_add_one(old(self).filters()[j].spec_cold()) > limit
                    && (#[trigger] old(self).filters()[j]).loaded() && !old(self).filters()[j].spec_config().in_memory) {
                    assert(!(sat_add_one(o.spec_cold()) > limit && o.loaded() && !o.spec_config().in_memory));
                    assert forall|j: int| 0 <= j < i implies !(sat_add_one(old(self).filters()[j].spec_cold()) > limit
                        && (#[trigger] old(self).filters()[j]).loaded() && !old(self).filters()[j].spec_config().in_memory) by {}
                }
            }
            self.filters.insert(i, f);
            assert(self.filters@ =~= prev.update(i as int, f));
            i += 1;
        }
        ops
    }

    /// The tick of the last flush of every filter.
    pub closed spec fn spec_last_flush(&self) -> u64 {
        self.last_flush
    }

    /// Whether the flush task flushes at tick `now`: more than
    /// `flush_interval / 60` ticks have passed since the last flush.
    pub open spec fn flush_due(&self, now: u64) -> bool {
        let every: u64 = if self.spec_config().flush_interval > 0 {
            (self.spec_config().flush_interval / 60) as u64
        } else {
            0
        };
        now >= self.spec_last_flush() && now - self.spec_last_flush() > every
    }

    /// The idle ticks after which a filter is unloaded.
    pub open spec fn cold_limit(&self) -> u64 {
        if self.spec_config().cold_interval > 0 {
            (self.spec_config().cold_interval / 60) as u64
        } else {
            0
        }
    }
}

/// One more, saturating.
pub open spec fn sat_add_one(x: u64) -> u64 {
    crate::wrappers::sat_add(x, 1)
}

} // verus!
