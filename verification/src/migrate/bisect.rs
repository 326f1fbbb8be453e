//! Which earlier tests make a test fail.

use super::outcomes::{Phase, Rec};
use crate::config::{has_pytest_config, ConfigDir};
use crate::ddmin::{begin_with, ddmin, leads_to};
use crate::nodeids::{file_of, file_part, rest_of, rest_part};
use crate::numbers::{dec, dec_len, decimal};
use crate::ordered_map::OrderedMap;
use crate::paths::{
    below_root, common, components, components_of, dirs_between, inner_dirs, is_same_path,
    joined_path, lemma_joined_name, path_join, plain_name, relative_to, same_path,
    same_text_count, slice_from,
};
use crate::text::{
    clone_texts, concat_all, concat_texts, contains_text, is_digit, is_letter, join, joined,
    opt_text, replace_char, replaced, str_eq, texts, to_chars,
};
use vstd::prelude::*;

verus! {

broadcast use {crate::text::lemma_texts_push, crate::text::lemma_texts_add};

/// How many runs a search may take.
pub const DEFAULT_BUDGET: u32 = 80;

/// The options that keep tests in the order they were collected in.
pub open spec fn order_pins() -> Seq<Seq<char>> {
    seq!["-p"@, "no:randomly"@]
}

/// Lifts a limit on failures that would stop a run before the test in question.
pub open spec fn maxfail_lift() -> Seq<char> {
    "--maxfail=0"@
}

fn write_order_pins() -> (res: Vec<String>)
    ensures
        texts(res@) == order_pins(),
{
    let mut out: Vec<String> = Vec::new();
    out.push("-p".to_owned());
    out.push("no:randomly".to_owned());
    assert(texts(out@) =~= order_pins());
    out
}

/// Where sessions keep their caches.
pub struct Pins {
    pub cache_root: String,
    /// Whether it is a path of Windows.
    pub windows: bool,
}

/// The cache directory of a session.
pub open spec fn session_cache(windows: bool, cache_root: Seq<char>, session: u64) -> Seq<char> {
    joined_path(windows, cache_root, "s"@ + decimal(session as nat))
}

impl Pins {
    /// The arguments of a session: the order is kept, and the cache is one of its
    /// own.
    pub fn session(&self, session: u64, args: &[String]) -> (res: Vec<String>)
        ensures
            texts(res@) == session_args(*self, session, texts(args@)),
    {
        let mut name = String::from_str("s");
        name.append(dec(session).as_str());
        let mut out = write_order_pins();
        out.push("-o".to_owned());
        let mut cache = String::from_str("cache_dir=");
        cache.append(path_join(self.windows, self.cache_root.as_str(), name.as_str()).as_str());
        out.push(cache);
        let mut more = clone_texts(args);
        out.append(&mut more);
        out
    }
}

/// No two sessions share a cache.
pub proof fn theorem_sessions_have_their_own_cache(
    windows: bool,
    cache_root: Seq<char>,
    a: u64,
    b: u64,
)
    requires
        a != b,
    ensures
        session_cache(windows, cache_root, a) != session_cache(windows, cache_root, b),
{
    let x = decimal(a as nat);
    let y = decimal(b as nat);
    crate::numbers::theorem_decimal_reads_back(a as nat);
    crate::numbers::theorem_decimal_reads_back(b as nat);
    lemma_session_name(a);
    lemma_session_name(b);
    lemma_joined_name(windows, cache_root, "s"@ + x);
    lemma_joined_name(windows, cache_root, "s"@ + y);
    let s = session_cache(windows, cache_root, a);
    let t = session_cache(windows, cache_root, b);
    if s == t {
        let k = s.len() - x.len();
        reveal_strlit("s");
        assert(s.len() - x.len() == t.len() - y.len());
        assert(s.skip(k) =~= x);
        assert(t.skip(k) =~= y);
    }
}

proof fn lemma_session_name(n: u64)
    ensures
        plain_name("s"@ + decimal(n as nat)),
{
    let x = decimal(n as nat);
    let s = "s"@ + x;
    reveal_strlit("s");
    reveal_strlit(".");
    reveal_strlit("..");
    crate::numbers::theorem_decimal_reads_back(n as nat);
    assert(s[0] == 's');
    assert forall|i: int| 0 <= i < s.len() implies s[i] != '/' && s[i] != '\\' && s[i] != ':' by {
        if i > 0 {
            assert(s[i] == x[i - 1]);
            assert(is_digit(x[i - 1]));
        }
    }
}

/// The options that change the order of tests and cannot be taken back.
pub open spec fn blocking_order_flags() -> Seq<Seq<char>> {
    seq!["--nf"@, "--sw"@, "--sw-skip"@]
}

fn is_blocking(flag: &str) -> (res: bool)
    ensures
        res == blocking_order_flags().contains(flag@),
{
    let mut all: Vec<String> = Vec::new();
    all.push("--nf".to_owned());
    all.push("--sw".to_owned());
    all.push("--sw-skip".to_owned());
    assert(texts(all@) =~= blocking_order_flags());
    contains_text(all.as_slice(), flag)
}

/// The blocking options among those in effect.
pub open spec fn blocking(flags: Seq<Seq<char>>) -> Seq<Seq<char>>
    decreases flags.len(),
{
    if flags.len() == 0 {
        Seq::empty()
    } else {
        let before = blocking(flags.drop_last());
        if blocking_order_flags().contains(flags.last()) {
            before.push(flags.last())
        } else {
            before
        }
    }
}

fn find_blocking(flags: &[String]) -> (res: Vec<String>)
    ensures
        texts(res@) == blocking(texts(flags@)),
{
    let ghost all = texts(flags@);
    let mut out: Vec<String> = Vec::new();
    let mut i: usize = 0;
    assert(texts(out@) =~= blocking(all.take(0)));
    while i < flags.len()
        invariant
            i <= flags.len(),
            all == texts(flags@),
            texts(out@) == blocking(all.take(i as int)),
        decreases flags.len() - i,
    {
        proof {
            assert(all.take(i + 1).drop_last() =~= all.take(i as int));
            assert(all.take(i + 1).last() == flags@[i as int]@);
        }
        if is_blocking(flags[i].as_str()) {
            out.push(flags[i].clone());
        }
        i += 1;
    }
    assert(all.take(flags.len() as int) =~= all);
    out
}

/// Whether the order comes from the cache, so that a command needs a fresh one.
pub fn needs_fresh_cache(order_flags: &[String]) -> (res: bool)
    ensures
        res == reads_cache(texts(order_flags@)),
{
    contains_text(order_flags, "--ff") || contains_text(order_flags, "--lf")
}

/// The options that give a run the root, the configuration and the limit on
/// `conftest.py` that the collection had.
pub open spec fn pinned_options(
    rootdir: Seq<char>,
    inifile: Seq<char>,
    confcutdir: Seq<char>,
) -> Seq<Seq<char>> {
    seq!["--rootdir"@, rootdir, "-c"@, inifile, "--confcutdir"@, confcutdir]
}

/// Gives a run the root, the configuration and the limit that the collection had.
pub fn child_pins(rootdir: &str, inifile: &str, confcutdir: &str) -> (res: Vec<String>)
    ensures
        texts(res@) == pinned_options(rootdir@, inifile@, confcutdir@),
{
    let mut out: Vec<String> = Vec::new();
    out.push("--rootdir".to_owned());
    out.push(rootdir.to_owned());
    out.push("-c".to_owned());
    out.push(inifile.to_owned());
    out.push("--confcutdir".to_owned());
    out.push(confcutdir.to_owned());
    assert(texts(out@) =~= pinned_options(rootdir@, inifile@, confcutdir@));
    out
}

/// The configuration file that runs are given: the one that was loaded, or an empty
/// one in a directory of its own. Says whether it is to be made.
pub fn pinned_inifile(inifile: Option<String>, work: &str, windows: bool) -> (res: (String, bool))
    ensures
        is_pinned_file(opt_text(inifile), work@, windows, res.0@, res.1),
{
    match inifile {
        Some(ini) => (ini, false),
        None => (path_join(windows, path_join(windows, work, "config").as_str(), "pytest.ini"), true),
    }
}

/// What is said of a test that did not run.
pub open spec fn missing_text(victim: Seq<char>) -> Seq<char> {
    "rstest bisect: "@ + victim
        + " did not run in the child session (deselected by a pytest option such as -k/-m, a collection error, a crashed worker, or a plugin that ends the session early)"@
}

/// Says that a test did not run.
fn missing(victim: &str) -> (res: String)
    ensures
        res@ == missing_text(victim@),
{
    let mut out = String::from_str("rstest bisect: ");
    out.append(victim);
    out.append(" did not run in the child session (deselected by a pytest option such as -k/-m, a collection error, a crashed worker, or a plugin that ends the session early)");
    out
}

/// Whether a test failed in a run. That it did not run is an error, and no pass.
pub fn victim_failed(out: &OrderedMap<String, Rec>, victim: &String) -> (res: Result<bool, String>)
    ensures
        told_of(out@, victim@, res),
{
    match out.get(victim) {
        Some(r) => Ok(r.phase == Phase::Fail),
        None => Err(missing(victim.as_str())),
    }
}

/// The runs that a search makes, and how many it has left.
pub struct Runner {
    pub victim: String,
    pub budget: u32,
}

impl Runner {
    /// The tests of the next run: the given ones, and the victim last. None where
    /// the budget is spent.
    pub fn next_run(&mut self, preds: &[String]) -> (res: Option<Vec<String>>)
        ensures
            final(self).victim@ == old(self).victim@,
            next_as(*old(self), *final(self), texts(preds@), res),
    {
        if self.budget == 0 {
            return None;
        }
        self.budget = self.budget - 1;
        let mut sel = clone_texts(preds);
        sel.push(self.victim.clone());
        Some(sel)
    }
}

/// The lines that select tests, by absolute paths.
pub open spec fn selection_lines(
    windows: bool,
    rootdir: Seq<char>,
    sel: Seq<Seq<char>>,
) -> Seq<Seq<char>> {
    Seq::new(sel.len(), |i: int| joined_path(windows, rootdir, sel[i]) + "\n"@)
}

/// The content of a file that selects tests, in order, each on a line of its own.
pub fn argsfile_body(rootdir: &str, sel: &[String], windows: bool) -> (res: String)
    ensures
        res@ == concat_all(selection_lines(windows, rootdir@, texts(sel@))),
{
    let mut lines: Vec<String> = Vec::new();
    let mut i: usize = 0;
    while i < sel.len()
        invariant
            i <= sel.len(),
            lines.len() == i,
            forall|j: int|
                0 <= j < i ==> (#[trigger] lines@[j])@ == joined_path(windows, rootdir@, sel@[j]@) + "\n"@,
        decreases sel.len() - i,
    {
        let mut line = path_join(windows, rootdir, sel[i].as_str());
        line.append("\n");
        lines.push(line);
        i += 1;
    }
    assert(texts(lines@) =~= selection_lines(windows, rootdir@, texts(sel@)));
    concat_texts(lines.as_slice())
}

/// Where a selection of tests came from.
#[derive(Clone, Copy, Debug, PartialEq, Eq, Structural)]
pub enum Selection {
    Absent,
    /// From the user's arguments.
    User,
    /// From the configuration.
    Config,
}

/// Whether pytest took its arguments from a place.
pub open spec fn taken_from(source: Option<String>, place: Seq<char>) -> bool {
    source is Some && source.unwrap()@ == place
}

fn is_from(source: &Option<String>, place: &str) -> (res: bool)
    ensures
        res == taken_from(*source, place@),
{
    match source {
        Some(s) => str_eq(s.as_str(), place),
        None => false,
    }
}

/// Whether a collection without the user's arguments has to show who selected
/// tests.
pub fn needs_bare_collection(source: &Option<String>, user_args: usize) -> (res: bool)
    ensures
        res == asks_again(*source, user_args),
{
    is_from(source, "args") && user_args > 0
}

/// Where a selection of tests came from, given where pytest took its arguments from
/// with the user's arguments and without them.
pub fn selection_source(
    source: &Option<String>,
    user_args: usize,
    bare: &Option<String>,
) -> (res: Selection)
    ensures
        res == source_of(*source, user_args, *bare),
{
    if !is_from(source, "args") {
        Selection::Absent
    } else if user_args == 0 || is_from(bare, "args") {
        Selection::Config
    } else {
        Selection::User
    }
}

/// Whether only a part of the suite was collected, so that it is collected again
/// from its root.
pub fn collect_again(windows: bool, source: &Option<String>, root: &str, cwd: &str) -> (res: bool)
    ensures
        res == other_root(windows, *source, root@, cwd@),
{
    is_from(source, "invocation_dir") && !is_same_path(windows, root, cwd)
}

/// The collected id that is meant: the one the user's reading from where they are
/// gives, and else the one that is written.
pub open spec fn meant(
    windows: bool,
    nodeid: Seq<char>,
    ids: Seq<Seq<char>>,
    file: Option<Seq<char>>,
    rootdir: Seq<char>,
) -> Option<Seq<char>> {
    let here = match file {
        Some(path) => match below_root(windows, path, rootdir) {
            Some(rel) => Some(rel + rest_part(nodeid)),
            None => None,
        },
        None => None,
    };
    if here is Some && ids.contains(here.unwrap()) {
        here
    } else if ids.contains(nodeid) {
        Some(nodeid)
    } else {
        None
    }
}

/// Finds the collected id that is meant. `file` is the path of its file as the user
/// reads it, where there is such a file.
pub fn resolve_nodeid(
    nodeid: &str,
    ids: &[String],
    file: &Option<String>,
    rootdir: &str,
    windows: bool,
) -> (res: Option<String>)
    ensures
        opt_text(res) == meant(windows, nodeid@, texts(ids@), opt_text(*file), rootdir@),
{
    if let Some(path) = file {
        if let Some(rel) = relative_to(windows, path.as_str(), rootdir) {
            let mut cand = rel;
            cand.append(rest_of(nodeid).as_str());
            if contains_text(ids, cand.as_str()) {
                return Some(cand);
            }
        }
    }
    if contains_text(ids, nodeid) {
        Some(nodeid.to_owned())
    } else {
        None
    }
}

/// So many steps up.
pub open spec fn ups(n: nat) -> Seq<Seq<char>> {
    Seq::new(n, |i: int| ".."@)
}

/// An id of the suite as seen from a directory.
pub open spec fn seen_from(
    windows: bool,
    cwd: Seq<char>,
    rootdir: Seq<char>,
    id: Seq<char>,
) -> Seq<char> {
    let abs = joined_path(windows, rootdir, file_part(id));
    let here = components_of(windows, cwd);
    let there = components_of(windows, abs);
    let n = common(here, there);
    if n == 0 {
        abs + rest_part(id)
    } else {
        joined(ups((here.len() - n) as nat) + there.skip(n as int), "/"@) + rest_part(id)
    }
}

/// Writes an id of the suite as seen from a directory.
pub fn cwd_relative(cwd: &str, rootdir: &str, id: &str, windows: bool) -> (res: String)
    ensures
        res@ == seen_from(windows, cwd@, rootdir@, id@),
{
    let abs = path_join(windows, rootdir, file_of(id).as_str());
    let rest = rest_of(id);
    let here = components(windows, cwd);
    let there = components(windows, abs.as_str());
    let n = same_text_count(&here, &there);
    if n == 0 {
        let mut out = abs;
        out.append(rest.as_str());
        return out;
    }
    let up = here.len() - n;
    let mut parts: Vec<String> = Vec::new();
    let mut i: usize = 0;
    assert(texts(parts@) =~= ups(0));
    while i < up
        invariant
            i <= up,
            texts(parts@) == ups(i as nat),
        decreases up - i,
    {
        parts.push("..".to_owned());
        i += 1;
        assert(texts(parts@) =~= ups(i as nat));
    }
    let mut down = slice_from(&there, n);
    parts.append(&mut down);
    let mut out = join(parts.as_slice(), "/");
    out.append(rest.as_str());
    out
}

/// Whether a character means nothing special to a shell.
pub open spec fn plain_char(c: char) -> bool {
    is_letter(c) || is_digit(c) || c == '_' || c == '-' || c == '.' || c == '/' || c == ':' || c
        == '=' || c == '+' || c == ',' || c == '@' || c == '%'
}

/// Whether a text can stand in a command as it is.
pub open spec fn plain(s: Seq<char>) -> bool {
    s.len() > 0 && forall|i: int| 0 <= i < s.len() ==> plain_char(#[trigger] s[i])
}

/// A text as it is written in a command.
pub open spec fn quoted(s: Seq<char>) -> Seq<char> {
    if plain(s) {
        s
    } else {
        "'"@ + replaced(s, '\'', "'\\''"@) + "'"@
    }
}

/// Writes a text for a command.
pub fn shell_quote(s: &str) -> (res: String)
    ensures
        res@ == quoted(s@),
{
    let v = to_chars(s);
    let mut safe = v.len() > 0;
    let mut i: usize = 0;
    while i < v.len()
        invariant
            i <= v.len(),
            v@ == s@,
            safe == (v@.len() > 0 && forall|j: int| 0 <= j < i ==> plain_char(#[trigger] v@[j])),
        decreases v.len() - i,
    {
        let c = v[i];
        let ok = ('a' <= c && c <= 'z') || ('A' <= c && c <= 'Z') || ('0' <= c && c <= '9') || c
            == '_' || c == '-' || c == '.' || c == '/' || c == ':' || c == '=' || c == '+' || c
            == ',' || c == '@' || c == '%';
        assert(ok == plain_char(c));
        if !ok {
            safe = false;
        }
        i += 1;
    }
    if safe {
        return s.to_owned();
    }
    let mut out = String::from_str("'");
    out.append(replace_char(s, '\'', "'\\''").as_str());
    out.append("'");
    out
}

/// What a shell makes of a word: quotes are taken off, and a backslash outside of
/// quotes stands for the character behind it. Nothing where the word ends within
/// quotes or holds a special character outside of them.
pub open spec fn shell_word(t: Seq<char>, inside: bool) -> Option<Seq<char>>
    decreases t.len(),
{
    if t.len() == 0 {
        if inside {
            None
        } else {
            Some(Seq::empty())
        }
    } else if t[0] == '\'' {
        shell_word(t.skip(1), !inside)
    } else if inside || plain_char(t[0]) {
        match shell_word(t.skip(1), inside) {
            Some(rest) => Some(seq![t[0]] + rest),
            None => None,
        }
    } else if t[0] == '\\' && t.len() >= 2 {
        match shell_word(t.skip(2), false) {
            Some(rest) => Some(seq![t[1]] + rest),
            None => None,
        }
    } else {
        None
    }
}

proof fn lemma_replaced_first(s: Seq<char>, c: char, with: Seq<char>)
    requires
        s.len() > 0,
    ensures
        replaced(s, c, with) == (if s[0] == c {
            with
        } else {
            seq![s[0]]
        }) + replaced(s.skip(1), c, with),
    decreases s.len(),
{
    let head = if s[0] == c {
        with
    } else {
        seq![s[0]]
    };
    if s.len() == 1 {
        assert(s.drop_last() =~= Seq::empty());
        assert(s.skip(1) =~= Seq::empty());
        assert(replaced(s.drop_last(), c, with) =~= Seq::empty());
        assert(replaced(s.skip(1), c, with) =~= Seq::empty());
        assert(replaced(s, c, with) =~= head);
        assert(head + Seq::<char>::empty() =~= head);
    } else {
        lemma_replaced_first(s.drop_last(), c, with);
        assert(s.drop_last().skip(1) =~= s.skip(1).drop_last());
        let last = if s.last() == c {
            with
        } else {
            seq![s.last()]
        };
        assert(head + replaced(s.skip(1).drop_last(), c, with) + last =~= head + (replaced(
            s.skip(1).drop_last(),
            c,
            with,
        ) + last));
    }
}

proof fn lemma_quoted_reads_back(s: Seq<char>)
    ensures
        shell_word(replaced(s, '\'', "'\\''"@) + "'"@, true) == Some(s),
    decreases s.len(),
{
    reveal_strlit("'");
    reveal_strlit("'\\''");
    let mark = "'\\''"@;
    let t = replaced(s, '\'', mark) + "'"@;
    if s.len() == 0 {
        assert(t =~= seq!['\'']);
        assert(t.skip(1) =~= Seq::empty());
        assert(shell_word(t.skip(1), false) == Some(Seq::<char>::empty()));
        assert(s =~= Seq::empty());
    } else {
        let rest = s.skip(1);
        let u = replaced(rest, '\'', mark) + "'"@;
        lemma_quoted_reads_back(rest);
        lemma_replaced_first(s, '\'', mark);
        if s[0] == '\'' {
            assert(t =~= mark + u);
            assert(t[0] == '\'' && t[1] == '\\' && t[2] == '\'' && t[3] == '\'');
            let a = t.skip(1);
            assert(a[0] == '\\' && a[1] == '\'');
            let b = a.skip(2);
            assert(b[0] == '\'');
            assert(b.skip(1) =~= u);
            assert(shell_word(b, false) == Some(rest));
            assert(shell_word(a, false) == Some(seq!['\''] + rest));
            assert(shell_word(t, true) == Some(seq!['\''] + rest));
        } else {
            assert(t =~= seq![s[0]] + u);
            assert(t.skip(1) =~= u);
            assert(shell_word(t, true) == Some(seq![s[0]] + rest));
        }
        assert(seq![s[0]] + rest =~= s);
    }
}

proof fn lemma_plain_reads_back(s: Seq<char>)
    requires
        forall|i: int| 0 <= i < s.len() ==> plain_char(#[trigger] s[i]),
    ensures
        shell_word(s, false) == Some(s),
    decreases s.len(),
{
    if s.len() == 0 {
        assert(s =~= Seq::empty());
    } else {
        assert(plain_char(s[0]));
        assert forall|i: int| 0 <= i < s.skip(1).len() implies plain_char(
            #[trigger] s.skip(1)[i],
        ) by {
            assert(s.skip(1)[i] == s[i + 1]);
        }
        lemma_plain_reads_back(s.skip(1));
        assert(seq![s[0]] + s.skip(1) =~= s);
    }
}

/// A shell reads a quoted text as one word, and as the text that it was.
pub proof fn theorem_quoting_reads_back(s: Seq<char>)
    ensures
        shell_word(quoted(s), false) == Some(s),
{
    if plain(s) {
        lemma_plain_reads_back(s);
    } else {
        reveal_strlit("'");
        let t = quoted(s);
        lemma_quoted_reads_back(s);
        assert(t[0] == '\'');
        assert(t.skip(1) =~= replaced(s, '\'', "'\\''"@) + "'"@);
    }
}

/// Texts as they are written in a command.
pub open spec fn all_quoted(v: Seq<Seq<char>>) -> Seq<Seq<char>> {
    Seq::new(v.len(), |i: int| quoted(v[i]))
}

fn quote_all(v: &[String]) -> (res: Vec<String>)
    ensures
        texts(res@) == all_quoted(texts(v@)),
{
    let mut out: Vec<String> = Vec::new();
    let mut i: usize = 0;
    while i < v.len()
        invariant
            i <= v.len(),
            out.len() == i,
            forall|j: int| 0 <= j < i ==> (#[trigger] out@[j])@ == quoted(v@[j]@),
        decreases v.len() - i,
    {
        out.push(shell_quote(v[i].as_str()));
        i += 1;
    }
    assert(texts(out@) =~= all_quoted(texts(v@)));
    out
}

/// The files that make a directory the root of a suite, whatever they hold.
pub open spec fn always_config() -> Seq<Seq<char>> {
    seq!["pytest.ini"@, ".pytest.ini"@, "pytest.toml"@, ".pytest.toml"@, "setup.py"@]
}

/// Lists the files that make a directory the root of a suite.
pub fn always_config_names() -> (res: Vec<String>)
    ensures
        texts(res@) == always_config(),
{
    let mut out: Vec<String> = Vec::new();
    out.push("pytest.ini".to_owned());
    out.push(".pytest.ini".to_owned());
    out.push("pytest.toml".to_owned());
    out.push(".pytest.toml".to_owned());
    out.push("setup.py".to_owned());
    assert(texts(out@) =~= always_config());
    out
}

/// A directory between a test and the root of the suite.
pub struct NestedDir {
    /// The names of the files in it.
    pub names: Vec<String>,
    pub config: ConfigDir,
}

/// Whether a list holds the name of a file that makes its directory a root.
pub open spec fn roots_always(names: Seq<Seq<char>>) -> bool {
    exists|i: int| 0 <= i < always_config().len() && names.contains(#[trigger] always_config()[i])
}

fn has_root_file(names: &[String]) -> (res: bool)
    ensures
        res == roots_always(texts(names@)),
{
    let all = always_config_names();
    let mut i: usize = 0;
    while i < all.len()
        invariant
            i <= all.len(),
            texts(all@) == always_config(),
            forall|j: int|
                0 <= j < i ==> !texts(names@).contains(#[trigger] always_config()[j]),
        decreases all.len() - i,
    {
        assert(always_config()[i as int] == all@[i as int]@);
        if contains_text(names, all[i].as_str()) {
            return true;
        }
        i += 1;
    }
    false
}

/// Whether a directory would be taken for the root of the suite.
pub open spec fn re_roots(d: NestedDir) -> bool {
    roots_always(texts(d.names@)) || d.config.project() is Some
}

/// Whether `d` is something that `look` may find in a directory.
pub open spec fn seen_in<F: Fn(&str) -> NestedDir>(look: F, dir: Seq<char>, d: NestedDir) -> bool {
    exists|s: &str| s@ == dir && #[trigger] call_ensures(look, (s,), d)
}

/// Whether `look` may find nothing in a directory that would make it a root.
pub open spec fn passed_over<F: Fn(&str) -> NestedDir>(look: F, dir: Seq<char>) -> bool {
    exists|d: NestedDir| #[trigger] seen_in(look, dir, d) && !re_roots(d)
}

/// Whether `answer` says of a file if a plain run of it would be rooted elsewhere, going
/// by what `look` finds in the directories between the root of the suite and the file.
pub open spec fn nested_as<F: Fn(&str) -> NestedDir>(
    look: F,
    windows: bool,
    rootdir: Seq<char>,
    file: Seq<char>,
    answer: bool,
) -> bool {
    let dirs = inner_dirs(windows, rootdir, file);
    if answer {
        exists|i: int, d: NestedDir|
            0 <= i < dirs.len() && #[trigger] seen_in(look, dirs[i], d) && re_roots(d)
    } else {
        forall|i: int| 0 <= i < dirs.len() ==> passed_over(look, #[trigger] dirs[i])
    }
}

/// Whether a plain run of a file would be rooted elsewhere: at one of the directories
/// between it and the root of the suite. `look` looks into a directory.
pub fn under_nested_config<F: Fn(&str) -> NestedDir>(
    windows: bool,
    rootdir: &str,
    file: &str,
    look: &F,
) -> (res: bool)
    requires
        forall|dir: &str|
            inner_dirs(windows, rootdir@, file@).contains(dir@) ==> #[trigger] call_requires(
                *look,
                (dir,),
            ),
    ensures
        nested_as(*look, windows, rootdir@, file@, res),
{
    let dirs = dirs_between(windows, rootdir, file);
    let ghost all = inner_dirs(windows, rootdir@, file@);
    let mut i: usize = 0;
    while i < dirs.len()
        invariant
            i <= dirs.len(),
            texts(dirs@) == all,
            all == inner_dirs(windows, rootdir@, file@),
            forall|dir: &str| all.contains(dir@) ==> #[trigger] call_requires(*look, (dir,)),
            forall|j: int| 0 <= j < i ==> passed_over(*look, #[trigger] all[j]),
        decreases dirs.len() - i,
    {
        assert(all[i as int] == dirs@[i as int]@);
        let d = look(dirs[i].as_str());
        assert(seen_in(*look, all[i as int], d));
        let (configured, _) = has_pytest_config(&d.config);
        if configured || has_root_file(d.names.as_slice()) {
            assert(re_roots(d));
            return true;
        }
        i += 1;
    }
    false
}

/// The file of a test of the suite.
pub open spec fn file_in(windows: bool, rootdir: Seq<char>, id: Seq<char>) -> Seq<char> {
    joined_path(windows, rootdir, file_part(id))
}

/// Whether a plain run of some tests would be rooted elsewhere than at the root of the
/// suite, for one of them at least.
pub fn any_nested<F: Fn(&str) -> NestedDir>(
    windows: bool,
    rootdir: &str,
    ids: &[String],
    look: &F,
) -> (res: bool)
    requires
        forall|dir: &str, k: int|
            #![trigger call_requires(*look, (dir,)), ids@[k]]
            0 <= k < ids@.len() && inner_dirs(
                windows,
                rootdir@,
                file_in(windows, rootdir@, ids@[k]@),
            ).contains(dir@) ==> call_requires(*look, (dir,)),
    ensures
        if res {
            exists|k: int|
                0 <= k < ids@.len() && nested_as(
                    *look,
                    windows,
                    rootdir@,
                    file_in(windows, rootdir@, #[trigger] ids@[k]@),
                    true,
                )
        } else {
            forall|k: int|
                0 <= k < ids@.len() ==> nested_as(
                    *look,
                    windows,
                    rootdir@,
                    file_in(windows, rootdir@, #[trigger] ids@[k]@),
                    false,
                )
        },
{
    let mut k: usize = 0;
    while k < ids.len()
        invariant
            k <= ids.len(),
            forall|dir: &str, k: int|
                #![trigger call_requires(*look, (dir,)), ids@[k]]
                0 <= k < ids@.len() && inner_dirs(
                    windows,
                    rootdir@,
                    file_in(windows, rootdir@, ids@[k]@),
                ).contains(dir@) ==> call_requires(*look, (dir,)),
            forall|j: int|
                0 <= j < k ==> nested_as(
                    *look,
                    windows,
                    rootdir@,
                    file_in(windows, rootdir@, #[trigger] ids@[j]@),
                    false,
                ),
        decreases ids.len() - k,
    {
        let file = path_join(windows, rootdir, file_of(ids[k].as_str()).as_str());
        assert(file@ == file_in(windows, rootdir@, ids@[k as int]@));
        if under_nested_config(windows, rootdir, file.as_str(), look) {
            return true;
        }
        k += 1;
    }
    false
}

/// What a command that shows a failure is made of.
pub struct ReproCtx {
    pub cwd: String,
    pub rootdir: String,
    /// Whether paths are those of Windows.
    pub windows: bool,
    /// The configuration that was loaded.
    pub inifile: Option<String>,
    /// The cache that the command is given, where it needs one.
    pub fresh_cache: Option<String>,
    /// Whether a limit on failures is to be lifted.
    pub lift_maxfail: bool,
    /// Whether a plain run would be rooted elsewhere.
    pub nested: bool,
    pub python_flag: Option<String>,
    pub pytest_args: Vec<String>,
}

/// The options for another interpreter.
pub open spec fn python_options(flag: Option<String>) -> Seq<Seq<char>> {
    match flag {
        Some(py) => seq!["--python"@, quoted(py@)],
        None => Seq::empty(),
    }
}

/// The options for a fresh cache.
pub open spec fn cache_options(cache: Option<String>) -> Seq<Seq<char>> {
    match cache {
        Some(dir) => seq!["-o"@, quoted("cache_dir="@ + dir@), "--cache-clear"@],
        None => Seq::empty(),
    }
}

/// A file that is always there and always empty, which pytest reads no configuration
/// from.
pub open spec fn null_config(windows: bool) -> Seq<char> {
    if windows {
        "NUL"@
    } else {
        "/dev/null"@
    }
}

/// The options that keep the root and the configuration.
pub open spec fn root_options(ctx: ReproCtx) -> Seq<Seq<char>> {
    if ctx.nested {
        let root = quoted(ctx.rootdir@);
        match ctx.inifile {
            Some(ini) => seq!["--rootdir"@, root, "-c"@, quoted(ini@)],
            None => seq!["--rootdir"@, root, "-c"@, null_config(ctx.windows), "--confcutdir"@, root],
        }
    } else {
        Seq::empty()
    }
}

/// The options that lift a limit on failures.
pub open spec fn lift_options(lift: bool) -> Seq<Seq<char>> {
    if lift {
        seq![maxfail_lift()]
    } else {
        Seq::empty()
    }
}

/// Tests as they are named in a command.
pub open spec fn named_tests(ctx: ReproCtx, ids: Seq<Seq<char>>) -> Seq<Seq<char>> {
    Seq::new(ids.len(), |i: int| quoted(seen_from(ctx.windows, ctx.cwd@, ctx.rootdir@, ids[i])))
}

/// The parts of a command that shows a failure.
pub open spec fn repro_parts(
    ctx: ReproCtx,
    culprits: Seq<Seq<char>>,
    victim: Seq<char>,
) -> Seq<Seq<char>> {
    seq!["rstest"@, "-n"@, "0"@] + python_options(ctx.python_flag) + order_pins() + cache_options(
        ctx.fresh_cache,
    ) + root_options(ctx) + all_quoted(texts(ctx.pytest_args@)) + lift_options(ctx.lift_maxfail)
        + named_tests(ctx, culprits.push(victim))
}

/// Writes the shortest command that shows a failure: the culprits, and the victim
/// last.
pub fn repro_command(ctx: &ReproCtx, culprits: &[String], victim: &str) -> (res: String)
    ensures
        res@ == joined(repro_parts(*ctx, texts(culprits@), victim@), " "@),
{
    let mut parts: Vec<String> = Vec::new();
    parts.push("rstest".to_owned());
    parts.push("-n".to_owned());
    parts.push("0".to_owned());
    assert(texts(parts@) =~= seq!["rstest"@, "-n"@, "0"@]);
    let mut more: Vec<String> = Vec::new();
    if let Some(py) = &ctx.python_flag {
        more.push("--python".to_owned());
        more.push(shell_quote(py.as_str()));
    }
    assert(texts(more@) =~= python_options(ctx.python_flag));
    parts.append(&mut more);
    let mut more = write_order_pins();
    parts.append(&mut more);
    let mut more: Vec<String> = Vec::new();
    if let Some(dir) = &ctx.fresh_cache {
        more.push("-o".to_owned());
        let mut cache = String::from_str("cache_dir=");
        cache.append(dir.as_str());
        more.push(shell_quote(cache.as_str()));
        more.push("--cache-clear".to_owned());
    }
    assert(texts(more@) =~= cache_options(ctx.fresh_cache));
    parts.append(&mut more);
    let mut more: Vec<String> = Vec::new();
    if ctx.nested {
        more.push("--rootdir".to_owned());
        more.push(shell_quote(ctx.rootdir.as_str()));
        more.push("-c".to_owned());
        match &ctx.inifile {
            Some(ini) => {
                more.push(shell_quote(ini.as_str()));
            },
            None => {
                more.push(if ctx.windows { "NUL" } else { "/dev/null" }.to_owned());
                more.push("--confcutdir".to_owned());
                more.push(shell_quote(ctx.rootdir.as_str()));
            },
        }
    }
    assert(texts(more@) =~= root_options(*ctx));
    parts.append(&mut more);
    let mut more = quote_all(ctx.pytest_args.as_slice());
    parts.append(&mut more);
    let mut more: Vec<String> = Vec::new();
    if ctx.lift_maxfail {
        more.push("--maxfail=0".to_owned());
    }
    assert(texts(more@) =~= lift_options(ctx.lift_maxfail));
    parts.append(&mut more);
    let mut ids = clone_texts(culprits);
    ids.push(victim.to_owned());
    let ghost all = texts(ids@);
    let mut named: Vec<String> = Vec::new();
    let mut i: usize = 0;
    while i < ids.len()
        invariant
            i <= ids.len(),
            named.len() == i,
            forall|j: int|
                0 <= j < i ==> (#[trigger] named@[j])@ == quoted(
                    seen_from(ctx.windows, ctx.cwd@, ctx.rootdir@, ids@[j]@),
                ),
        decreases ids.len() - i,
    {
        let id = cwd_relative(
            ctx.cwd.as_str(),
            ctx.rootdir.as_str(),
            ids[i].as_str(),
            ctx.windows,
        );
        named.push(shell_quote(id.as_str()));
        i += 1;
    }
    assert(texts(named@) =~= named_tests(*ctx, all));
    parts.append(&mut named);
    join(parts.as_slice(), " ")
}

/// What pytest reported of a collection.
pub struct Collected {
    pub ids: Vec<String>,
    /// The options in effect that change the order of tests or cut runs short.
    pub order_flags: Vec<String>,
}

/// What a search is about.
pub struct Plan {
    pub victim: String,
    /// The tests before it, in the order they were collected.
    pub preds: Vec<String>,
    pub fresh_cache: bool,
    pub lift_maxfail: bool,
}

/// What is said where the user selected tests.
pub open spec fn user_selection_text() -> Seq<char> {
    "rstest bisect: the pytest args after `--` include a test selection (a path or nodeid). Pass only pytest options there; bisect selects tests by nodeid itself."@
}

/// What is said where the configuration selected tests.
pub open spec fn config_selection_text() -> Seq<char> {
    "rstest bisect: the ini `addopts` (or PYTEST_ADDOPTS) names test paths, which pytest adds to every run, so bisect can't run an exact selection. Override it with the options alone, e.g. `rstest bisect <nodeid> -- -o addopts=\"<options only>\"`, or unset PYTEST_ADDOPTS."@
}

/// What is said where options change the order.
pub open spec fn blocked_text(flags: Seq<Seq<char>>) -> Seq<char> {
    "rstest bisect: "@ + joined(flags, " / "@)
        + " reorders or cuts short every run, and no option can switch it back off, so the victim wouldn't reliably run last. Drop it for the bisect: remove it from the args after `--`, override the ini with `-- -o addopts=\"<options without it>\"`, or unset PYTEST_ADDOPTS."@
}

/// Says that options change the order.
fn blocked(flags: &[String]) -> (res: String)
    ensures
        res@ == blocked_text(texts(flags@)),
{
    let mut out = String::from_str("rstest bisect: ");
    out.append(join(flags, " / ").as_str());
    out.append(" reorders or cuts short every run, and no option can switch it back off, so the victim wouldn't reliably run last. Drop it for the bisect: remove it from the args after `--`, override the ini with `-- -o addopts=\"<options without it>\"`, or unset PYTEST_ADDOPTS.");
    out
}

/// What is said of a test that is not in the suite.
pub open spec fn uncollected_text(nodeid: Seq<char>) -> Seq<char> {
    "rstest bisect: "@ + nodeid
        + " was not collected. Check the nodeid (path::test[param]) and that it isn't deselected."@
}

/// Says that a test is not in the suite.
fn uncollected(nodeid: &str) -> (res: String)
    ensures
        res@ == uncollected_text(nodeid@),
{
    let mut out = String::from_str("rstest bisect: ");
    out.append(nodeid);
    out.append(" was not collected. Check the nodeid (path::test[param]) and that it isn't deselected.");
    out
}

/// The first position of a text in a list.
pub open spec fn place_of(ids: Seq<Seq<char>>, id: Seq<char>) -> int
    decreases ids.len(),
{
    if ids.len() == 0 || ids[0] == id {
        0
    } else {
        1 + place_of(ids.skip(1), id)
    }
}

/// What is planned, or why the search is refused.
pub open spec fn planned(
    nodeid: Seq<char>,
    selection: Selection,
    flags: Seq<Seq<char>>,
    ids: Seq<Seq<char>>,
    victim: Option<Seq<char>>,
) -> Result<(Seq<char>, Seq<Seq<char>>), Seq<char>> {
    match selection {
        Selection::User => Err(user_selection_text()),
        Selection::Config => Err(config_selection_text()),
        Selection::Absent => if blocking(flags).len() > 0 {
            Err(blocked_text(blocking(flags)))
        } else {
            match victim {
                Some(v) => Ok((v, ids.take(place_of(ids, v)))),
                None => Err(uncollected_text(nodeid)),
            }
        },
    }
}

fn find_place(ids: &Vec<String>, id: &str) -> (res: usize)
    ensures
        res == place_of(texts(ids@), id@),
        res <= ids@.len(),
{
    let ghost all = texts(ids@);
    let mut i: usize = 0;
    assert(all.skip(0) =~= all);
    while i < ids.len() && !str_eq(ids[i].as_str(), id)
        invariant
            i <= ids.len(),
            all == texts(ids@),
            i + place_of(all.skip(i as int), id@) == place_of(all, id@),
        decreases ids.len() - i,
    {
        assert(all.skip(i as int)[0] == ids@[i as int]@);
        assert(all.skip(i as int).skip(1) =~= all.skip(i + 1));
        i += 1;
    }
    if i < ids.len() {
        assert(all.skip(i as int)[0] == ids@[i as int]@);
    }
    i
}

/// Plans a search: what is refused is refused here. `victim` is the collected id
/// that is meant, where there is one.
pub fn plan(
    nodeid: &str,
    selection: Selection,
    collected: &Collected,
    victim: Option<String>,
) -> (res: Result<Plan, String>)
    ensures
        match res {
            Ok(p) => planned(
                nodeid@,
                selection,
                texts(collected.order_flags@),
                texts(collected.ids@),
                opt_text(victim),
            ) == Ok::<(Seq<char>, Seq<Seq<char>>), Seq<char>>((p.victim@, texts(p.preds@)))
                && p.fresh_cache == reads_cache(texts(collected.order_flags@)) && p.lift_maxfail
                == limits_failures(texts(collected.order_flags@)),
            Err(message) => planned(
                nodeid@,
                selection,
                texts(collected.order_flags@),
                texts(collected.ids@),
                opt_text(victim),
            ) == Err::<(Seq<char>, Seq<Seq<char>>), Seq<char>>(message@),
        },
{
    match selection {
        Selection::User => {
            return Err(
                "rstest bisect: the pytest args after `--` include a test selection (a path or nodeid). Pass only pytest options there; bisect selects tests by nodeid itself.".to_owned(),
            );
        },
        Selection::Config => {
            return Err(
                "rstest bisect: the ini `addopts` (or PYTEST_ADDOPTS) names test paths, which pytest adds to every run, so bisect can't run an exact selection. Override it with the options alone, e.g. `rstest bisect <nodeid> -- -o addopts=\"<options only>\"`, or unset PYTEST_ADDOPTS.".to_owned(),
            );
        },
        Selection::Absent => {},
    }
    let bad = find_blocking(collected.order_flags.as_slice());
    if bad.len() > 0 {
        return Err(blocked(bad.as_slice()));
    }
    match victim {
        Some(v) => {
            let at = find_place(&collected.ids, v.as_str());
            let mut preds = clone_texts(collected.ids.as_slice());
            let ghost all = texts(preds@);
            preds.truncate(at);
            assert(texts(preds@) =~= all.take(at as int));
            let fresh = needs_fresh_cache(collected.order_flags.as_slice());
            let lift = contains_text(collected.order_flags.as_slice(), "--maxfail");
            Ok(Plan { victim: v, preds, fresh_cache: fresh, lift_maxfail: lift })
        },
        None => Err(uncollected(nodeid)),
    }
}

/// The arguments of every run of a search.
pub fn child_args(
    rootdir: &str,
    inifile: &str,
    confcutdir: Option<&str>,
    pytest_args: &[String],
) -> (res: Vec<String>)
    ensures
        texts(res@) == child_options(rootdir@, inifile@, shown_dir(confcutdir), texts(pytest_args@)),
{
    let cutoff = match confcutdir {
        Some(c) => c.to_owned(),
        None => rootdir.to_owned(),
    };
    let mut out = child_pins(rootdir, inifile, cutoff.as_str());
    let mut more = clone_texts(pytest_args);
    out.append(&mut more);
    out.push("--maxfail=0".to_owned());
    out
}

/// How a search ended.
pub enum Finding {
    /// The test fails alone.
    FailsAlone,
    /// Nothing runs before it.
    First,
    /// It passes after all that runs before it.
    Passes,
    /// These tests make it fail; the list may not be minimal where the runs did not
    /// suffice.
    Culprits { tests: Vec<String>, capped: bool },
}

/// How a search ended.
pub ghost enum FindingModel {
    FailsAlone,
    First,
    Passes,
    Culprits { tests: Seq<Seq<char>>, capped: bool },
}

impl View for Finding {
    type V = FindingModel;

    open spec fn view(&self) -> FindingModel {
        match self {
            Finding::FailsAlone => FindingModel::FailsAlone,
            Finding::First => FindingModel::First,
            Finding::Passes => FindingModel::Passes,
            Finding::Culprits { tests, capped } => FindingModel::Culprits {
                tests: texts(tests@),
                capped: *capped,
            },
        }
    }
}

/// Whether the first answers, to a run alone and to a run after all that runs
/// before, decide; and what they decide.
pub open spec fn searched<E, F: FnMut(&[String]) -> Result<Option<bool>, E>>(
    oracle: F,
    preds: Seq<Seq<char>>,
    alone: Result<Option<bool>, E>,
    after_all: Result<Option<bool>, E>,
    rest: Seq<Result<Option<bool>, E>>,
    res: Result<FindingModel, E>,
) -> bool {
    &&& crate::ddmin::answered::<E, F>(oracle, Seq::empty(), alone)
    &&& match alone {
        Err(e) => res == Err::<FindingModel, E>(e),
        Ok(Some(true)) => res == Ok::<FindingModel, E>(FindingModel::FailsAlone),
        _ => if preds.len() == 0 {
            res == Ok::<FindingModel, E>(FindingModel::First)
        } else {
            crate::ddmin::answered::<E, F>(oracle, preds, after_all) && match after_all {
                Err(e) => res == Err::<FindingModel, E>(e),
                Ok(Some(true)) => match res {
                    Ok(FindingModel::Culprits { tests, capped }) => leads_to::<E, F>(
                        oracle,
                        begin_with(preds, 2),
                        rest,
                        Ok((tests, capped)),
                    ),
                    Err(e) => leads_to::<E, F>(oracle, begin_with(preds, 2), rest, Err(e)),
                    _ => false,
                },
                _ => res == Ok::<FindingModel, E>(FindingModel::Passes),
            }
        },
    }
}

/// A result with the characters of its tests.
pub open spec fn finding_shown<E>(res: Result<Finding, E>) -> Result<FindingModel, E> {
    match res {
        Ok(f) => Ok(f@),
        Err(e) => Err(e),
    }
}

/// Whether a search among some tests may ask about these: none, all of them, or some
/// in their order.
pub open spec fn is_asked(part: Seq<Seq<char>>, all: Seq<Seq<char>>) -> bool {
    part.len() == 0 || part == all || crate::ddmin::is_proper_part(part, all)
}

/// Searches for the tests that make a test fail: it must pass alone, and fail after
/// all that runs before it; then the list is made as short as it can be.
/// `reproduces` says whether the test fails after some tests; nothing where no runs
/// are left.
pub fn bisect<E, F: FnMut(&[String]) -> Result<Option<bool>, E>>(
    preds: &[String],
    reproduces: F,
) -> (res: Result<Finding, E>)
    requires
        forall|s: &[String]|
            is_asked(texts(s@), texts(preds@)) ==> #[trigger] call_requires(reproduces, (s,)),
    ensures
        exists|alone: Result<Option<bool>, E>, after_all: Result<Option<bool>, E>, rest: Seq<
            Result<Option<bool>, E>,
        >| #[trigger]
            searched::<E, F>(reproduces, texts(preds@), alone, after_all, rest, finding_shown(res)),
{
    let ghost oracle = reproduces;
    let mut reproduces = reproduces;
    let none: Vec<String> = Vec::new();
    let ghost all = texts(preds@);
    let ghost empty: Seq<Result<Option<bool>, E>> = Seq::empty();
    assert(texts(none@) =~= Seq::empty());
    let alone = reproduces(none.as_slice());
    let ghost first = alone;
    assert(crate::ddmin::answered::<E, F>(oracle, Seq::empty(), first));
    match alone {
        Err(e) => {
            let res: Result<Finding, E> = Err(e);
            assert(searched::<E, F>(oracle, all, first, first, empty, finding_shown(res)));
            return res;
        },
        Ok(Some(true)) => {
            let res: Result<Finding, E> = Ok(Finding::FailsAlone);
            assert(searched::<E, F>(oracle, all, first, first, empty, finding_shown(res)));
            return res;
        },
        _ => {},
    }
    if preds.len() == 0 {
        let res: Result<Finding, E> = Ok(Finding::First);
        assert(searched::<E, F>(oracle, all, first, first, empty, finding_shown(res)));
        return res;
    }
    let after_all = reproduces(preds);
    let ghost second = after_all;
    assert(crate::ddmin::answered::<E, F>(oracle, all, second));
    match after_all {
        Err(e) => {
            let res: Result<Finding, E> = Err(e);
            assert(searched::<E, F>(oracle, all, first, second, empty, finding_shown(res)));
            return res;
        },
        Ok(Some(true)) => {},
        _ => {
            let res: Result<Finding, E> = Ok(Finding::Passes);
            assert(searched::<E, F>(oracle, all, first, second, empty, finding_shown(res)));
            return res;
        },
    }
    let small = ddmin(preds, reproduces);
    let ghost rest = choose|rest: Seq<Result<Option<bool>, E>>| #[trigger]
        leads_to::<E, F>(oracle, begin_with(all, 2), rest, crate::ddmin::shown(small));
    match small {
        Ok((tests, capped)) => {
            let res: Result<Finding, E> = Ok(Finding::Culprits { tests, capped });
            assert(searched::<E, F>(oracle, all, first, second, rest, finding_shown(res)));
            res
        },
        Err(e) => {
            let res: Result<Finding, E> = Err(e);
            assert(searched::<E, F>(oracle, all, first, second, rest, finding_shown(res)));
            res
        },
    }
}

/// A test is called dependent on order only where it did not fail alone and failed
/// after all that runs before it; the culprits are among those, in their order; and
/// where the runs sufficed, no culprit can be left out.
pub proof fn theorem_culprits<E, F: FnMut(&[String]) -> Result<Option<bool>, E>>(
    oracle: F,
    preds: Seq<Seq<char>>,
    alone: Result<Option<bool>, E>,
    after_all: Result<Option<bool>, E>,
    rest: Seq<Result<Option<bool>, E>>,
    tests: Seq<Seq<char>>,
    capped: bool,
)
    requires
        searched::<E, F>(
            oracle,
            preds,
            alone,
            after_all,
            rest,
            Ok(FindingModel::Culprits { tests, capped }),
        ),
    ensures
        alone != Ok::<Option<bool>, E>(Some(true)),
        crate::ddmin::answered::<E, F>(oracle, preds, Ok(Some(true))),
        crate::sequences::subsequence(tests, preds),
        tests == preds || crate::ddmin::confirmed::<E, F>(oracle, tests),
        !capped && tests.len() >= 2 ==> crate::ddmin::one_minimal::<E, F>(oracle, tests),
{
    crate::ddmin::theorem_ddmin::<E, F>(oracle, preds, rest, Ok((tests, capped)));
}

/// With what code to exit: zero where the failure depends on order.
pub fn finding_exit(f: &Finding) -> (res: i32)
    ensures
        res == exit_of(f@),
{
    match f {
        Finding::Culprits { .. } => 0,
        _ => 1,
    }
}

/// What is said of a test that fails alone.
pub open spec fn fails_alone_text(victim: Seq<char>, command: Seq<char>) -> Seq<char> {
    "\n"@ + victim + "\n  fails in isolation (`"@ + command
        + "`) — this is a plain failure, not an order dependency. Fix the test itself."@
}

/// Says that a test fails alone.
pub fn fails_alone(victim: &str, command: &str) -> (res: String)
    ensures
        res@ == fails_alone_text(victim@, command@),
{
    let mut out = String::from_str("\n");
    out.append(victim);
    out.append("\n  fails in isolation (`");
    out.append(command);
    out.append("`) — this is a plain failure, not an order dependency. Fix the test itself.");
    out
}

/// What is said of a test before which nothing runs.
pub open spec fn is_first_text(victim: Seq<char>) -> Seq<char> {
    "\n"@ + victim
        + "\n  is first in collection order — nothing runs before it, so there is no polluter to bisect. If it still flakes, it's parallel-only (try `rstest migrate-check`)."@
}

/// Says that nothing runs before a test.
pub fn is_first(victim: &str) -> (res: String)
    ensures
        res@ == is_first_text(victim@),
{
    let mut out = String::from_str("\n");
    out.append(victim);
    out.append("\n  is first in collection order — nothing runs before it, so there is no polluter to bisect. If it still flakes, it's parallel-only (try `rstest migrate-check`).");
    out
}

/// What is said of a test that passes after all that runs before it.
pub open spec fn passes_after_text(victim: Seq<char>, n: usize) -> Seq<char> {
    "\n"@ + victim + "\n  passes at -n 0 after all "@ + decimal(n as nat)
        + " preceding tests — the failure does not reproduce from collection order alone. It is likely parallel-only (concurrency, not ordering); run `rstest migrate-check`."@
}

/// Says that a test passes after all that runs before it.
pub fn passes_after(victim: &str, n: usize) -> (res: String)
    ensures
        res@ == passes_after_text(victim@, n),
{
    let mut out = String::from_str("\n");
    out.append(victim);
    out.append("\n  passes at -n 0 after all ");
    out.append(dec_len(n).as_str());
    out.append(" preceding tests — the failure does not reproduce from collection order alone. It is likely parallel-only (concurrency, not ordering); run `rstest migrate-check`.");
    out
}

/// The line on how many culprits there are.
pub open spec fn culprit_count_text(n: usize) -> Seq<char> {
    "  culprit"@ + (if n == 1 { ""@ } else { "s"@ }) + ": "@ + decimal(n as nat)
        + " predecessor test(s) reproduce the failure:"@
}

/// Writes the line on how many culprits there are.
fn culprit_count(n: usize) -> (res: String)
    ensures
        res@ == culprit_count_text(n),
{
    let mut out = String::from_str("  culprit");
    out.append(if n == 1 { "" } else { "s" });
    out.append(": ");
    out.append(dec_len(n).as_str());
    out.append(" predecessor test(s) reproduce the failure:");
    out
}

/// The report on culprits, as lines.
pub open spec fn report_lines(
    victim: Seq<char>,
    culprits: Seq<Seq<char>>,
    repro: Seq<char>,
    capped: bool,
) -> Seq<Seq<char>> {
    let head = seq![
        "\n================= rstest bisect ================="@,
        "  victim:   "@ + victim,
        culprit_count_text(culprits.len() as usize),
    ] + Seq::new(culprits.len(), |i: int| "    "@ + culprits[i]);
    let noted = if capped {
        head.push(
            "  (run budget reached — this is the smallest reproducing set found, may not be 1-minimal)"@,
        )
    } else {
        head
    };
    noted + seq![
        "\n  Minimal reproducing order (serial):"@,
        "    "@ + repro,
        "\n  Fix: the culprit leaks state the victim depends on being clean (a module global, a monkeypatch not undone, a cached singleton, an env var, a temp file). Reset it in the culprit's teardown, or make the victim set up its own state."@,
        "================================================"@,
    ]
}

/// Makes the report on culprits: the lines to print.
pub fn print_report(victim: &str, culprits: &[String], repro: &str, capped: bool) -> (res: Vec<
    String,
>)
    ensures
        texts(res@) == report_lines(victim@, texts(culprits@), repro@, capped),
{
    let mut out: Vec<String> = Vec::new();
    out.push("\n================= rstest bisect =================".to_owned());
    let mut line = String::from_str("  victim:   ");
    line.append(victim);
    out.push(line);
    out.push(culprit_count(culprits.len()));
    let ghost head = seq![
        "\n================= rstest bisect ================="@,
        "  victim:   "@ + victim@,
        culprit_count_text(culprits@.len() as usize),
    ];
    let ghost rows = Seq::new(culprits@.len(), |i: int| "    "@ + culprits@[i]@);
    assert(texts(out@) =~= head + rows.take(0));
    let mut i: usize = 0;
    while i < culprits.len()
        invariant
            i <= culprits.len(),
            rows == Seq::new(culprits@.len(), |i: int| "    "@ + culprits@[i]@),
            texts(out@) == head + rows.take(i as int),
        decreases culprits.len() - i,
    {
        let mut line = String::from_str("    ");
        line.append(culprits[i].as_str());
        let ghost before = rows.take(i as int);
        let ghost added = line@;
        out.push(line);
        i += 1;
        assert(rows.take(i as int) =~= before.push(added));
        assert(texts(out@) =~= head + rows.take(i as int));
    }
    assert(rows.take(culprits.len() as int) =~= rows);
    assert(rows =~= Seq::new(
        texts(culprits@).len(),
        |i: int| "    "@ + texts(culprits@)[i],
    ));
    if capped {
        out.push(
            "  (run budget reached — this is the smallest reproducing set found, may not be 1-minimal)".to_owned(),
        );
    }
    let ghost noted = texts(out@);
    out.push("\n  Minimal reproducing order (serial):".to_owned());
    let mut line = String::from_str("    ");
    line.append(repro);
    out.push(line);
    out.push(
        "\n  Fix: the culprit leaks state the victim depends on being clean (a module global, a monkeypatch not undone, a cached singleton, an env var, a temp file). Reset it in the culprit's teardown, or make the victim set up its own state.".to_owned(),
    );
    out.push("================================================".to_owned());
    assert(texts(out@) =~= report_lines(victim@, texts(culprits@), repro@, capped));
    out
}

/// The result as it is stored for tools.
pub struct BisectDoc {
    pub nodeid: String,
    /// Where ids are relative to, and where the command runs; not known where there
    /// was no verdict.
    pub rootdir: Option<String>,
    pub cwd: Option<String>,
    pub order_dependent: bool,
    pub culprits: Vec<String>,
    pub reproduce_command: Option<String>,
    /// Why there was no verdict.
    pub error: Option<String>,
}

/// The result of a search that ended without a verdict.
pub fn error_doc(nodeid: &str, error: &str) -> (res: BisectDoc)
    ensures
        is_error_doc(res, nodeid@, error@),
{
    BisectDoc {
        nodeid: nodeid.to_owned(),
        rootdir: None,
        cwd: None,
        order_dependent: false,
        culprits: Vec::new(),
        reproduce_command: None,
        error: Some(error.to_owned()),
    }
}

/// The result of a search. It depends on order where there is a command that shows
/// the failure.
pub fn verdict_doc(
    victim: &str,
    rootdir: &str,
    cwd: &str,
    culprits: &[String],
    reproduce: Option<String>,
) -> (res: BisectDoc)
    ensures
        is_finding_doc(
            res,
            victim@,
            rootdir@,
            cwd@,
            texts(culprits@),
            opt_text(reproduce),
        ),
{
    BisectDoc {
        nodeid: victim.to_owned(),
        rootdir: Some(rootdir.to_owned()),
        cwd: Some(cwd.to_owned()),
        order_dependent: reproduce.is_some(),
        culprits: clone_texts(culprits),
        reproduce_command: reproduce,
        error: None,
    }
}

/// Whether tests that failed before come first or alone, which the cache tells.
pub open spec fn reads_cache(flags: Seq<Seq<char>>) -> bool {
    flags.contains("--ff"@) || flags.contains("--lf"@)
}

/// Whether a run ends after some failures.
pub open spec fn limits_failures(flags: Seq<Seq<char>>) -> bool {
    flags.contains("--maxfail"@)
}

/// What a run tells of the test.
pub open spec fn told_of(
    out: Map<Seq<char>, Rec>,
    victim: Seq<char>,
    res: Result<bool, String>,
) -> bool {
    match res {
        Ok(failed) => out.contains_key(victim) && failed == (out[victim].phase == Phase::Fail),
        Err(message) => !out.contains_key(victim) && message@ == missing_text(victim),
    }
}

/// What runs next, and what is left.
pub open spec fn next_as(
    before: Runner,
    after: Runner,
    preds: Seq<Seq<char>>,
    res: Option<Vec<String>>,
) -> bool {
    match res {
        Some(sel) => before.budget > 0 && after.budget == before.budget - 1 && texts(sel@)
            == preds.push(before.victim@),
        None => before.budget == 0 && after.budget == 0,
    }
}

/// Whether the tests are collected once more, without the user's arguments.
pub open spec fn asks_again(source: Option<String>, user_args: usize) -> bool {
    taken_from(source, "args"@) && user_args > 0
}

/// Where a selection comes from.
pub open spec fn source_of(
    source: Option<String>,
    user_args: usize,
    bare: Option<String>,
) -> Selection {
    if !taken_from(source, "args"@) {
        Selection::Absent
    } else if user_args == 0 || taken_from(bare, "args"@) {
        Selection::Config
    } else {
        Selection::User
    }
}

/// Whether the tests are collected once more, from the root.
pub open spec fn other_root(
    windows: bool,
    source: Option<String>,
    root: Seq<char>,
    cwd: Seq<char>,
) -> bool {
    taken_from(source, "invocation_dir"@) && !same_path(windows, root, cwd)
}

/// The directory, where one is given.
pub open spec fn shown_dir(dir: Option<&str>) -> Option<Seq<char>> {
    match dir {
        Some(c) => Some(c@),
        None => None,
    }
}

/// The arguments of every run.
pub open spec fn child_options(
    rootdir: Seq<char>,
    inifile: Seq<char>,
    confcutdir: Option<Seq<char>>,
    pytest_args: Seq<Seq<char>>,
) -> Seq<Seq<char>> {
    (pinned_options(
        rootdir,
        inifile,
        match confcutdir {
            Some(c) => c,
            None => rootdir,
        },
    ) + pytest_args).push(maxfail_lift())
}

/// The arguments of one session.
pub open spec fn session_args(pins: Pins, session: u64, args: Seq<Seq<char>>) -> Seq<Seq<char>> {
    order_pins().push("-o"@).push(
        "cache_dir="@ + session_cache(pins.windows, pins.cache_root@, session),
    ) + args
}

/// With what code a search ends.
pub open spec fn exit_of(f: FindingModel) -> int {
    if f is Culprits {
        0
    } else {
        1
    }
}

/// Whether `doc` tells of a search that failed.
pub open spec fn is_error_doc(doc: BisectDoc, nodeid: Seq<char>, error: Seq<char>) -> bool {
    &&& doc.nodeid@ == nodeid
    &&& doc.rootdir is None && doc.cwd is None
    &&& !doc.order_dependent
    &&& doc.culprits@.len() == 0
    &&& doc.reproduce_command is None
    &&& opt_text(doc.error) == Some(error)
}

/// Whether `doc` tells what a search found.
pub open spec fn is_finding_doc(
    doc: BisectDoc,
    victim: Seq<char>,
    rootdir: Seq<char>,
    cwd: Seq<char>,
    culprits: Seq<Seq<char>>,
    reproduce: Option<Seq<char>>,
) -> bool {
    &&& doc.nodeid@ == victim
    &&& opt_text(doc.rootdir) == Some(rootdir)
    &&& opt_text(doc.cwd) == Some(cwd)
    &&& doc.order_dependent == reproduce is Some
    &&& texts(doc.culprits@) == culprits
    &&& opt_text(doc.reproduce_command) == reproduce
    &&& doc.error is None
}

/// A run is given fresh caches just where tests that failed before come first or alone.
pub proof fn theorem_caches_for_failed_tests(flags: Seq<Seq<char>>)
    ensures
        reads_cache(flags) <==> exists|i: int|
            0 <= i < flags.len() && (#[trigger] flags[i] == "--ff"@ || flags[i] == "--lf"@),
        limits_failures(flags) <==> exists|i: int|
            0 <= i < flags.len() && #[trigger] flags[i] == "--maxfail"@,
{
    if exists|i: int|
        0 <= i < flags.len() && (#[trigger] flags[i] == "--ff"@ || flags[i] == "--lf"@) {
        let i = choose|i: int|
            0 <= i < flags.len() && (#[trigger] flags[i] == "--ff"@ || flags[i] == "--lf"@);
        assert(flags.contains(flags[i]));
    }
}

/// Three options stand in the way of a search: new tests first, stepwise runs, and stepwise
/// runs that skip one.
pub proof fn theorem_options_in_the_way(flags: Seq<Seq<char>>, f: Seq<char>)
    ensures
        blocking(flags).contains(f) <==> flags.contains(f) && (f == "--nf"@ || f == "--sw"@ || f
            == "--sw-skip"@),
    decreases flags.len(),
{
    let three = blocking_order_flags();
    assert(three[0] == "--nf"@ && three[1] == "--sw"@ && three[2] == "--sw-skip"@);
    if flags.len() > 0 {
        let init = flags.drop_last();
        let before = blocking(init);
        let all = blocking(flags);
        theorem_options_in_the_way(init, f);
        if flags.contains(f) && !init.contains(f) {
            let i = choose|i: int| 0 <= i < flags.len() && flags[i] == f;
            if i < init.len() {
                assert(init[i] == f);
            }
            assert(flags.last() == f);
        }
        if init.contains(f) {
            let i = choose|i: int| 0 <= i < init.len() && init[i] == f;
            assert(flags[i] == f);
        }
        if before.contains(f) {
            let k = choose|k: int| 0 <= k < before.len() && before[k] == f;
            assert(all[k] == f);
        }
        if three.contains(flags.last()) {
            assert(all[all.len() - 1] == flags.last());
            assert(flags[flags.len() - 1] == flags.last());
        }
        if all.contains(f) && !before.contains(f) {
            let k = choose|k: int| 0 <= k < all.len() && all[k] == f;
            if k < before.len() {
                assert(before[k] == f);
            }
            assert(f == flags.last());
        }
    }
}

/// A run tells of a test that was in it: that it failed, or that it did not.
pub proof fn theorem_a_run_tells_of_its_tests(
    out: Map<Seq<char>, Rec>,
    victim: Seq<char>,
    res: Result<bool, String>,
)
    requires
        told_of(out, victim, res),
    ensures
        res is Ok <==> out.contains_key(victim),
        res matches Ok(failed) ==> (failed <==> out[victim].phase != Phase::Pass),
{
}

/// A run has the tests it is asked for and the test itself last; it takes one of the runs
/// that are left, and there is one as long as one is left.
pub proof fn theorem_the_test_runs_last(
    before: Runner,
    after: Runner,
    preds: Seq<Seq<char>>,
    res: Option<Vec<String>>,
)
    requires
        next_as(before, after, preds, res),
    ensures
        res is Some <==> before.budget > 0,
        res is Some ==> after.budget + 1 == before.budget,
        res matches Some(sel) ==> texts(sel@).last() == before.victim@ && texts(sel@).drop_last()
            == preds,
{
    if let Some(sel) = res {
        assert(texts(sel@).drop_last() =~= preds);
    }
}

/// A selection is the user's where pytest took the tests from its arguments, the user gave
/// some, and without them it does not; where it does, or none were given, the configuration
/// made it. Any other source is no selection.
pub proof fn theorem_sources_of_a_selection(
    source: Option<String>,
    user_args: usize,
    bare: Option<String>,
)
    ensures
        source is None ==> source_of(source, user_args, bare) == Selection::Absent,
        source matches Some(s) ==> (s@ != "args"@ ==> source_of(source, user_args, bare)
            == Selection::Absent && !asks_again(source, user_args)),
        source matches Some(s) ==> (s@ == "args"@ ==> (asks_again(source, user_args) <==> user_args
            >= 1) && source_of(source, user_args, bare) != Selection::Absent),
        source matches Some(s) ==> (s@ == "args"@ && user_args == 0 ==> source_of(
            source,
            user_args,
            bare,
        ) == Selection::Config),
        source matches Some(s) ==> (bare matches Some(b) ==> (s@ == "args"@ && b@ == "args"@
            ==> source_of(source, user_args, bare) == Selection::Config)),
        source matches Some(s) ==> (s@ == "args"@ && user_args > 0 && bare is None ==> source_of(
            source,
            user_args,
            bare,
        ) == Selection::User),
        source matches Some(s) ==> (bare matches Some(b) ==> (s@ == "args"@ && user_args > 0 && b@
            != "args"@ ==> source_of(source, user_args, bare) == Selection::User)),
{
}

/// The tests are collected from the root where pytest took the directory that it was started
/// in, and that is another one.
pub proof fn theorem_collected_from_the_root(
    windows: bool,
    source: Option<String>,
    root: Seq<char>,
    cwd: Seq<char>,
)
    ensures
        source is None ==> !other_root(windows, source, root, cwd),
        source matches Some(s) ==> (other_root(windows, source, root, cwd) <==> s@
            == "invocation_dir"@ && !same_path(windows, root, cwd)),
{
}

/// A search is refused where tests are selected, where an option stands in the way, and where
/// the test was not collected. Else it is for the tests that were collected before the test,
/// all of them and in their order.
pub proof fn theorem_what_a_search_is_for(
    nodeid: Seq<char>,
    selection: Selection,
    flags: Seq<Seq<char>>,
    ids: Seq<Seq<char>>,
    victim: Option<Seq<char>>,
)
    ensures
        planned(nodeid, selection, flags, ids, victim) is Ok <==> selection == Selection::Absent
            && victim is Some && !flags.contains("--nf"@) && !flags.contains("--sw"@)
            && !flags.contains("--sw-skip"@),
        planned(nodeid, selection, flags, ids, victim) matches Ok((v, preds)) ==> victim == Some(v)
            && (ids.contains(v) ==> preds.len() < ids.len() && ids[preds.len() as int] == v
            && !preds.contains(v) && preds == ids.take(preds.len() as int)),
{
    theorem_options_in_the_way(flags, "--nf"@);
    theorem_options_in_the_way(flags, "--sw"@);
    theorem_options_in_the_way(flags, "--sw-skip"@);
    let found = blocking(flags);
    if found.len() > 0 {
        assert(found.contains(found[0]));
        theorem_options_in_the_way(flags, found[0]);
    }
    if flags.contains("--nf"@) {
        assert(found.contains("--nf"@));
    }
    if let Ok((v, preds)) = planned(nodeid, selection, flags, ids, victim) {
        if ids.contains(v) {
            lemma_first_place(ids, v);
        }
    }
}

proof fn lemma_first_place(ids: Seq<Seq<char>>, id: Seq<char>)
    requires
        ids.contains(id),
    ensures
        0 <= place_of(ids, id) < ids.len(),
        ids[place_of(ids, id)] == id,
        !ids.take(place_of(ids, id)).contains(id),
    decreases ids.len(),
{
    if ids[0] != id {
        let i = choose|i: int| 0 <= i < ids.len() && ids[i] == id;
        let rest = ids.skip(1);
        assert(rest[i - 1] == id);
        lemma_first_place(rest, id);
        let n = place_of(rest, id);
        assert(ids[n + 1] == rest[n]);
        if ids.take(n + 1).contains(id) {
            let head = ids.take(n + 1);
            let k = choose|k: int| 0 <= k < head.len() && head[k] == id;
            assert(rest.take(n)[k - 1] == id);
            assert(rest.take(n).contains(id));
        }
    }
}

/// A test is taken to be named from the current directory where such a test was collected,
/// and else as it is collected; what is neither was not collected.
pub proof fn theorem_tests_as_they_are_named(
    windows: bool,
    nodeid: Seq<char>,
    ids: Seq<Seq<char>>,
    path: Seq<char>,
    rootdir: Seq<char>,
)
    ensures
        meant(windows, nodeid, ids, None, rootdir) == (if ids.contains(nodeid) {
            Some(nodeid)
        } else {
            None
        }),
        meant(windows, nodeid, ids, Some(path), rootdir) matches Some(id) ==> ids.contains(id),
        below_root(windows, path, rootdir) matches Some(rel) ==> (ids.contains(
            rel + rest_part(nodeid),
        ) ==> meant(windows, nodeid, ids, Some(path), rootdir) == Some(rel + rest_part(nodeid))),
        below_root(windows, path, rootdir) matches Some(rel) ==> (!ids.contains(
            rel + rest_part(nodeid),
        ) && ids.contains(nodeid) ==> meant(windows, nodeid, ids, Some(path), rootdir) == Some(
            nodeid,
        )),
        below_root(windows, path, rootdir) is None && ids.contains(nodeid) ==> meant(
            windows,
            nodeid,
            ids,
            Some(path),
            rootdir,
        ) == Some(nodeid),
{
}

/// Five files make a directory a root whatever they hold.
pub proof fn theorem_files_of_a_root(names: Seq<Seq<char>>)
    ensures
        roots_always(names) <==> names.contains("pytest.ini"@) || names.contains(".pytest.ini"@)
            || names.contains("pytest.toml"@) || names.contains(".pytest.toml"@) || names.contains(
            "setup.py"@,
        ),
{
    let five = always_config();
    assert(five[0] == "pytest.ini"@ && five[1] == ".pytest.ini"@ && five[2] == "pytest.toml"@
        && five[3] == ".pytest.toml"@ && five[4] == "setup.py"@);
}

/// Every run is rooted where the tests are, with the configuration that was loaded, the
/// user's options after that, and no limit on failures.
pub proof fn theorem_options_of_every_run(
    rootdir: Seq<char>,
    inifile: Seq<char>,
    confcutdir: Option<Seq<char>>,
    args: Seq<Seq<char>>,
)
    ensures
        ({
            let all = child_options(rootdir, inifile, confcutdir, args);
            &&& all.len() == 6 + args.len() + 1
            &&& all[0] == "--rootdir"@ && all[1] == rootdir
            &&& all[2] == "-c"@ && all[3] == inifile
            &&& all[4] == "--confcutdir"@
            &&& confcutdir is None ==> all[5] == rootdir
            &&& confcutdir matches Some(dir) ==> all[5] == dir
            &&& all.subrange(6, (6 + args.len()) as int) == args
            &&& all.last() == "--maxfail=0"@
        }),
{
    let all = child_options(rootdir, inifile, confcutdir, args);
    assert(all.subrange(6, (6 + args.len()) as int) =~= args);
}

/// Every session keeps the order of tests and has a cache of its own.
pub proof fn theorem_options_of_every_session(pins: Pins, session: u64, args: Seq<Seq<char>>)
    ensures
        ({
            let all = session_args(pins, session, args);
            &&& all.len() == 4 + args.len()
            &&& all[0] == "-p"@ && all[1] == "no:randomly"@
            &&& all[2] == "-o"@
            &&& all[3] == "cache_dir="@ + joined_path(
                pins.windows,
                pins.cache_root@,
                "s"@ + decimal(session as nat),
            )
            &&& all.skip(4) == args
        }),
{
    let all = session_args(pins, session, args);
    assert(all.skip(4) =~= args);
}

/// The command that shows the failure runs in series and in order, with the culprits in
/// their order and the test last.
pub proof fn theorem_the_command_ends_with_the_test(
    ctx: ReproCtx,
    culprits: Seq<Seq<char>>,
    victim: Seq<char>,
    i: int,
)
    ensures
        ({
            let parts = repro_parts(ctx, culprits, victim);
            let n = parts.len() as int;
            &&& n >= 6 + culprits.len()
            &&& parts[0] == "rstest"@ && parts[1] == "-n"@ && parts[2] == "0"@
            &&& parts.contains("-p"@) && parts.contains("no:randomly"@)
            &&& parts[n - 1] == quoted(seen_from(ctx.windows, ctx.cwd@, ctx.rootdir@, victim))
            &&& 0 <= i < culprits.len() ==> parts[n - 1 - culprits.len() + i] == quoted(
                seen_from(ctx.windows, ctx.cwd@, ctx.rootdir@, culprits[i]),
            )
        }),
{
    let parts = repro_parts(ctx, culprits, victim);
    let n = parts.len() as int;
    let head = seq!["rstest"@, "-n"@, "0"@] + python_options(ctx.python_flag);
    assert(parts[head.len() as int] == "-p"@);
    assert(parts[head.len() as int + 1] == "no:randomly"@);
    let tests = named_tests(ctx, culprits.push(victim));
    assert(parts[n - 1] == tests[tests.len() - 1]);
    if 0 <= i < culprits.len() {
        assert(parts[n - 1 - culprits.len() + i] == tests[i]);
        assert(culprits.push(victim)[i] == culprits[i]);
    }
}

/// The command has what it needs: the interpreter, a cache, the root, the user's options and
/// no limit on failures, each where the search had it, and nothing else.
pub proof fn theorem_the_command_has_what_it_needs(
    ctx: ReproCtx,
    culprits: Seq<Seq<char>>,
    victim: Seq<char>,
)
    ensures
        ({
            let parts = repro_parts(ctx, culprits, victim);
            let py = if ctx.python_flag is Some {
                2int
            } else {
                0
            };
            let cache = if ctx.fresh_cache is Some {
                3int
            } else {
                0
            };
            let root = if !ctx.nested {
                0int
            } else if ctx.inifile is Some {
                4
            } else {
                6
            };
            let lift = if ctx.lift_maxfail {
                1int
            } else {
                0
            };
            let args = ctx.pytest_args@.len() as int;
            &&& parts.len() == 5 + py + cache + root + args + lift + culprits.len() + 1
            &&& ctx.python_flag matches Some(flag) ==> parts[3] == "--python"@ && parts[4]
                == quoted(flag@)
            &&& ctx.fresh_cache matches Some(dir) ==> parts[5 + py] == "-o"@ && parts[6 + py]
                == quoted("cache_dir="@ + dir@) && parts[7 + py] == "--cache-clear"@
            &&& ctx.nested ==> parts[5 + py + cache] == "--rootdir"@ && parts[6 + py + cache]
                == quoted(ctx.rootdir@) && parts[7 + py + cache] == "-c"@
            &&& ctx.nested ==> (ctx.inifile matches Some(ini) ==> parts[8 + py + cache] == quoted(
                ini@,
            ))
            &&& ctx.nested && ctx.inifile is None ==> parts[8 + py + cache] == (if ctx.windows {
                "NUL"@
            } else {
                "/dev/null"@
            }) && parts[9 + py + cache] == "--confcutdir"@ && parts[10 + py + cache] == quoted(
                ctx.rootdir@,
            )
            &&& forall|k: int|
                0 <= k < args ==> parts[5 + py + cache + root + k] == quoted(
                    #[trigger] ctx.pytest_args@[k]@,
                )
            &&& ctx.lift_maxfail ==> parts[5 + py + cache + root + args] == "--maxfail=0"@
        }),
{
    let parts = repro_parts(ctx, culprits, victim);
    let a = seq!["rstest"@, "-n"@, "0"@] + python_options(ctx.python_flag);
    let b = a + order_pins();
    let c = b + cache_options(ctx.fresh_cache);
    let d = c + root_options(ctx);
    let e = d + all_quoted(texts(ctx.pytest_args@));
    let f = e + lift_options(ctx.lift_maxfail);
    assert(parts == f + named_tests(ctx, culprits.push(victim)));
    assert forall|k: int| 0 <= k < ctx.pytest_args@.len() implies parts[d.len() + k] == quoted(
        #[trigger] ctx.pytest_args@[k]@,
    ) by {
        assert(e[d.len() + k] == all_quoted(texts(ctx.pytest_args@))[k]);
        assert(texts(ctx.pytest_args@)[k] == ctx.pytest_args@[k]@);
    }
}

/// What a search finds: a test that fails alone; one that nothing runs before; one that
/// passes after all that runs before it; and else the culprits among those.
pub proof fn theorem_what_a_search_finds<E, F: FnMut(&[String]) -> Result<Option<bool>, E>>(
    oracle: F,
    preds: Seq<Seq<char>>,
    alone: bool,
    after_all: bool,
    rest: Seq<Result<Option<bool>, E>>,
    f: FindingModel,
)
    requires
        searched::<E, F>(
            oracle,
            preds,
            Ok(Some(alone)),
            Ok(Some(after_all)),
            rest,
            Ok::<FindingModel, E>(f),
        ),
    ensures
        f is FailsAlone <==> alone,
        f is First <==> !alone && preds.len() == 0,
        f is Passes <==> !alone && preds.len() > 0 && !after_all,
        f is Culprits <==> !alone && preds.len() > 0 && after_all,
        exit_of(f) == 0 <==> !alone && preds.len() > 0 && after_all,
        exit_of(f) == 0 || exit_of(f) == 1,
{
}

/// Where one test alone makes another fail, it is found, and nothing else.
pub proof fn theorem_one_culprit_is_found<E, F: FnMut(&[String]) -> Result<Option<bool>, E>>(
    oracle: F,
    preds: Seq<Seq<char>>,
    alone: Result<Option<bool>, E>,
    after_all: Result<Option<bool>, E>,
    rest: Seq<Result<Option<bool>, E>>,
    tests: Seq<Seq<char>>,
    culprit: Seq<char>,
)
    requires
        searched::<E, F>(
            oracle,
            preds,
            alone,
            after_all,
            rest,
            Ok(FindingModel::Culprits { tests, capped: false }),
        ),
        preds.contains(culprit),
        crate::ddmin::answers_for::<E, F>(oracle, culprit),
    ensures
        tests == seq![culprit],
{
    crate::ddmin::theorem_one_culprit::<E, F>(oracle, preds, rest, tests, culprit);
}

/// The document of a search that failed says why, and nothing of what it would have found;
/// that of one that did not says where, and how to see the failure just where it depends on
/// order.
pub proof fn theorem_documents_of_a_search(
    failed: BisectDoc,
    found: BisectDoc,
    id: Seq<char>,
    error: Seq<char>,
    rootdir: Seq<char>,
    cwd: Seq<char>,
    culprits: Seq<Seq<char>>,
    reproduce: Option<Seq<char>>,
)
    requires
        is_error_doc(failed, id, error),
        is_finding_doc(found, id, rootdir, cwd, culprits, reproduce),
    ensures
        failed.nodeid@ == id && found.nodeid@ == id,
        failed.error is Some && failed.error.unwrap()@ == error && found.error is None,
        !failed.order_dependent && failed.reproduce_command is None && texts(
            failed.culprits@,
        ).len() == 0,
        failed.rootdir is None && failed.cwd is None,
        found.rootdir is Some && found.rootdir.unwrap()@ == rootdir,
        found.cwd is Some && found.cwd.unwrap()@ == cwd,
        found.order_dependent <==> found.reproduce_command is Some,
        found.reproduce_command matches Some(c) ==> reproduce == Some(c@),
        texts(found.culprits@) == culprits,
{
}

/// The report names the test, each culprit on a line of its own, and the command; and it
/// says where the list may not be minimal.
pub proof fn theorem_the_report_names_all(
    victim: Seq<char>,
    culprits: Seq<Seq<char>>,
    repro: Seq<char>,
    capped: bool,
    i: int,
)
    ensures
        ({
            let lines = report_lines(victim, culprits, repro, capped);
            let n = culprits.len();
            &&& lines.len() == 7 + n + (if capped {
                1int
            } else {
                0
            })
            &&& lines[1] == "  victim:   "@ + victim
            &&& 0 <= i < n ==> lines[3 + i] == "    "@ + culprits[i]
            &&& lines[lines.len() - 3] == "    "@ + repro
            &&& capped ==> lines[3 + n as int]
                == "  (run budget reached — this is the smallest reproducing set found, may not be 1-minimal)"@
        }),
{
}

/// A test below the current directory is named from there.
pub proof fn theorem_named_from_the_current_directory(
    windows: bool,
    cwd: Seq<char>,
    rootdir: Seq<char>,
    id: Seq<char>,
    below: Seq<Seq<char>>,
)
    requires
        components_of(windows, cwd).len() > 0,
        components_of(windows, joined_path(windows, rootdir, file_part(id))) == components_of(
            windows,
            cwd,
        ) + below,
    ensures
        seen_from(windows, cwd, rootdir, id) == joined(below, "/"@) + rest_part(id),
{
    let here = components_of(windows, cwd);
    lemma_common_prefix(here, below);
    let there = here + below;
    assert(ups(0) + there.skip(here.len() as int) =~= below);
}

proof fn lemma_common_prefix(a: Seq<Seq<char>>, b: Seq<Seq<char>>)
    ensures
        common(a, a + b) == a.len(),
    decreases a.len(),
{
    if a.len() > 0 {
        assert((a + b).skip(1) =~= a.skip(1) + b);
        lemma_common_prefix(a.skip(1), b);
    }
}

/// Every test that is selected stands on a line of its own, below the root.
pub proof fn theorem_each_test_on_its_own_line(
    windows: bool,
    rootdir: Seq<char>,
    sel: Seq<Seq<char>>,
    i: int,
)
    ensures
        selection_lines(windows, rootdir, sel).len() == sel.len(),
        0 <= i < sel.len() ==> selection_lines(windows, rootdir, sel)[i] == joined_path(
            windows,
            rootdir,
            sel[i],
        ) + "\n"@,
{
}

/// A file lies in a directory that is a root of its own where one of those on the way to it
/// is, and not where none is.
pub proof fn theorem_roots_on_the_way<F: Fn(&str) -> NestedDir>(
    look: F,
    windows: bool,
    rootdir: Seq<char>,
    file: Seq<char>,
)
    ensures
        nested_as(look, windows, rootdir, file, true) ==> inner_dirs(windows, rootdir, file).len()
            > 0,
        inner_dirs(windows, rootdir, file).len() == 0 ==> nested_as(
            look,
            windows,
            rootdir,
            file,
            false,
        ),
{
}

/// Whether runs are given the configuration file `path`, which is to be made or not.
pub open spec fn is_pinned_file(
    inifile: Option<Seq<char>>,
    work: Seq<char>,
    windows: bool,
    path: Seq<char>,
    made: bool,
) -> bool {
    match inifile {
        Some(ini) => path == ini && !made,
        None => path == joined_path(windows, joined_path(windows, work, "config"@), "pytest.ini"@)
            && made,
    }
}

/// Runs are given the file that was loaded, and one is made only where none was.
pub proof fn theorem_the_loaded_file_is_kept(
    inifile: Option<Seq<char>>,
    work: Seq<char>,
    windows: bool,
    path: Seq<char>,
    made: bool,
)
    requires
        is_pinned_file(inifile, work, windows, path, made),
    ensures
        made <==> inifile is None,
        inifile matches Some(ini) ==> path == ini,
        made ==> path == joined_path(
            windows,
            joined_path(windows, work, "config"@),
            "pytest.ini"@,
        ),
{
}

/// What a shell reads otherwise than as it stands is quoted: blanks, quotes, and every sign
/// that has a meaning of its own there; and so is nothing at all.
pub proof fn theorem_what_is_quoted(s: Seq<char>, i: int)
    ensures
        s.len() == 0 ==> quoted(s) == "'"@ + s + "'"@,
        0 <= i < s.len() && (s[i] == ' ' || s[i] == '\t' || s[i] == '\n' || s[i] == '\'' || s[i]
            == '"' || s[i] == '`' || s[i] == '$' || s[i] == '\\' || s[i] == ';' || s[i] == '&'
            || s[i] == '|' || s[i] == '<' || s[i] == '>' || s[i] == '(' || s[i] == ')' || s[i]
            == '[' || s[i] == ']' || s[i] == '{' || s[i] == '}' || s[i] == '*' || s[i] == '?'
            || s[i] == '#' || s[i] == '~' || s[i] == '!' || s[i] == '^') ==> quoted(s) == "'"@
            + replaced(s, '\'', "'\\''"@) + "'"@,
        (s.len() > 0 && forall|k: int|
            0 <= k < s.len() ==> is_letter(#[trigger] s[k]) || is_digit(s[k]) || s[k] == '_' || s[k]
                == '-' || s[k] == '.' || s[k] == '/' || s[k] == ':') ==> quoted(s) == s,
{
    if s.len() == 0 {
        assert(replaced(s, '\'', "'\\''"@) =~= s);
    }
    if 0 <= i < s.len() && plain(s) {
        assert(plain_char(s[i]));
    }
}

} // verus!
