//! What is shown of a run on the pages of CI services.

use crate::nodeids::{file_of, file_part};
use crate::numbers::{dec, decimal};
use crate::ordered_map::{OrderedKey, OrderedMap};
use crate::text::{
    lemma_pos, lines, lines_of, opt_text, replace_char, replaced, str_eq, texts, trim,
    trim_back, trim_front, trimmed,
};
use vstd::prelude::*;

verus! {

broadcast use {crate::text::lemma_texts_push, crate::text::lemma_texts_add};

/// A message for GitHub: on one line, with no character of its own meaning.
pub open spec fn github_data(s: Seq<char>) -> Seq<char> {
    replaced(replaced(replaced(s, '%', "%25"@), '\r', "%0D"@), '\n', "%0A"@)
}

/// A property for GitHub: like a message, and fit for a list of properties.
pub open spec fn github_prop(s: Seq<char>) -> Seq<char> {
    replaced(replaced(github_data(s), ':', "%3A"@), ',', "%2C"@)
}

/// Escapes a message for GitHub.
pub fn gh_data(s: &str) -> (res: String)
    ensures
        res@ == github_data(s@),
{
    let a = replace_char(s, '%', "%25");
    let b = replace_char(a.as_str(), '\r', "%0D");
    replace_char(b.as_str(), '\n', "%0A")
}

/// Escapes a property for GitHub.
pub fn gh_prop(s: &str) -> (res: String)
    ensures
        res@ == github_prop(s@),
{
    let a = gh_data(s);
    let b = replace_char(a.as_str(), ':', "%3A");
    replace_char(b.as_str(), ',', "%2C")
}

/// What a text reads as when its escapes are undone.
pub open spec fn unescaped(t: Seq<char>) -> Seq<char>
    decreases t.len(),
{
    if t.len() == 0 {
        Seq::empty()
    } else if t.len() >= 3 && t.take(3) == "%25"@ {
        seq!['%'] + unescaped(t.skip(3))
    } else if t.len() >= 3 && t.take(3) == "%0D"@ {
        seq!['\r'] + unescaped(t.skip(3))
    } else if t.len() >= 3 && t.take(3) == "%0A"@ {
        seq!['\n'] + unescaped(t.skip(3))
    } else if t.len() >= 3 && t.take(3) == "%3A"@ {
        seq![':'] + unescaped(t.skip(3))
    } else if t.len() >= 3 && t.take(3) == "%2C"@ {
        seq![','] + unescaped(t.skip(3))
    } else {
        seq![t[0]] + unescaped(t.skip(1))
    }
}

pub proof fn lemma_replaced_add(a: Seq<char>, b: Seq<char>, c: char, with: Seq<char>)
    ensures
        replaced(a + b, c, with) == replaced(a, c, with) + replaced(b, c, with),
    decreases b.len(),
{
    if b.len() == 0 {
        assert(a + b =~= a);
        assert(replaced(a, c, with) + replaced(b, c, with) =~= replaced(a, c, with));
    } else {
        lemma_replaced_add(a, b.drop_last(), c, with);
        assert((a + b).drop_last() =~= a + b.drop_last());
        assert((a + b).last() == b.last());
        let tail = if b.last() == c {
            with
        } else {
            seq![b.last()]
        };
        assert(replaced(a, c, with) + replaced(b.drop_last(), c, with) + tail =~= replaced(
            a,
            c,
            with,
        ) + (replaced(b.drop_last(), c, with) + tail));
    }
}

pub proof fn lemma_replaced_absent(s: Seq<char>, c: char, with: Seq<char>)
    requires
        !s.contains(c),
    ensures
        replaced(s, c, with) == s,
    decreases s.len(),
{
    if s.len() > 0 {
        assert(s.last() != c) by {
            assert(s[s.len() - 1] == s.last());
        }
        assert(!s.drop_last().contains(c)) by {
            if s.drop_last().contains(c) {
                let i = choose|i: int| 0 <= i < s.drop_last().len() && s.drop_last()[i] == c;
                assert(s[i] == c);
            }
        }
        lemma_replaced_absent(s.drop_last(), c, with);
        assert(s.drop_last() + seq![s.last()] =~= s);
    }
}

pub proof fn lemma_replaced_one(x: char, c: char, with: Seq<char>)
    ensures
        replaced(seq![x], c, with) == (if x == c {
            with
        } else {
            seq![x]
        }),
{
    let s = seq![x];
    assert(s.drop_last() =~= Seq::empty());
    assert(replaced(Seq::<char>::empty(), c, with) == Seq::<char>::empty());
    assert(Seq::<char>::empty() + with =~= with);
    assert(Seq::<char>::empty() + seq![x] =~= seq![x]);
}

/// How one character of a message is written.
spec fn data_code(x: char) -> Seq<char> {
    if x == '%' {
        "%25"@
    } else if x == '\r' {
        "%0D"@
    } else if x == '\n' {
        "%0A"@
    } else {
        seq![x]
    }
}

/// How one character of a property is written.
spec fn prop_code(x: char) -> Seq<char> {
    if x == ':' {
        "%3A"@
    } else if x == ',' {
        "%2C"@
    } else {
        data_code(x)
    }
}

proof fn lemma_literals()
    ensures
        "%25"@ == seq!['%', '2', '5'],
        "%0D"@ == seq!['%', '0', 'D'],
        "%0A"@ == seq!['%', '0', 'A'],
        "%3A"@ == seq!['%', '3', 'A'],
        "%2C"@ == seq!['%', '2', 'C'],
{
    reveal_strlit("%25");
    reveal_strlit("%0D");
    reveal_strlit("%0A");
    reveal_strlit("%3A");
    reveal_strlit("%2C");
    assert("%25"@ =~= seq!['%', '2', '5']);
    assert("%0D"@ =~= seq!['%', '0', 'D']);
    assert("%0A"@ =~= seq!['%', '0', 'A']);
    assert("%3A"@ =~= seq!['%', '3', 'A']);
    assert("%2C"@ =~= seq!['%', '2', 'C']);
}

proof fn lemma_data_front(s: Seq<char>)
    requires
        s.len() > 0,
    ensures
        github_data(s) == data_code(s[0]) + github_data(s.skip(1)),
{
    let x = seq![s[0]];
    let r = s.skip(1);
    assert(s =~= x + r);
    lemma_literals();
    lemma_replaced_one(s[0], '%', "%25"@);
    lemma_replaced_add(x, r, '%', "%25"@);
    let x1 = replaced(x, '%', "%25"@);
    let r1 = replaced(r, '%', "%25"@);
    lemma_replaced_add(x1, r1, '\r', "%0D"@);
    if s[0] == '%' {
        lemma_replaced_absent(x1, '\r', "%0D"@);
        lemma_replaced_absent(x1, '\n', "%0A"@);
    } else {
        lemma_replaced_one(s[0], '\r', "%0D"@);
        lemma_replaced_one(s[0], '\n', "%0A"@);
        lemma_replaced_absent("%0D"@, '\n', "%0A"@);
    }
    let x2 = replaced(x1, '\r', "%0D"@);
    let r2 = replaced(r1, '\r', "%0D"@);
    lemma_replaced_add(x2, r2, '\n', "%0A"@);
}

proof fn lemma_prop_front(s: Seq<char>)
    requires
        s.len() > 0,
    ensures
        github_prop(s) == prop_code(s[0]) + github_prop(s.skip(1)),
{
    lemma_literals();
    lemma_data_front(s);
    let x = data_code(s[0]);
    let r = github_data(s.skip(1));
    lemma_replaced_add(x, r, ':', "%3A"@);
    let x1 = replaced(x, ':', "%3A"@);
    let r1 = replaced(r, ':', "%3A"@);
    lemma_replaced_add(x1, r1, ',', "%2C"@);
    if x.len() == 1 {
        lemma_replaced_one(s[0], ':', "%3A"@);
        lemma_replaced_one(s[0], ',', "%2C"@);
        lemma_replaced_absent("%3A"@, ',', "%2C"@);
    } else {
        lemma_replaced_absent(x, ':', "%3A"@);
        lemma_replaced_absent(x, ',', "%2C"@);
    }
}

proof fn lemma_unescape_front(code: Seq<char>, x: char, rest: Seq<char>)
    requires
        code == data_code(x) || code == prop_code(x),
    ensures
        unescaped(code + rest) == seq![x] + unescaped(rest),
{
    lemma_literals();
    let t = code + rest;
    if code.len() == 3 {
        assert(t.take(3) =~= code);
        assert(t.skip(3) =~= rest);
    } else {
        assert(t[0] == x);
        assert(t.skip(1) =~= rest);
        if t.len() >= 3 {
            assert(t.take(3)[0] == x);
        }
    }
    assert("%25"@[2] != "%2C"@[2]);
    assert("%0D"@[2] != "%0A"@[2]);
    assert("%25"@[1] != "%0D"@[1]);
    assert("%25"@[1] != "%0A"@[1]);
    assert("%25"@[1] != "%3A"@[1]);
    assert("%0D"@[1] != "%3A"@[1]);
    assert("%0A"@[1] != "%3A"@[1]);
    assert("%0D"@[1] != "%2C"@[1]);
    assert("%0A"@[1] != "%2C"@[1]);
    assert("%3A"@[1] != "%2C"@[1]);
}

/// What is escaped for GitHub reads as what it was, whether as a message or as a
/// property: no escape is escaped again.
pub proof fn theorem_escapes_read_back(s: Seq<char>)
    ensures
        unescaped(github_data(s)) == s,
        unescaped(github_prop(s)) == s,
    decreases s.len(),
{
    if s.len() == 0 {
        assert(github_data(s) == s);
        assert(github_prop(s) == s);
    } else {
        lemma_data_front(s);
        lemma_prop_front(s);
        theorem_escapes_read_back(s.skip(1));
        lemma_unescape_front(data_code(s[0]), s[0], github_data(s.skip(1)));
        lemma_unescape_front(prop_code(s[0]), s[0], github_prop(s.skip(1)));
        assert(seq![s[0]] + s.skip(1) =~= s);
    }
}

proof fn lemma_code_holds(s: Seq<char>, c: char)
    requires
        c == '\n' || c == '\r',
    ensures
        !github_data(s).contains(c),
        !github_prop(s).contains(c),
        !github_prop(s).contains(':'),
        !github_prop(s).contains(','),
    decreases s.len(),
{
    if s.len() > 0 {
        lemma_literals();
        lemma_data_front(s);
        lemma_prop_front(s);
        lemma_code_holds(s.skip(1), c);
        let d = data_code(s[0]);
        let p = prop_code(s[0]);
        lemma_apart(d, github_data(s.skip(1)), c);
        lemma_apart(p, github_prop(s.skip(1)), c);
        lemma_apart(p, github_prop(s.skip(1)), ':');
        lemma_apart(p, github_prop(s.skip(1)), ',');
    }
}

proof fn lemma_apart(a: Seq<char>, b: Seq<char>, c: char)
    requires
        !a.contains(c),
        !b.contains(c),
    ensures
        !(a + b).contains(c),
{
    if (a + b).contains(c) {
        let i = choose|i: int| 0 <= i < (a + b).len() && (a + b)[i] == c;
        if i < a.len() {
            assert(a[i] == c);
        } else {
            assert(b[i - a.len()] == c);
        }
    }
}

/// What is escaped for GitHub stays on one line, and a property does not end the
/// list of properties it stands in.
pub proof fn theorem_escaped_stays_in_place(s: Seq<char>)
    ensures
        !github_data(s).contains('\n'),
        !github_data(s).contains('\r'),
        !github_prop(s).contains('\n'),
        !github_prop(s).contains('\r'),
        !github_prop(s).contains(':'),
        !github_prop(s).contains(','),
{
    lemma_code_holds(s, '\n');
    lemma_code_holds(s, '\r');
}

/// A message for Azure: the first line.
pub open spec fn azure_line(s: Seq<char>) -> Seq<char> {
    if lines_of(s).len() == 0 {
        ""@
    } else {
        trimmed(lines_of(s)[0])
    }
}

/// A property for Azure: the first line, fit for a list of properties.
pub open spec fn azure_prop(s: Seq<char>) -> Seq<char> {
    replaced(replaced(azure_line(s), ';', "%3B"@), ']', "%5D"@)
}

/// Cuts a message for Azure down to its first line.
pub fn az_line(s: &str) -> (res: String)
    ensures
        res@ == azure_line(s@),
{
    let ls = lines(s);
    assert(texts(ls@).len() == ls@.len());
    if ls.len() == 0 {
        "".to_owned()
    } else {
        assert(texts(ls@)[0] == ls@[0]@);
        trim(ls[0].as_str())
    }
}

/// Escapes a property for Azure.
pub fn az_prop(s: &str) -> (res: String)
    ensures
        res@ == azure_prop(s@),
{
    let a = az_line(s);
    let b = replace_char(a.as_str(), ';', "%3B");
    replace_char(b.as_str(), ']', "%5D")
}

proof fn lemma_trim_front_holds(s: Seq<char>, c: char)
    requires
        trim_front(s).contains(c),
    ensures
        s.contains(c),
    decreases s.len(),
{
    if s.len() > 0 && crate::text::is_space(s[0]) {
        lemma_trim_front_holds(s.skip(1), c);
        let i = choose|i: int| 0 <= i < s.skip(1).len() && s.skip(1)[i] == c;
        assert(s[i + 1] == c);
    }
}

proof fn lemma_trim_back_holds(s: Seq<char>, c: char)
    requires
        trim_back(s).contains(c),
    ensures
        s.contains(c),
    decreases s.len(),
{
    if s.len() > 0 && crate::text::is_space(s.last()) {
        lemma_trim_back_holds(s.drop_last(), c);
        let i = choose|i: int| 0 <= i < s.drop_last().len() && s.drop_last()[i] == c;
        assert(s[i] == c);
    }
}

/// What is escaped for Azure stays on one line, and a property does not end the
/// command it stands in.
pub proof fn theorem_azure_stays_in_place(s: Seq<char>)
    ensures
        !azure_line(s).contains('\n'),
        !azure_prop(s).contains('\n'),
        !azure_prop(s).contains(';'),
        !azure_prop(s).contains(']'),
{
    reveal_strlit("");
    reveal_strlit("%3B");
    reveal_strlit("%5D");
    lemma_pos(s, '\n');
    let l = azure_line(s);
    if l.contains('\n') {
        let first = lines_of(s)[0];
        lemma_trim_back_holds(trim_front(first), '\n');
        lemma_trim_front_holds(first, '\n');
        let i = choose|i: int| 0 <= i < first.len() && first[i] == '\n';
        assert(s[i] == '\n');
    }
    let a = replaced(l, ';', "%3B"@);
    if azure_prop(s).contains('\n') {
        crate::junit::lemma_replaced_holds(a, ']', "%5D"@, '\n');
        crate::junit::lemma_replaced_holds(l, ';', "%3B"@, '\n');
    }
    if azure_prop(s).contains(';') {
        crate::junit::lemma_replaced_holds(a, ']', "%5D"@, ';');
        crate::junit::lemma_replaced_holds(l, ';', "%3B"@, ';');
    }
    if azure_prop(s).contains(']') {
        crate::junit::lemma_replaced_holds(a, ']', "%5D"@, ']');
    }
}

/// What is known of a test after a run.
pub struct Entry {
    pub setup: Option<String>,
    pub call: Option<String>,
    pub teardown: Option<String>,
    /// The line it begins on, counted from zero.
    pub lineno: Option<u64>,
    /// What it failed with.
    pub longrepr: Option<String>,
}

/// Whether a phase failed.
pub open spec fn failed_phase(p: Option<String>) -> bool {
    opt_text(p) == Some("failed"@)
}

fn is_failed(p: &Option<String>) -> (res: bool)
    ensures
        res == failed_phase(*p),
{
    match p {
        Some(s) => str_eq(s.as_str(), "failed"),
        None => false,
    }
}

impl Entry {
    /// Whether any phase of the test failed.
    pub open spec fn failing(self) -> bool {
        failed_phase(self.call) || failed_phase(self.setup) || failed_phase(self.teardown)
    }

    /// Whether any phase of the test failed.
    pub fn failed(&self) -> (res: bool)
        ensures
            res == self.failing(),
    {
        is_failed(&self.call) || is_failed(&self.setup) || is_failed(&self.teardown)
    }

    /// What it failed with.
    pub open spec fn message(self) -> Seq<char> {
        match self.longrepr {
            Some(m) => m@,
            None => "test failed"@,
        }
    }

    /// Whether the number of its line can be counted from one.
    pub open spec fn countable(self) -> bool {
        self.lineno matches Some(l) ==> l < u64::MAX
    }
}

fn message_of(e: &Entry) -> (res: String)
    ensures
        res@ == e.message(),
{
    match &e.longrepr {
        Some(m) => m.clone(),
        None => "test failed".to_owned(),
    }
}

/// The file of a test, seen from the root of the repository.
pub open spec fn source_of(prefix: Option<Seq<char>>, id: Seq<char>) -> Seq<char> {
    match prefix {
        Some(p) => if p.len() > 0 {
            p + "/"@ + file_part(id)
        } else {
            file_part(id)
        },
        None => file_part(id),
    }
}

fn source(prefix: &Option<String>, id: &str) -> (res: String)
    ensures
        res@ == source_of(opt_text(*prefix), id@),
{
    let rel = file_of(id);
    match prefix {
        Some(p) => if p.as_str().is_empty() {
            rel
        } else {
            let mut out = p.clone();
            out.append("/");
            out.append(rel.as_str());
            out
        },
        None => rel,
    }
}

/// How often something was run again, in words.
pub open spec fn plural(n: u32) -> Seq<char> {
    if n > 1 {
        "s"@
    } else {
        ""@
    }
}

fn plural_of(n: u32) -> (res: String)
    ensures
        res@ == plural(n),
{
    if n > 1 {
        "s".to_owned()
    } else {
        "".to_owned()
    }
}

/// The properties of a test for GitHub.
pub open spec fn github_props(prefix: Option<Seq<char>>, id: Seq<char>, e: Entry) -> Seq<char> {
    let props = "file="@ + github_prop(source_of(prefix, id)) + ",title="@ + github_prop(id);
    match e.lineno {
        Some(l) => props + ",line="@ + decimal((l + 1) as nat),
        None => props,
    }
}

fn gh_props(prefix: &Option<String>, id: &str, e: &Entry) -> (res: String)
    requires
        e.countable(),
    ensures
        res@ == github_props(opt_text(*prefix), id@, *e),
{
    let mut out = String::from_str("file=");
    out.append(gh_prop(source(prefix, id).as_str()).as_str());
    out.append(",title=");
    out.append(gh_prop(id).as_str());
    match e.lineno {
        Some(l) => {
            out.append(",line=");
            out.append(dec(l + 1).as_str());
        },
        None => {},
    }
    out
}

/// The properties of a test for Azure.
pub open spec fn azure_props(prefix: Option<Seq<char>>, id: Seq<char>, e: Entry) -> Seq<char> {
    let props = ";sourcepath="@ + azure_prop(source_of(prefix, id));
    match e.lineno {
        Some(l) => props + ";linenumber="@ + decimal((l + 1) as nat),
        None => props,
    }
}

fn az_props(prefix: &Option<String>, id: &str, e: &Entry) -> (res: String)
    requires
        e.countable(),
    ensures
        res@ == azure_props(opt_text(*prefix), id@, *e),
{
    let mut out = String::from_str(";sourcepath=");
    out.append(az_prop(source(prefix, id).as_str()).as_str());
    match e.lineno {
        Some(l) => {
            out.append(";linenumber=");
            out.append(dec(l + 1).as_str());
        },
        None => {},
    }
    out
}

/// A service whose pages show failures.
#[derive(Clone, Copy, Debug, PartialEq, Eq, Structural)]
pub enum Service {
    Github,
    Azure,
}

/// What makes a service show a failed test.
pub open spec fn error_line(
    service: Service,
    prefix: Option<Seq<char>>,
    id: Seq<char>,
    e: Entry,
) -> Seq<char> {
    match service {
        Service::Github => "::error "@ + github_props(prefix, id, e) + "::"@ + github_data(
            e.message(),
        ),
        Service::Azure => "##vso[task.logissue type=error"@ + azure_props(prefix, id, e) + "]"@ + id
            + ": "@ + azure_line(e.message()),
    }
}

fn write_error(service: Service, prefix: &Option<String>, id: &str, e: &Entry) -> (res: String)
    requires
        e.countable(),
    ensures
        res@ == error_line(service, opt_text(*prefix), id@, *e),
{
    match service {
        Service::Github => {
            let mut out = String::from_str("::error ");
            out.append(gh_props(prefix, id, e).as_str());
            out.append("::");
            out.append(gh_data(message_of(e).as_str()).as_str());
            out
        },
        Service::Azure => {
            let mut out = String::from_str("##vso[task.logissue type=error");
            out.append(az_props(prefix, id, e).as_str());
            out.append("]");
            out.append(id);
            out.append(": ");
            out.append(az_line(message_of(e).as_str()).as_str());
            out
        },
    }
}

/// What makes a service show a test that passed only when it was run again.
pub open spec fn warning_line(
    service: Service,
    prefix: Option<Seq<char>>,
    id: Seq<char>,
    e: Entry,
    attempts: u32,
) -> Seq<char> {
    match service {
        Service::Github => "::warning "@ + github_props(prefix, id, e)
            + "::flaky: passed only after "@ + decimal(attempts as nat) + " rerun"@ + plural(attempts),
        Service::Azure => "##vso[task.logissue type=warning"@ + azure_props(prefix, id, e) + "]"@ + id
            + ": flaky, passed only after "@ + decimal(attempts as nat) + " rerun"@ + plural(
            attempts,
        ),
    }
}

fn write_warning(
    service: Service,
    prefix: &Option<String>,
    id: &str,
    e: &Entry,
    attempts: u32,
) -> (res: String)
    requires
        e.countable(),
    ensures
        res@ == warning_line(service, opt_text(*prefix), id@, *e, attempts),
{
    match service {
        Service::Github => {
            let mut out = String::from_str("::warning ");
            out.append(gh_props(prefix, id, e).as_str());
            out.append("::flaky: passed only after ");
            out.append(dec(attempts as u64).as_str());
            out.append(" rerun");
            out.append(plural_of(attempts).as_str());
            out
        },
        Service::Azure => {
            let mut out = String::from_str("##vso[task.logissue type=warning");
            out.append(az_props(prefix, id, e).as_str());
            out.append("]");
            out.append(id);
            out.append(": flaky, passed only after ");
            out.append(dec(attempts as u64).as_str());
            out.append(" rerun");
            out.append(plural_of(attempts).as_str());
            out
        },
    }
}

/// What makes a service show the failed tests among the first `n`.
pub open spec fn error_lines(
    service: Service,
    prefix: Option<Seq<char>>,
    tests: Seq<(String, Entry)>,
    n: nat,
) -> Seq<Seq<char>>
    decreases n,
{
    if n == 0 {
        Seq::empty()
    } else {
        let before = error_lines(service, prefix, tests, (n - 1) as nat);
        if tests[n - 1].1.failing() {
            before.push(error_line(service, prefix, tests[n - 1].0@, tests[n - 1].1))
        } else {
            before
        }
    }
}

/// What makes a service show the first `n` flaky tests, as far as they were run.
pub open spec fn warning_lines(
    service: Service,
    prefix: Option<Seq<char>>,
    tests: Map<Seq<char>, Entry>,
    flaky: Seq<(String, u32)>,
    n: nat,
) -> Seq<Seq<char>>
    decreases n,
{
    if n == 0 {
        Seq::empty()
    } else {
        let before = warning_lines(service, prefix, tests, flaky, (n - 1) as nat);
        let id = flaky[n - 1].0@;
        if tests.contains_key(id) {
            before.push(warning_line(service, prefix, id, tests[id], flaky[n - 1].1))
        } else {
            before
        }
    }
}

/// Writes what makes a service show the failed and the flaky tests of a run.
pub fn annotations(
    service: Service,
    prefix: &Option<String>,
    tests: &OrderedMap<String, Entry>,
    flaky: &[(String, u32)],
) -> (res: Vec<String>)
    requires
        forall|i: int| 0 <= i < tests.list().len() ==> (#[trigger] tests.list()[i]).1.countable(),
    ensures
        texts(res@) == error_lines(
            service,
            opt_text(*prefix),
            tests.list(),
            tests.list().len(),
        ) + warning_lines(service, opt_text(*prefix), tests@, flaky@, flaky@.len()),
{
    let n = tests.len();
    let ghost list = tests.list();
    let ghost pre = opt_text(*prefix);
    let mut out: Vec<String> = Vec::new();
    let mut i: usize = 0;
    assert(texts(out@) =~= error_lines(service, pre, list, 0));
    while i < n
        invariant
            i <= n,
            n == list.len(),
            list == tests.list(),
            pre == opt_text(*prefix),
            forall|i: int| 0 <= i < list.len() ==> (#[trigger] list[i]).1.countable(),
            texts(out@) == error_lines(service, pre, list, i as nat),
        decreases n - i,
    {
        let (id, e) = tests.at(i);
        assert(list[i as int].1.countable());
        if e.failed() {
            out.push(write_error(service, prefix, id.as_str(), e));
        }
        i += 1;
    }
    let ghost errors = texts(out@);
    let mut k: usize = 0;
    assert(errors + warning_lines(service, pre, tests@, flaky@, 0) =~= errors);
    while k < flaky.len()
        invariant
            k <= flaky.len(),
            n == list.len(),
            list == tests.list(),
            tests.listed(),
            pre == opt_text(*prefix),
            forall|i: int| 0 <= i < list.len() ==> (#[trigger] list[i]).1.countable(),
            texts(out@) == errors + warning_lines(service, pre, tests@, flaky@, k as nat),
        decreases flaky.len() - k,
    {
        let (id, attempts) = &flaky[k];
        let ghost before = warning_lines(service, pre, tests@, flaky@, k as nat);
        match tests.get(id) {
            Some(e) => {
                proof {
                    let j = choose|j: int| #[trigger] crate::ordered_map::key_at(list, j, id@);
                    assert(tests@[list[j].0.model()] == list[j].1);
                    assert(list[j].1.countable());
                }
                let line = write_warning(service, prefix, id.as_str(), e, *attempts);
                assert(errors + before.push(line@) =~= (errors + before).push(line@));
                out.push(line);
            },
            None => {},
        }
        k += 1;
    }
    out
}

/// The lines on the first `n` flaky tests for Buildkite.
pub open spec fn flaky_rows(flaky: Seq<(String, u32)>, n: nat) -> Seq<char>
    decreases n,
{
    if n == 0 {
        Seq::empty()
    } else {
        flaky_rows(flaky, (n - 1) as nat) + "- `"@ + flaky[n - 1].0@ + "` — "@ + decimal(
            flaky[n - 1].1 as nat,
        ) + " rerun"@ + plural(flaky[n - 1].1) + "\n"@
    }
}

/// What is shown on Buildkite of flaky tests, where there are any and the run is
/// one of Buildkite's.
pub fn buildkite_note(flaky: &[(String, u32)], buildkite: &Option<String>) -> (res: Option<String>)
    ensures
        match res {
            Some(t) => notes_flaky(opt_text(*buildkite), flaky@.len()) && t@
                == "**Flaky tests** (passed only after reruns):\n\n"@ + flaky_rows(
                flaky@,
                flaky@.len(),
            ),
            None => !notes_flaky(opt_text(*buildkite), flaky@.len()),
        },
{
    let here = match buildkite {
        Some(v) => !v.as_str().is_empty(),
        None => false,
    };
    if flaky.len() == 0 || !here {
        return None;
    }
    let mut rows = String::new();
    let mut i: usize = 0;
    assert(rows@ =~= flaky_rows(flaky@, 0));
    while i < flaky.len()
        invariant
            i <= flaky.len(),
            rows@ == flaky_rows(flaky@, i as nat),
        decreases flaky.len() - i,
    {
        rows.append("- `");
        rows.append(flaky[i].0.as_str());
        rows.append("` — ");
        rows.append(dec(flaky[i].1 as u64).as_str());
        rows.append(" rerun");
        rows.append(plural_of(flaky[i].1).as_str());
        rows.append("\n");
        i += 1;
    }
    let mut out = String::from_str("**Flaky tests** (passed only after reruns):\n\n");
    out.append(rows.as_str());
    Some(out)
}

/// Whether a note on flaky tests is left with the build.
pub open spec fn notes_flaky(buildkite: Option<Seq<char>>, flaky: nat) -> bool {
    flaky > 0 && (buildkite matches Some(v) && v.len() > 0)
}

/// A note is left where a build is known by a name that is not empty and a test was flaky.
pub proof fn theorem_where_a_note_is_left(name: Seq<char>, flaky: nat)
    ensures
        !notes_flaky(None, flaky),
        !notes_flaky(Some(Seq::empty()), flaky),
        !notes_flaky(Some(name), 0),
        name.len() > 0 && flaky >= 1 ==> notes_flaky(Some(name), flaky),
{
}

/// A test failed where any of its phases did.
pub proof fn theorem_one_failed_phase_is_a_failure(e: Entry)
    ensures
        (e.setup matches Some(p) && p@ == "failed"@) ==> e.failing(),
        (e.call matches Some(p) && p@ == "failed"@) ==> e.failing(),
        (e.teardown matches Some(p) && p@ == "failed"@) ==> e.failing(),
        e.failing() ==> (e.setup matches Some(p) && p@ == "failed"@) || (e.call matches Some(p) && p@
            == "failed"@) || (e.teardown matches Some(p) && p@ == "failed"@),
{
}

/// A file is named below the prefix, where there is one that is not empty.
pub proof fn theorem_files_below_the_prefix(p: Seq<char>, id: Seq<char>)
    ensures
        source_of(None, id) == file_part(id),
        source_of(Some(Seq::empty()), id) == file_part(id),
        p.len() > 0 ==> source_of(Some(p), id) == p + "/"@ + file_part(id),
{
}

/// Lines are counted from one, and left out where they are not known.
pub proof fn theorem_lines_count_from_one(
    prefix: Option<Seq<char>>,
    id: Seq<char>,
    known: Entry,
    unknown: Entry,
    line: u64,
)
    requires
        known.lineno == Some(line),
        unknown.lineno is None,
    ensures
        github_props(prefix, id, known) == github_props(prefix, id, unknown) + ",line="@ + decimal(
            line as nat + 1,
        ),
        azure_props(prefix, id, known) == azure_props(prefix, id, unknown) + ";linenumber="@
            + decimal(line as nat + 1),
{
}

/// A test that failed has one line with what it failed with; one that did not has none.
pub proof fn theorem_each_failure_has_a_line(
    service: Service,
    prefix: Option<Seq<char>>,
    tests: Seq<(String, Entry)>,
    n: nat,
)
    requires
        n < tests.len(),
    ensures
        tests[n as int].1.failing() ==> error_lines(service, prefix, tests, n + 1) == error_lines(
            service,
            prefix,
            tests,
            n,
        ).push(error_line(service, prefix, tests[n as int].0@, tests[n as int].1)),
        !tests[n as int].1.failing() ==> error_lines(service, prefix, tests, n + 1) == error_lines(
            service,
            prefix,
            tests,
            n,
        ),
        error_lines(service, prefix, tests, 0).len() == 0,
        tests[n as int].1.longrepr is None ==> tests[n as int].1.message() == "test failed"@,
        tests[n as int].1.longrepr matches Some(m) ==> tests[n as int].1.message() == m@,
{
}

/// A flaky test has one line with how often it ran again, where it is known from the run; one
/// time is told without the plural.
pub proof fn theorem_each_flaky_test_has_a_line(
    service: Service,
    prefix: Option<Seq<char>>,
    tests: Map<Seq<char>, Entry>,
    flaky: Seq<(String, u32)>,
    n: nat,
)
    requires
        n < flaky.len(),
    ensures
        tests.contains_key(flaky[n as int].0@) ==> warning_lines(
            service,
            prefix,
            tests,
            flaky,
            n + 1,
        ) == warning_lines(service, prefix, tests, flaky, n).push(
            warning_line(
                service,
                prefix,
                flaky[n as int].0@,
                tests[flaky[n as int].0@],
                flaky[n as int].1,
            ),
        ),
        !tests.contains_key(flaky[n as int].0@) ==> warning_lines(
            service,
            prefix,
            tests,
            flaky,
            n + 1,
        ) == warning_lines(service, prefix, tests, flaky, n),
        warning_lines(service, prefix, tests, flaky, 0).len() == 0,
        plural(1) == ""@ && plural(0) == ""@,
        flaky[n as int].1 >= 2 ==> plural(flaky[n as int].1) == "s"@,
{
}

/// Text and properties are escaped character by character.
pub proof fn theorem_escaping_is_by_character(a: Seq<char>, b: Seq<char>, x: char)
    ensures
        github_data(a + b) == github_data(a) + github_data(b),
        github_prop(a + b) == github_prop(a) + github_prop(b),
        github_data(seq!['%']) == "%25"@ && github_data(seq!['\r']) == "%0D"@ && github_data(
            seq!['\n'],
        ) == "%0A"@,
        github_prop(seq![':']) == "%3A"@ && github_prop(seq![',']) == "%2C"@,
        x != '%' && x != '\r' && x != '\n' ==> github_data(seq![x]) == seq![x],
        x != '%' && x != '\r' && x != '\n' && x != ':' && x != ',' ==> github_prop(seq![x]) == seq![
            x,
        ],
{
    reveal_strlit("%25");
    reveal_strlit("%0D");
    reveal_strlit("%0A");
    reveal_strlit("%3A");
    reveal_strlit("%2C");
    let f = |s: Seq<char>| replaced(s, '%', "%25"@);
    let g = |s: Seq<char>| replaced(f(s), '\r', "%0D"@);
    lemma_replaced_add(a, b, '%', "%25"@);
    lemma_replaced_add(f(a), f(b), '\r', "%0D"@);
    lemma_replaced_add(g(a), g(b), '\n', "%0A"@);
    lemma_replaced_add(github_data(a), github_data(b), ':', "%3A"@);
    let h = |s: Seq<char>| replaced(github_data(s), ':', "%3A"@);
    lemma_replaced_add(h(a), h(b), ',', "%2C"@);
    assert forall|y: char|
        #![trigger seq![y]]
        true implies ({
        &&& y == '%' ==> github_data(seq![y]) == "%25"@
        &&& y == '\r' ==> github_data(seq![y]) == "%0D"@
        &&& y == '\n' ==> github_data(seq![y]) == "%0A"@
        &&& y != '%' && y != '\r' && y != '\n' ==> github_data(seq![y]) == seq![y]
    }) by {
        lemma_replaced_one(y, '%', "%25"@);
        lemma_replaced_one(y, '\r', "%0D"@);
        lemma_replaced_one(y, '\n', "%0A"@);
        lemma_replaced_absent("%25"@, '\r', "%0D"@);
        lemma_replaced_absent("%25"@, '\n', "%0A"@);
        lemma_replaced_absent("%0D"@, '\n', "%0A"@);
    }
    lemma_replaced_one(':', ':', "%3A"@);
    lemma_replaced_one(',', ':', "%3A"@);
    lemma_replaced_one(',', ',', "%2C"@);
    lemma_replaced_one(x, ':', "%3A"@);
    lemma_replaced_one(x, ',', "%2C"@);
    lemma_replaced_absent("%3A"@, ',', "%2C"@);
    assert(github_data(seq![':']) == seq![':']);
    assert(github_data(seq![',']) == seq![',']);
}

} // verus!
