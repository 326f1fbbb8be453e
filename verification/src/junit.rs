//! The results of a run as a JUnit XML document.

use crate::double::{Double, ZERO};
use crate::nodeids::{lemma_sub_pos, sub_pos};
use crate::numbers::{dec, decimal};
use crate::text::{
    contains_sub, ends, ends_with, find_str, from_range, replace_char, replaced, str_eq, texts,
    to_chars,
};
use vstd::prelude::*;

verus! {

broadcast use crate::text::lemma_texts_push;

/// A text in which no character is taken for markup.
pub open spec fn escaped(s: Seq<char>) -> Seq<char> {
    replaced(
        replaced(replaced(replaced(s, '&', "&amp;"@), '<', "&lt;"@), '>', "&gt;"@),
        '"',
        "&quot;"@,
    )
}

/// Escapes the characters that would be taken for markup.
pub fn esc(s: &str) -> (res: String)
    ensures
        res@ == escaped(s@),
{
    let a = replace_char(s, '&', "&amp;");
    let b = replace_char(a.as_str(), '<', "&lt;");
    let c = replace_char(b.as_str(), '>', "&gt;");
    replace_char(c.as_str(), '"', "&quot;")
}

/// A character of a text with replacements is one of the text or of what was put in.
pub proof fn lemma_replaced_holds(s: Seq<char>, c: char, with: Seq<char>, x: char)
    requires
        replaced(s, c, with).contains(x),
    ensures
        (s.contains(x) && x != c) || with.contains(x),
    decreases s.len(),
{
    let before = replaced(s.drop_last(), c, with);
    let all = replaced(s, c, with);
    if s.len() > 0 {
        let i = choose|i: int| 0 <= i < all.len() && all[i] == x;
        if i < before.len() {
            assert(before[i] == x);
            lemma_replaced_holds(s.drop_last(), c, with, x);
            if s.drop_last().contains(x) {
                let k = choose|k: int| 0 <= k < s.drop_last().len() && s.drop_last()[k] == x;
                assert(s[k] == x);
            }
        } else if s.last() == c {
            assert(with[i - before.len()] == x);
        } else {
            assert(s[s.len() - 1] == x);
        }
    } else {
        assert(all =~= Seq::empty());
    }
}

/// An escaped text has no angle bracket and no quote, so that it stays within an
/// attribute or an element.
pub proof fn theorem_escaped_has_no_markup(s: Seq<char>)
    ensures
        !escaped(s).contains('<'),
        !escaped(s).contains('>'),
        !escaped(s).contains('"'),
{
    reveal_strlit("&amp;");
    reveal_strlit("&lt;");
    reveal_strlit("&gt;");
    reveal_strlit("&quot;");
    let a = replaced(s, '&', "&amp;"@);
    let b = replaced(a, '<', "&lt;"@);
    let c = replaced(b, '>', "&gt;"@);
    if escaped(s).contains('"') {
        lemma_replaced_holds(c, '"', "&quot;"@, '"');
    }
    if escaped(s).contains('>') {
        lemma_replaced_holds(c, '"', "&quot;"@, '>');
        lemma_replaced_holds(b, '>', "&gt;"@, '>');
    }
    if escaped(s).contains('<') {
        lemma_replaced_holds(c, '"', "&quot;"@, '<');
        lemma_replaced_holds(b, '>', "&gt;"@, '<');
        lemma_replaced_holds(a, '<', "&lt;"@, '<');
    }
}

/// The parts of a node id, between `::`.
pub open spec fn id_parts(s: Seq<char>) -> Seq<Seq<char>>
    decreases s.len(),
{
    if contains_sub(s, "::"@) && 0 <= sub_pos(s, "::"@) && sub_pos(s, "::"@) + 2 <= s.len() {
        let p = sub_pos(s, "::"@);
        seq![s.take(p)] + id_parts(s.skip(p + 2))
    } else {
        seq![s]
    }
}

proof fn lemma_id_parts_nonempty(s: Seq<char>)
    ensures
        id_parts(s).len() > 0,
{
}

fn split_id(s: &str) -> (res: Vec<String>)
    ensures
        texts(res@) == id_parts(s@),
{
    let mut out: Vec<String> = Vec::new();
    let mut rest = s.to_owned();
    assert(texts(out@) + id_parts(s@) =~= id_parts(s@));
    loop
        invariant
            texts(out@) + id_parts(rest@) == id_parts(s@),
        decreases rest@.len(),
    {
        match find_str(rest.as_str(), "::") {
            Some(p) => {
                let v = to_chars(rest.as_str());
                let n = v.len();
                let ghost whole = rest@;
                proof {
                    reveal_strlit("::");
                    lemma_sub_pos(rest@, "::"@, p as int);
                    assert(crate::text::occurs_at(rest@, "::"@, p as int));
                }
                let head = from_range(&v, 0, p);
                let tail = from_range(&v, p + 2, n);
                proof {
                    assert(head@ =~= whole.take(p as int));
                    assert(tail@ =~= whole.skip(p + 2));
                    assert(id_parts(whole) == seq![head@] + id_parts(tail@));
                    assert(texts(out@) + (seq![head@] + id_parts(tail@)) =~= texts(out@).push(
                        head@,
                    ) + id_parts(tail@));
                }
                out.push(head);
                rest = tail;
            },
            None => {
                assert(id_parts(rest@) == seq![rest@]);
                assert(texts(out@) + seq![rest@] =~= texts(out@).push(rest@));
                out.push(rest);
                return out;
            },
        }
    }
}

/// A file name without any `.py` at its end.
pub open spec fn stem(s: Seq<char>) -> Seq<char>
    decreases s.len(),
{
    if ends(s, ".py"@) && s.len() >= 3 {
        stem(s.take(s.len() - 3))
    } else {
        s
    }
}

fn strip_py(s: &str) -> (res: String)
    ensures
        res@ == stem(s@),
{
    let mut rest = s.to_owned();
    while ends_with(rest.as_str(), ".py")
        invariant
            stem(rest@) == stem(s@),
        decreases rest@.len(),
    {
        proof {
            reveal_strlit(".py");
        }
        let v = to_chars(rest.as_str());
        let n = v.len();
        let ghost whole = rest@;
        rest = from_range(&v, 0, n - 3);
        assert(rest@ =~= whole.take(whole.len() - 3));
    }
    rest
}

/// The module of a test file: its path with dots, without the extension.
pub open spec fn module_name(file: Seq<char>) -> Seq<char> {
    replaced(replaced(stem(file), '/', "."@), '\\', "."@)
}

/// A module and classes within it, with dots between them.
pub open spec fn dotted(module: Seq<char>, classes: Seq<Seq<char>>) -> Seq<char>
    decreases classes.len(),
{
    if classes.len() == 0 {
        module
    } else {
        dotted(module, classes.drop_last()) + "."@ + classes.last()
    }
}

/// The class name of a test, and its own name.
pub open spec fn named_parts(nodeid: Seq<char>) -> (Seq<char>, Seq<char>) {
    let parts = id_parts(nodeid);
    let outer = parts.drop_last();
    if outer.len() == 0 {
        (module_name(""@), parts.last())
    } else {
        (dotted(module_name(outer[0]), outer.skip(1)), parts.last())
    }
}

/// Splits a node id into a class name and a name: the path and the classes with
/// dots between them, and the last part.
pub fn split_nodeid(nodeid: &str) -> (res: (String, String))
    ensures
        (res.0@, res.1@) == named_parts(nodeid@),
{
    let parts = split_id(nodeid);
    proof {
        lemma_id_parts_nonempty(nodeid@);
    }
    let ghost outer = id_parts(nodeid@).drop_last();
    assert(parts@.len() == id_parts(nodeid@).len());
    let last = parts.len() - 1;
    let name = parts[last].clone();
    let first = if last == 0 { "".to_owned() } else { parts[0].clone() };
    let bare = strip_py(first.as_str());
    let slashed = replace_char(bare.as_str(), '/', ".");
    let mut class = replace_char(slashed.as_str(), '\\', ".");
    let ghost module = class@;
    if last == 0 {
        return (class, name);
    }
    assert(outer[0] == first@);
    let mut i: usize = 1;
    assert(dotted(module, outer.skip(1).take(0)) =~= module);
    while i < last
        invariant
            1 <= i <= last,
            last == parts@.len() - 1,
            outer == texts(parts@).drop_last(),
            class@ == dotted(module, outer.skip(1).take(i - 1)),
        decreases last - i,
    {
        proof {
            let t = outer.skip(1).take(i as int);
            assert(t.drop_last() =~= outer.skip(1).take(i - 1));
            assert(t.last() == parts@[i as int]@);
        }
        class.append(".");
        class.append(parts[i].as_str());
        i += 1;
    }
    assert(outer.skip(1).take(last - 1) =~= outer.skip(1));
    (class, name)
}

/// What is known of a test after a run.
pub struct Case {
    pub nodeid: String,
    pub duration: Option<Double>,
    /// The outcomes of its phases: `passed`, `failed` or `skipped`.
    pub setup: Option<String>,
    pub call: Option<String>,
    pub teardown: Option<String>,
    pub skip_reason: Option<String>,
    /// Whether it passed only when it was run again.
    pub flaky: bool,
    /// What was printed of its failure.
    pub failure_text: Option<String>,
}

/// What a test counts as.
#[derive(Clone, Copy, Debug, PartialEq, Eq, Structural)]
pub enum CaseKind {
    Errored,
    Failed,
    Skipped,
    Flaky,
    Passed,
}

/// Whether a phase had an outcome.
pub open spec fn came_out(phase: Option<String>, outcome: Seq<char>) -> bool {
    phase is Some && phase.unwrap()@ == outcome
}

/// What a test counts as: an error where setup or teardown failed, then a failure
/// where the test itself failed, then skipped.
pub open spec fn kind_of(c: Case) -> CaseKind {
    if came_out(c.setup, "failed"@) || came_out(c.teardown, "failed"@) {
        CaseKind::Errored
    } else if came_out(c.call, "failed"@) {
        CaseKind::Failed
    } else if came_out(c.call, "skipped"@) || came_out(c.setup, "skipped"@) {
        CaseKind::Skipped
    } else if c.flaky {
        CaseKind::Flaky
    } else {
        CaseKind::Passed
    }
}

fn is_outcome(phase: &Option<String>, outcome: &str) -> (res: bool)
    ensures
        res == came_out(*phase, outcome@),
{
    match phase {
        Some(s) => str_eq(s.as_str(), outcome),
        None => false,
    }
}

/// Decides what a test counts as.
pub fn classify_case(c: &Case) -> (res: CaseKind)
    ensures
        res == kind_of(*c),
{
    if is_outcome(&c.setup, "failed") || is_outcome(&c.teardown, "failed") {
        CaseKind::Errored
    } else if is_outcome(&c.call, "failed") {
        CaseKind::Failed
    } else if is_outcome(&c.call, "skipped") || is_outcome(&c.setup, "skipped") {
        CaseKind::Skipped
    } else if c.flaky {
        CaseKind::Flaky
    } else {
        CaseKind::Passed
    }
}

/// A text, or another where there is none.
pub open spec fn text_or(s: Option<String>, other: Seq<char>) -> Seq<char> {
    match s {
        Some(s) => s@,
        None => other,
    }
}

fn pick_text(s: &Option<String>, other: &str) -> (res: String)
    ensures
        res@ == text_or(*s, other@),
{
    match s {
        Some(s) => s.clone(),
        None => other.to_owned(),
    }
}

/// How long a test took; nothing where that is not known.
pub open spec fn time_of(c: Case) -> Double {
    match c.duration {
        Some(d) => d,
        None => Double { bits: ZERO },
    }
}

/// What is inside the element of a test, with the end of the element.
pub open spec fn case_body(c: Case) -> Seq<char> {
    match kind_of(c) {
        CaseKind::Errored => "><error message=\""@ + escaped("error"@) + "\">"@ + escaped(
            text_or(c.failure_text, "error"@),
        ) + "</error></testcase>"@,
        CaseKind::Failed => "><failure message=\""@ + escaped("failed"@) + "\">"@ + escaped(
            text_or(c.failure_text, "failed"@),
        ) + "</failure></testcase>"@,
        CaseKind::Skipped => "><skipped message=\""@ + escaped(text_or(c.skip_reason, "skipped"@))
            + "\"/></testcase>"@,
        CaseKind::Flaky => "><properties><property name=\"flaky\" value=\"true\"/></properties></testcase>"@,
        CaseKind::Passed => "/>"@,
    }
}

fn write_body(c: &Case) -> (res: String)
    ensures
        res@ == case_body(*c),
{
    match classify_case(c) {
        CaseKind::Errored => {
            let mut out = String::from_str("><error message=\"");
            out.append(esc("error").as_str());
            out.append("\">");
            out.append(esc(pick_text(&c.failure_text, "error").as_str()).as_str());
            out.append("</error></testcase>");
            out
        },
        CaseKind::Failed => {
            let mut out = String::from_str("><failure message=\"");
            out.append(esc("failed").as_str());
            out.append("\">");
            out.append(esc(pick_text(&c.failure_text, "failed").as_str()).as_str());
            out.append("</failure></testcase>");
            out
        },
        CaseKind::Skipped => {
            let mut out = String::from_str("><skipped message=\"");
            out.append(esc(pick_text(&c.skip_reason, "skipped").as_str()).as_str());
            out.append("\"/></testcase>");
            out
        },
        CaseKind::Flaky => String::from_str(
            "><properties><property name=\"flaky\" value=\"true\"/></properties></testcase>",
        ),
        CaseKind::Passed => String::from_str("/>"),
    }
}

/// The element of a test, on a line of its own.
pub open spec fn case_text(c: Case) -> Seq<char> {
    "<testcase classname=\""@ + escaped(named_parts(c.nodeid@).0) + "\" name=\""@ + escaped(
        named_parts(c.nodeid@).1,
    ) + "\" time=\""@ + time_of(c).fixed_text(3) + "\""@ + case_body(c) + "\n"@
}

fn write_case(c: &Case) -> (res: String)
    ensures
        res@ == case_text(*c),
{
    let (class, name) = split_nodeid(c.nodeid.as_str());
    let time = match c.duration {
        Some(d) => d,
        None => Double { bits: ZERO },
    };
    let mut out = String::from_str("<testcase classname=\"");
    out.append(esc(class.as_str()).as_str());
    out.append("\" name=\"");
    out.append(esc(name.as_str()).as_str());
    out.append("\" time=\"");
    out.append(time.fixed(3).as_str());
    out.append("\"");
    out.append(write_body(c).as_str());
    out.append("\n");
    out
}

/// The elements of tests.
pub open spec fn cases_text(cases: Seq<Case>) -> Seq<char>
    decreases cases.len(),
{
    if cases.len() == 0 {
        Seq::empty()
    } else {
        cases_text(cases.drop_last()) + case_text(cases.last())
    }
}

/// How many tests count as something.
pub open spec fn how_many(cases: Seq<Case>, k: CaseKind) -> nat
    decreases cases.len(),
{
    if cases.len() == 0 {
        0
    } else {
        how_many(cases.drop_last(), k) + (if kind_of(cases.last()) == k {
            1nat
        } else {
            0nat
        })
    }
}

/// The document.
pub open spec fn document_text(cases: Seq<Case>, seconds: Double) -> Seq<char> {
    "<?xml version=\"1.0\" encoding=\"utf-8\"?>\n<testsuites>\n<testsuite name=\"rstest\" errors=\""@
        + decimal(how_many(cases, CaseKind::Errored)) + "\" failures=\""@ + decimal(
        how_many(cases, CaseKind::Failed),
    ) + "\" skipped=\""@ + decimal(how_many(cases, CaseKind::Skipped)) + "\" tests=\""@ + decimal(
        cases.len(),
    ) + "\" time=\""@ + seconds.fixed_text(3) + "\">\n"@ + cases_text(cases)
        + "</testsuite>\n</testsuites>\n"@
}

/// Makes the document for the tests of a run.
pub fn document(cases: &[Case], seconds: &Double) -> (res: String)
    ensures
        res@ == document_text(cases@, *seconds),
{
    let mut errors: u64 = 0;
    let mut failures: u64 = 0;
    let mut skipped: u64 = 0;
    let mut body = String::new();
    let mut i: usize = 0;
    assert(body@ =~= cases_text(cases@.take(0)));
    while i < cases.len()
        invariant
            i <= cases.len(),
            errors == how_many(cases@.take(i as int), CaseKind::Errored),
            failures == how_many(cases@.take(i as int), CaseKind::Failed),
            skipped == how_many(cases@.take(i as int), CaseKind::Skipped),
            errors <= i,
            failures <= i,
            skipped <= i,
            body@ == cases_text(cases@.take(i as int)),
        decreases cases.len() - i,
    {
        proof {
            assert(cases@.take(i + 1).drop_last() =~= cases@.take(i as int));
            assert(cases@.take(i + 1).last() == cases@[i as int]);
        }
        match classify_case(&cases[i]) {
            CaseKind::Errored => {
                errors += 1;
            },
            CaseKind::Failed => {
                failures += 1;
            },
            CaseKind::Skipped => {
                skipped += 1;
            },
            _ => {},
        }
        body.append(write_case(&cases[i]).as_str());
        i += 1;
    }
    assert(cases@.take(cases.len() as int) =~= cases@);
    let mut out = String::from_str(
        "<?xml version=\"1.0\" encoding=\"utf-8\"?>\n<testsuites>\n<testsuite name=\"rstest\" errors=\"",
    );
    out.append(dec(errors).as_str());
    out.append("\" failures=\"");
    out.append(dec(failures).as_str());
    out.append("\" skipped=\"");
    out.append(dec(skipped).as_str());
    out.append("\" tests=\"");
    out.append(dec(cases.len() as u64).as_str());
    out.append("\" time=\"");
    out.append(seconds.fixed(3).as_str());
    out.append("\">\n");
    out.append(body.as_str());
    out.append("</testsuite>\n</testsuites>\n");
    out
}

/// Every test counts as one thing: the counts of all kinds add up to the tests.
pub proof fn theorem_counts_add_up(cases: Seq<Case>)
    ensures
        how_many(cases, CaseKind::Errored) + how_many(cases, CaseKind::Failed) + how_many(
            cases,
            CaseKind::Skipped,
        ) + how_many(cases, CaseKind::Flaky) + how_many(cases, CaseKind::Passed) == cases.len(),
    decreases cases.len(),
{
    if cases.len() > 0 {
        theorem_counts_add_up(cases.drop_last());
    }
}

/// Text is escaped character by character: four characters have a name, and the others stay.
pub proof fn theorem_escaping_is_by_character(a: Seq<char>, b: Seq<char>, x: char)
    ensures
        escaped(a + b) == escaped(a) + escaped(b),
        escaped(seq!['&']) == "&amp;"@ && escaped(seq!['<']) == "&lt;"@ && escaped(seq!['>'])
            == "&gt;"@ && escaped(seq!['"']) == "&quot;"@,
        x != '&' && x != '<' && x != '>' && x != '"' ==> escaped(seq![x]) == seq![x],
{
    reveal_strlit("&amp;");
    reveal_strlit("&lt;");
    reveal_strlit("&gt;");
    reveal_strlit("&quot;");
    let f = |s: Seq<char>| replaced(s, '&', "&amp;"@);
    let g = |s: Seq<char>| replaced(f(s), '<', "&lt;"@);
    let h = |s: Seq<char>| replaced(g(s), '>', "&gt;"@);
    crate::annotate::lemma_replaced_add(a, b, '&', "&amp;"@);
    crate::annotate::lemma_replaced_add(f(a), f(b), '<', "&lt;"@);
    crate::annotate::lemma_replaced_add(g(a), g(b), '>', "&gt;"@);
    crate::annotate::lemma_replaced_add(h(a), h(b), '"', "&quot;"@);
    assert forall|y: char|
        #![trigger seq![y]]
        true implies ({
        &&& y == '&' ==> escaped(seq![y]) == "&amp;"@
        &&& y == '<' ==> escaped(seq![y]) == "&lt;"@
        &&& y == '>' ==> escaped(seq![y]) == "&gt;"@
        &&& y == '"' ==> escaped(seq![y]) == "&quot;"@
        &&& y != '&' && y != '<' && y != '>' && y != '"' ==> escaped(seq![y]) == seq![y]
    }) by {
        crate::annotate::lemma_replaced_one(y, '&', "&amp;"@);
        crate::annotate::lemma_replaced_one(y, '<', "&lt;"@);
        crate::annotate::lemma_replaced_one(y, '>', "&gt;"@);
        crate::annotate::lemma_replaced_one(y, '"', "&quot;"@);
        crate::annotate::lemma_replaced_absent("&amp;"@, '<', "&lt;"@);
        crate::annotate::lemma_replaced_absent("&amp;"@, '>', "&gt;"@);
        crate::annotate::lemma_replaced_absent("&amp;"@, '"', "&quot;"@);
        crate::annotate::lemma_replaced_absent("&lt;"@, '>', "&gt;"@);
        crate::annotate::lemma_replaced_absent("&lt;"@, '"', "&quot;"@);
        crate::annotate::lemma_replaced_absent("&gt;"@, '"', "&quot;"@);
    }
}

/// What a case is told as: an error where its setup or its teardown failed, a failure where
/// only the test did, skipped where the test or its setup was, flaky where it passed when it
/// ran again, and passed else.
pub proof fn theorem_what_a_case_is_told_as(c: Case)
    ensures
        kind_of(c) == CaseKind::Errored <==> (c.setup matches Some(p) && p@ == "failed"@) || (
        c.teardown matches Some(p) && p@ == "failed"@),
        kind_of(c) == CaseKind::Failed ==> (c.call matches Some(p) && p@ == "failed"@),
        (c.call matches Some(p) && p@ == "failed"@) ==> kind_of(c) == CaseKind::Errored || kind_of(c)
            == CaseKind::Failed,
        kind_of(c) == CaseKind::Skipped ==> (c.call matches Some(p) && p@ == "skipped"@) || (
        c.setup matches Some(p) && p@ == "skipped"@),
        (c.call matches Some(p) && p@ == "skipped"@) ==> kind_of(c) == CaseKind::Skipped || kind_of(
            c,
        ) == CaseKind::Errored,
        (c.setup matches Some(p) && p@ == "skipped"@) ==> kind_of(c) != CaseKind::Passed && kind_of(
            c,
        ) != CaseKind::Flaky,
        kind_of(c) == CaseKind::Flaky ==> c.flaky,
        kind_of(c) == CaseKind::Passed ==> !c.flaky,
{
    reveal_strlit("failed");
    reveal_strlit("skipped");
    assert("failed"@.len() == 6);
    assert("skipped"@.len() == 7);
}

/// Cases are counted by what they are told as.
pub proof fn theorem_each_case_counts_once(cases: Seq<Case>, c: Case, k: CaseKind)
    ensures
        how_many(cases.push(c), k) == how_many(cases, k) + (if kind_of(c) == k {
            1int
        } else {
            0
        }),
        how_many(Seq::<Case>::empty(), k) == 0,
        cases_text(cases.push(c)) == cases_text(cases) + case_text(c),
{
    assert(cases.push(c).drop_last() =~= cases);
}

/// A case is told by its module and classes, and by the rest of its name.
pub proof fn theorem_names_of_cases(file: Seq<char>, name: Seq<char>, class: Seq<char>)
    requires
        !contains_sub(file + ":"@, "::"@),
        !contains_sub(class + ":"@, "::"@),
        !contains_sub(name, "::"@),
    ensures
        named_parts(file + "::"@ + name) == (module_name(file), name),
        named_parts(file + "::"@ + class + "::"@ + name) == (
            module_name(file) + "."@ + class,
            name,
        ),
{
    reveal_with_fuel(id_parts, 3);
    reveal_with_fuel(dotted, 3);
    lemma_first_part(file, name);
    lemma_first_part(class, name);
    lemma_first_part(file, class + "::"@ + name);
    assert(id_parts(name) == seq![name]);
    let two = file + "::"@ + name;
    assert(id_parts(two) =~= seq![file, name]);
    assert(id_parts(two).drop_last() =~= seq![file]);
    assert(id_parts(two).drop_last().skip(1) =~= Seq::empty());
    let three = file + "::"@ + class + "::"@ + name;
    assert(three =~= file + "::"@ + (class + "::"@ + name));
    assert(id_parts(three) =~= seq![file, class, name]);
    let outer = id_parts(three).drop_last();
    assert(outer =~= seq![file, class]);
    assert(outer.skip(1) =~= seq![class]);
    assert(outer.skip(1).drop_last() =~= Seq::empty());
}

proof fn lemma_first_part(a: Seq<char>, b: Seq<char>)
    requires
        !contains_sub(a + ":"@, "::"@),
    ensures
        id_parts(a + "::"@ + b) == seq![a] + id_parts(b),
{
    reveal_strlit("::");
    reveal_strlit(":");
    let s = a + "::"@ + b;
    let n = a.len() as int;
    assert(s.subrange(n, n + 2) =~= "::"@);
    assert(crate::text::occurs_at(s, "::"@, n));
    assert forall|j: int| 0 <= j < n implies !crate::text::occurs_at(s, "::"@, j) by {
        if crate::text::occurs_at(s, "::"@, j) {
            let f = a + ":"@;
            assert(f.subrange(j, j + 2) =~= s.subrange(j, j + 2));
            assert(crate::text::occurs_at(f, "::"@, j));
        }
    }
    assert(crate::text::first_at(s, "::"@, n));
    crate::nodeids::lemma_sub_pos(s, "::"@, n);
    assert(s.take(n) =~= a);
    assert(s.skip(n + 2) =~= b);
}

proof fn lemma_replaced_places(s: Seq<char>, c: char, with: Seq<char>)
    requires
        with.len() == 1,
    ensures
        replaced(s, c, with).len() == s.len(),
        forall|i: int|
            0 <= i < s.len() ==> #[trigger] replaced(s, c, with)[i] == (if s[i] == c {
                with[0]
            } else {
                s[i]
            }),
    decreases s.len(),
{
    if s.len() > 0 {
        lemma_replaced_places(s.drop_last(), c, with);
    }
}

/// A module is named by its file: without its ending, and with a dot for each separator.
pub proof fn theorem_names_of_modules(file: Seq<char>, i: int)
    requires
        !ends(file, ".py"@),
    ensures
        module_name(file).len() == file.len(),
        module_name(file + ".py"@) == module_name(file),
        0 <= i < file.len() ==> module_name(file)[i] == (if file[i] == '/' || file[i] == '\\' {
            '.'
        } else {
            file[i]
        }),
{
    reveal_strlit(".py");
    reveal_strlit(".");
    let s = file + ".py"@;
    assert(s.subrange(file.len() as int, s.len() as int) =~= ".py"@);
    assert(s.take(s.len() - 3) =~= file);
    assert(ends(s, ".py"@));
    assert(stem(file) == file);
    assert(stem(s) == stem(file));
    lemma_replaced_places(file, '/', "."@);
    lemma_replaced_places(replaced(file, '/', "."@), '\\', "."@);
}

proof fn lemma_inside(before: Seq<char>, part: Seq<char>, after: Seq<char>)
    ensures
        contains_sub(before + part + after, part),
{
    let s = before + part + after;
    let n = before.len() as int;
    assert(s.subrange(n, n + part.len()) =~= part);
    assert(crate::text::occurs_at(s, part, n));
}

/// The document counts errors, failures and skipped cases, each under its name, and all cases.
pub proof fn theorem_what_the_document_counts(cases: Seq<Case>, seconds: Double)
    ensures
        contains_sub(
            document_text(cases, seconds),
            decimal(how_many(cases, CaseKind::Errored)) + "\" failures=\""@ + decimal(
                how_many(cases, CaseKind::Failed),
            ) + "\" skipped=\""@ + decimal(how_many(cases, CaseKind::Skipped)) + "\" tests=\""@
                + decimal(cases.len()) + "\" time=\""@ + seconds.fixed_text(3) + "\">\n"@
                + cases_text(cases),
        ),
{
    let head =
        "<?xml version=\"1.0\" encoding=\"utf-8\"?>\n<testsuites>\n<testsuite name=\"rstest\" errors=\""@;
    let part = decimal(how_many(cases, CaseKind::Errored)) + "\" failures=\""@ + decimal(
        how_many(cases, CaseKind::Failed),
    ) + "\" skipped=\""@ + decimal(how_many(cases, CaseKind::Skipped)) + "\" tests=\""@ + decimal(
        cases.len(),
    ) + "\" time=\""@ + seconds.fixed_text(3) + "\">\n"@ + cases_text(cases);
    let tail = "</testsuite>\n</testsuites>\n"@;
    lemma_inside(head, part, tail);
    assert(document_text(cases, seconds) =~= head + part + tail);
}

/// A case that failed is told with what was printed of it, or with a word where nothing was;
/// one that was skipped with the reason; and one that passed with nothing.
pub proof fn theorem_how_cases_are_told(c: Case)
    ensures
        kind_of(c) == CaseKind::Passed ==> case_body(c) == "/>"@,
        kind_of(c) == CaseKind::Failed ==> (c.failure_text matches Some(t) ==> case_body(c)
            == "><failure message=\""@ + escaped("failed"@) + "\">"@ + escaped(t@)
            + "</failure></testcase>"@),
        kind_of(c) == CaseKind::Failed && c.failure_text is None ==> case_body(c)
            == "><failure message=\""@ + escaped("failed"@) + "\">"@ + escaped("failed"@)
            + "</failure></testcase>"@,
        kind_of(c) == CaseKind::Errored ==> (c.failure_text matches Some(t) ==> case_body(c)
            == "><error message=\""@ + escaped("error"@) + "\">"@ + escaped(t@)
            + "</error></testcase>"@),
        kind_of(c) == CaseKind::Skipped ==> (c.skip_reason matches Some(t) ==> case_body(c)
            == "><skipped message=\""@ + escaped(t@) + "\"/></testcase>"@),
        kind_of(c) == CaseKind::Skipped && c.skip_reason is None ==> case_body(c)
            == "><skipped message=\""@ + escaped("skipped"@) + "\"/></testcase>"@,
        c.duration is None ==> time_of(c).bits == 0,
        c.duration matches Some(d) ==> time_of(c) == d,
{
}

/// A case is told with its module, its name and its time, and with how it came out.
pub proof fn theorem_what_is_told_of_a_case(c: Case, file: Seq<char>, name: Seq<char>)
    requires
        !contains_sub(file + ":"@, "::"@),
        !contains_sub(name, "::"@),
        c.nodeid@ == file + "::"@ + name,
    ensures
        case_text(c) == "<testcase classname=\""@ + escaped(module_name(file)) + "\" name=\""@
            + escaped(name) + "\" time=\""@ + time_of(c).fixed_text(3) + "\""@ + case_body(c)
            + "\n"@,
{
    reveal_with_fuel(id_parts, 3);
    reveal_with_fuel(dotted, 2);
    lemma_first_part(file, name);
    assert(id_parts(name) == seq![name]);
    let two = file + "::"@ + name;
    assert(id_parts(two) =~= seq![file, name]);
    assert(id_parts(two).drop_last() =~= seq![file]);
    assert(id_parts(two).drop_last().skip(1) =~= Seq::empty());
}

} // verus!
