//! What is asked of an interpreter, as in `--python` and `.python-version`.

use crate::numbers::{
    all_digits, dec, decimal, number_up_to, parse_u8, theorem_decimal_reads_back,
};
use crate::text::{
    cut_at, is_digit, is_letter, is_space, join, joined, lemma_pos, lemma_pos_is,
    lemma_split_joined, lower, opt_text, split_char, split_on, split_once, starts, strip_prefix,
    texts, to_ascii_lower, to_chars, trim, trimmed,
};
use vstd::prelude::*;

verus! {

broadcast use crate::text::lemma_texts_push;

/// What is known of an interpreter that was run.
pub struct Probe {
    /// The path it gives for itself.
    pub executable: String,
    pub version: (u8, u8, u8),
    /// Such as `cpython` or `pypy`.
    pub implementation: String,
    pub freethreaded: bool,
    /// Whether it can import what runs the tests.
    pub worker_importable: bool,
}

/// What is known of an interpreter.
pub ghost struct ProbeModel {
    pub executable: Seq<char>,
    pub version: (u8, u8, u8),
    pub implementation: Seq<char>,
    pub freethreaded: bool,
    pub worker_importable: bool,
}

impl View for Probe {
    type V = ProbeModel;

    open spec fn view(&self) -> ProbeModel {
        ProbeModel {
            executable: self.executable@,
            version: self.version,
            implementation: self.implementation@,
            freethreaded: self.freethreaded,
            worker_importable: self.worker_importable,
        }
    }
}

impl Probe {
    /// A copy.
    pub fn copied(&self) -> (res: Probe)
        ensures
            res@ == self@,
    {
        Probe {
            executable: self.executable.clone(),
            version: self.version,
            implementation: self.implementation.clone(),
            freethreaded: self.freethreaded,
            worker_importable: self.worker_importable,
        }
    }
}

/// How a version is compared.
#[derive(Clone, Copy, Debug, PartialEq, Eq, Structural)]
pub enum Op {
    Eq,
    Ge,
    Le,
    Gt,
    Lt,
}

/// A demand on the version, as precise as it was written.
#[derive(Clone, Copy, Debug, PartialEq, Eq, Structural)]
pub struct Constraint {
    pub op: Op,
    pub major: u8,
    pub minor: Option<u8>,
    pub micro: Option<u8>,
}

/// Whether one version is older than another.
pub open spec fn older(a: (u8, u8, u8), b: (u8, u8, u8)) -> bool {
    a.0 < b.0 || (a.0 == b.0 && (a.1 < b.1 || (a.1 == b.1 && a.2 < b.2)))
}

/// Whether one version is older than another.
pub fn is_older(a: (u8, u8, u8), b: (u8, u8, u8)) -> (res: bool)
    ensures
        res == older(a, b),
{
    a.0 < b.0 || (a.0 == b.0 && (a.1 < b.1 || (a.1 == b.1 && a.2 < b.2)))
}

impl Constraint {
    /// The version that the demand names, with zeros for what it leaves out.
    pub open spec fn target(self) -> (u8, u8, u8) {
        (
            self.major,
            match self.minor {
                Some(m) => m,
                None => 0,
            },
            match self.micro {
                Some(m) => m,
                None => 0,
            },
        )
    }

    /// Whether a version meets the demand. Equality is of the parts that were
    /// written.
    pub open spec fn admits(self, v: (u8, u8, u8)) -> bool {
        match self.op {
            Op::Eq => v.0 == self.major && (self.minor matches Some(m) ==> v.1 == m) && (
            self.micro matches Some(m) ==> v.2 == m),
            Op::Ge => !older(v, self.target()),
            Op::Le => !older(self.target(), v),
            Op::Gt => older(self.target(), v),
            Op::Lt => older(v, self.target()),
        }
    }

    /// Whether a version meets the demand.
    pub fn matches(&self, v: (u8, u8, u8)) -> (res: bool)
        ensures
            res == self.admits(v),
    {
        let minor: u8 = match self.minor {
            Some(m) => m,
            None => 0,
        };
        let micro: u8 = match self.micro {
            Some(m) => m,
            None => 0,
        };
        let target = (self.major, minor, micro);
        match self.op {
            Op::Eq => v.0 == self.major && (self.minor.is_none() || v.1 == minor) && (
            self.micro.is_none() || v.2 == micro),
            Op::Ge => !is_older(v, target),
            Op::Le => !is_older(target, v),
            Op::Gt => is_older(target, v),
            Op::Lt => is_older(v, target),
        }
    }

    /// The demand as text, such as `>=3.12`.
    pub open spec fn text(self) -> Seq<char> {
        let op = match self.op {
            Op::Eq => ""@,
            Op::Ge => ">="@,
            Op::Le => "<="@,
            Op::Gt => ">"@,
            Op::Lt => "<"@,
        };
        let major = op + decimal(self.major as nat);
        let minor = match self.minor {
            Some(m) => major + "."@ + decimal(m as nat),
            None => major,
        };
        match self.micro {
            Some(m) => minor + "."@ + decimal(m as nat),
            None => minor,
        }
    }

    /// Writes the demand.
    pub fn to_text(&self) -> (res: String)
        ensures
            res@ == self.text(),
    {
        let mut out = match self.op {
            Op::Eq => String::from_str(""),
            Op::Ge => String::from_str(">="),
            Op::Le => String::from_str("<="),
            Op::Gt => String::from_str(">"),
            Op::Lt => String::from_str("<"),
        };
        out.append(dec(self.major as u64).as_str());
        match self.minor {
            Some(m) => {
                out.append(".");
                out.append(dec(m as u64).as_str());
            },
            None => {},
        }
        match self.micro {
            Some(m) => {
                out.append(".");
                out.append(dec(m as u64).as_str());
            },
            None => {},
        }
        out
    }
}

/// What is asked of an interpreter: all of it must hold.
pub struct Request {
    pub implementation: Option<String>,
    /// Whether a free-threaded build is asked for.
    pub freethreaded: bool,
    pub constraints: Vec<Constraint>,
}

/// What is asked of an interpreter.
pub ghost struct RequestModel {
    pub implementation: Option<Seq<char>>,
    pub freethreaded: bool,
    pub constraints: Seq<Constraint>,
}

impl View for Request {
    type V = RequestModel;

    open spec fn view(&self) -> RequestModel {
        RequestModel {
            implementation: opt_text(self.implementation),
            freethreaded: self.freethreaded,
            constraints: self.constraints@,
        }
    }
}

/// The texts of demands.
pub open spec fn constraint_texts(c: Seq<Constraint>) -> Seq<Seq<char>> {
    Seq::new(c.len(), |i: int| c[i].text())
}

/// A request as text, such as `pypy@>=3.10,<3.12` or `3.13t`.
pub open spec fn request_text(r: RequestModel) -> Seq<char> {
    (match r.implementation {
        Some(i) => i + "@"@,
        None => ""@,
    }) + joined(constraint_texts(r.constraints), ","@) + (if r.freethreaded {
        "t"@
    } else {
        ""@
    })
}

impl Request {
    /// Writes the request.
    pub fn to_text(&self) -> (res: String)
        ensures
            res@ == request_text(self@),
    {
        let mut out = match &self.implementation {
            Some(i) => {
                let mut s = String::from_str(i.as_str());
                s.append("@");
                s
            },
            None => String::from_str(""),
        };
        let mut parts: Vec<String> = Vec::new();
        let mut i: usize = 0;
        while i < self.constraints.len()
            invariant
                i <= self.constraints.len(),
                parts.len() == i,
                forall|j: int|
                    0 <= j < i ==> (#[trigger] parts@[j])@ == self.constraints@[j].text(),
            decreases self.constraints.len() - i,
        {
            parts.push(self.constraints[i].to_text());
            i += 1;
        }
        assert(texts(parts@) =~= constraint_texts(self.constraints@));
        out.append(join(parts.as_slice(), ",").as_str());
        if self.freethreaded {
            out.append("t");
        } else {
            out.append("");
        }
        out
    }
}

/// Whether an interpreter is what is asked for.
pub open spec fn satisfies(p: ProbeModel, r: RequestModel) -> bool {
    &&& r.implementation matches Some(want) ==> lower(p.implementation) == lower(want)
    &&& r.freethreaded ==> p.freethreaded
    &&& forall|i: int|
        0 <= i < r.constraints.len() ==> (#[trigger] r.constraints[i]).admits(p.version)
}

/// Whether an interpreter is what is asked for.
pub fn matches(p: &Probe, r: &Request) -> (res: bool)
    ensures
        res == satisfies(p@, r@),
{
    if let Some(want) = &r.implementation {
        let a = to_ascii_lower(p.implementation.as_str());
        let b = to_ascii_lower(want.as_str());
        if a != b {
            return false;
        }
    }
    if r.freethreaded && !p.freethreaded {
        return false;
    }
    let mut i: usize = 0;
    while i < r.constraints.len()
        invariant
            i <= r.constraints.len(),
            forall|j: int| 0 <= j < i ==> (#[trigger] r.constraints@[j]).admits(p.version),
        decreases r.constraints.len() - i,
    {
        if !r.constraints[i].matches(p.version) {
            assert(!r@.constraints[i as int].admits(p@.version));
            return false;
        }
        i += 1;
    }
    true
}

/// The comparison that a demand begins with, and what follows it.
pub open spec fn op_of(t: Seq<char>) -> (Op, Seq<char>) {
    if starts(t, ">="@) {
        (Op::Ge, t.skip(2))
    } else if starts(t, "<="@) {
        (Op::Le, t.skip(2))
    } else if starts(t, "=="@) {
        (Op::Eq, t.skip(2))
    } else if starts(t, ">"@) {
        (Op::Gt, t.skip(1))
    } else if starts(t, "<"@) {
        (Op::Lt, t.skip(1))
    } else {
        (Op::Eq, t)
    }
}

/// The number that the `i`-th part is; no number where there are fewer parts.
pub open spec fn part_at(parts: Seq<Seq<char>>, i: int) -> Option<u8> {
    if i < parts.len() {
        match number_up_to(parts[i], 255) {
            Some(n) => Some(n as u8),
            None => None,
        }
    } else {
        None
    }
}

/// The demand that a text is: one to three numbers up to 255 with dots between
/// them, after a comparison.
pub open spec fn constraint_of(tok: Seq<char>) -> Option<Constraint> {
    let (op, rest) = op_of(trimmed(tok));
    let parts = split_on(rest, '.');
    if 1 <= parts.len() <= 3 && forall|i: int|
        0 <= i < parts.len() ==> number_up_to(#[trigger] parts[i], 255) is Some {
        Some(
            Constraint {
                op,
                major: part_at(parts, 0).unwrap(),
                minor: part_at(parts, 1),
                micro: part_at(parts, 2),
            },
        )
    } else {
        None
    }
}

fn split_op(t: &str) -> (res: (Op, String))
    ensures
        (res.0, res.1@) == op_of(t@),
{
    proof {
        reveal_strlit(">=");
        reveal_strlit("<=");
        reveal_strlit("==");
        reveal_strlit(">");
        reveal_strlit("<");
    }
    if let Some(r) = strip_prefix(t, ">=") {
        return (Op::Ge, r);
    }
    if let Some(r) = strip_prefix(t, "<=") {
        return (Op::Le, r);
    }
    if let Some(r) = strip_prefix(t, "==") {
        return (Op::Eq, r);
    }
    if let Some(r) = strip_prefix(t, ">") {
        return (Op::Gt, r);
    }
    if let Some(r) = strip_prefix(t, "<") {
        return (Op::Lt, r);
    }
    (Op::Eq, t.to_owned())
}

/// Reads a demand such as `>=3.12`.
pub fn parse_constraint(tok: &str) -> (res: Option<Constraint>)
    ensures
        res == constraint_of(tok@),
{
    let t = trim(tok);
    let (op, rest) = split_op(t.as_str());
    let parts = split_char(rest.as_str(), '.');
    let ghost all = split_on(rest@, '.');
    let n = parts.len();
    if n == 0 || n > 3 {
        return None;
    }
    assert(all[0] == parts@[0]@);
    let major = match parse_u8(parts[0].as_str()) {
        Some(m) => m,
        None => {
            return None;
        },
    };
    let minor = if n > 1 {
        assert(all[1] == parts@[1]@);
        match parse_u8(parts[1].as_str()) {
            Some(m) => Some(m),
            None => {
                return None;
            },
        }
    } else {
        None
    };
    let micro = if n > 2 {
        assert(all[2] == parts@[2]@);
        match parse_u8(parts[2].as_str()) {
            Some(m) => Some(m),
            None => {
                return None;
            },
        }
    } else {
        None
    };
    Some(Constraint { op, major, minor, micro })
}

/// The implementation that a request names, and the text of its versions.
pub open spec fn implementation_of(s: Seq<char>) -> (Option<Seq<char>>, Seq<char>) {
    match cut_at(s, '@') {
        Some((name, rest)) => (Some(lower(name)), rest),
        None => if s.len() > 0 && is_letter(s[0]) {
            (Some(lower(s)), ""@)
        } else {
            (None, s)
        },
    }
}

/// Whether a free-threaded build is asked for, and the versions without that: a
/// `t` behind a digit.
pub open spec fn freethreaded_of(v: Seq<char>) -> (bool, Seq<char>) {
    if v.len() >= 2 && v.last() == 't' && is_digit(v[v.len() - 2]) {
        (true, v.drop_last())
    } else {
        (false, v)
    }
}

/// The demands that texts are, where all of them are.
pub open spec fn constraints_of(toks: Seq<Seq<char>>) -> Option<Seq<Constraint>> {
    if forall|i: int| 0 <= i < toks.len() ==> constraint_of(#[trigger] toks[i]) is Some {
        Some(Seq::new(toks.len(), |i: int| constraint_of(toks[i]).unwrap()))
    } else {
        None
    }
}

/// The request that a text is: `[implementation@]versions[t]`. None where it asks
/// for nothing or a version is no version.
pub open spec fn request_of(s: Seq<char>) -> Option<RequestModel> {
    let (implementation, versions) = implementation_of(s);
    let (freethreaded, versions) = freethreaded_of(versions);
    let constraints = if versions.len() == 0 {
        Some(Seq::empty())
    } else {
        constraints_of(split_on(versions, ','))
    };
    match constraints {
        Some(c) => if implementation is None && c.len() == 0 {
            None
        } else {
            Some(RequestModel { implementation, freethreaded, constraints: c })
        },
        None => None,
    }
}

/// The request read, as a model.
pub open spec fn opt_request(r: Option<Request>) -> Option<RequestModel> {
    match r {
        Some(r) => Some(r@),
        None => None,
    }
}

fn letter_first(v: &Vec<char>) -> (res: bool)
    ensures
        res == (v@.len() > 0 && is_letter(v@[0])),
{
    v.len() > 0 && (('a' <= v[0] && v[0] <= 'z') || ('A' <= v[0] && v[0] <= 'Z'))
}

fn split_implementation(s: &str) -> (res: (Option<String>, String))
    ensures
        (opt_text(res.0), res.1@) == implementation_of(s@),
{
    match split_once(s, '@') {
        Some((name, rest)) => (Some(to_ascii_lower(name.as_str())), rest),
        None => {
            let v = to_chars(s);
            if letter_first(&v) {
                (Some(to_ascii_lower(s)), "".to_owned())
            } else {
                (None, s.to_owned())
            }
        },
    }
}

fn split_freethreaded(v: &str) -> (res: (bool, String))
    ensures
        (res.0, res.1@) == freethreaded_of(v@),
{
    let c = to_chars(v);
    let n = c.len();
    if n >= 2 && c[n - 1] == 't' && '0' <= c[n - 2] && c[n - 2] <= '9' {
        let head = crate::text::from_range(&c, 0, n - 1);
        assert(head@ =~= v@.drop_last());
        (true, head)
    } else {
        (false, v.to_owned())
    }
}

/// Reads a request such as `pypy@>=3.10,<3.12`, `3.13t` or `3`.
#[verifier::loop_isolation(false)]
pub fn parse_request(s: &str) -> (res: Option<Request>)
    ensures
        opt_request(res) == request_of(s@),
{
    let (implementation, versions) = split_implementation(s);
    let (freethreaded, versions) = split_freethreaded(versions.as_str());
    let mut constraints: Vec<Constraint> = Vec::new();
    let v = to_chars(versions.as_str());
    if v.len() > 0 {
        let toks = split_char(versions.as_str(), ',');
        let ghost all = split_on(versions@, ',');
        let mut i: usize = 0;
        while i < toks.len()
            invariant
                i <= toks.len(),
                all == texts(toks@),
                constraints.len() == i,
                forall|j: int|
                    0 <= j < i ==> constraint_of(all[j]) == Some(#[trigger] constraints@[j]),
            decreases toks.len() - i,
        {
            assert(all[i as int] == toks@[i as int]@);
            match parse_constraint(toks[i].as_str()) {
                Some(c) => {
                    constraints.push(c);
                },
                None => {
                    assert(constraints_of(all) is None);
                    return None;
                },
            }
            i += 1;
        }
        proof {
            assert forall|j: int| 0 <= j < all.len() implies constraint_of(
                #[trigger] all[j],
            ) is Some by {
                assert(constraint_of(all[j]) == Some(constraints@[j]));
            }
            let found = constraints_of(all).unwrap();
            assert forall|j: int| 0 <= j < all.len() implies constraints@[j] == found[j] by {
                assert(constraint_of(all[j]) == Some(constraints@[j]));
            }
            assert(constraints@ =~= found);
        }
    } else {
        assert(constraints@ =~= Seq::empty());
    }
    if implementation.is_none() && constraints.len() == 0 {
        return None;
    }
    Some(Request { implementation, freethreaded, constraints })
}

/// What `--python` or `.python-version` says: a path, or a request.
pub enum PyArg {
    Path(String),
    Request(Request),
}

/// What `--python` or `.python-version` says.
pub ghost enum PyArgModel {
    Path(Seq<char>),
    Request(RequestModel),
}

impl View for PyArg {
    type V = PyArgModel;

    open spec fn view(&self) -> PyArgModel {
        match self {
            PyArg::Path(p) => PyArgModel::Path(p@),
            PyArg::Request(r) => PyArgModel::Request(r@),
        }
    }
}

/// What a text says, given whether there is a file of that name: what exists is a
/// path, and so is what is no request.
pub open spec fn pyarg_of(s: Seq<char>, exists_as_file: bool) -> PyArgModel {
    let t = trimmed(s);
    if exists_as_file {
        PyArgModel::Path(t)
    } else {
        match request_of(t) {
            Some(r) => PyArgModel::Request(r),
            None => PyArgModel::Path(t),
        }
    }
}

/// Reads what `--python` or `.python-version` says, given whether there is a file
/// of that name.
pub fn parse_pyarg(s: &str, exists_as_file: bool) -> (res: PyArg)
    ensures
        res@ == pyarg_of(s@, exists_as_file),
{
    let t = trim(s);
    if exists_as_file {
        return PyArg::Path(t);
    }
    match parse_request(t.as_str()) {
        Some(r) => PyArg::Request(r),
        None => PyArg::Path(t),
    }
}

/// Whether a demand names no third part without a second.
pub open spec fn gapless(c: Constraint) -> bool {
    c.micro is Some ==> c.minor is Some
}

/// The numbers of a demand.
spec fn pieces(c: Constraint) -> Seq<Seq<char>> {
    let major = seq![decimal(c.major as nat)];
    let minor = match c.minor {
        Some(m) => major.push(decimal(m as nat)),
        None => major,
    };
    match c.micro {
        Some(m) => minor.push(decimal(m as nat)),
        None => minor,
    }
}

/// The comparison of a demand.
spec fn op_text(op: Op) -> Seq<char> {
    match op {
        Op::Eq => ""@,
        Op::Ge => ">="@,
        Op::Le => "<="@,
        Op::Gt => ">"@,
        Op::Lt => "<"@,
    }
}

/// Whether all characters of a text are digits or dots.
spec fn numeric(s: Seq<char>) -> bool {
    forall|i: int| 0 <= i < s.len() ==> is_digit(#[trigger] s[i]) || s[i] == '.'
}

proof fn lemma_pieces(c: Constraint)
    requires
        gapless(c),
    ensures
        c.text() == op_text(c.op) + joined(pieces(c), "."@),
        split_on(joined(pieces(c), "."@), '.') == pieces(c),
        numeric(joined(pieces(c), "."@)),
        joined(pieces(c), "."@).len() > 0,
        is_digit(joined(pieces(c), "."@)[0]),
        is_digit(joined(pieces(c), "."@).last()),
{
    let v = pieces(c);
    reveal_strlit(".");
    reveal_with_fuel(joined, 3);
    assert("."@ =~= seq!['.']);
    theorem_decimal_reads_back(c.major as nat);
    let a = decimal(c.major as nat);
    assert(v[0] == a);
    match c.minor {
        Some(m) => {
            theorem_decimal_reads_back(m as nat);
            let b = decimal(m as nat);
            assert(v[1] == b);
            match c.micro {
                Some(k) => {
                    theorem_decimal_reads_back(k as nat);
                    let d = decimal(k as nat);
                    assert(v[2] == d);
                    assert(v.drop_last() =~= seq![a, b]);
                    assert(v.drop_last().drop_last() =~= seq![a]);
                    assert(joined(v, "."@) =~= a + "."@ + b + "."@ + d);
                },
                None => {
                    assert(v.drop_last() =~= seq![a]);
                    assert(joined(v, "."@) =~= a + "."@ + b);
                },
            }
        },
        None => {
            assert(v =~= seq![a]);
            assert(joined(v, "."@) =~= a);
        },
    }
    assert(c.text() =~= op_text(c.op) + joined(v, "."@));
    assert forall|i: int| 0 <= i < v.len() implies !(#[trigger] v[i]).contains('.') by {
        assert(all_digits(v[i]));
        if v[i].contains('.') {
            let j = choose|j: int| 0 <= j < v[i].len() && v[i][j] == '.';
            assert(is_digit(v[i][j]));
        }
    }
    lemma_split_joined(v, '.');
}

proof fn lemma_op_reads_back(op: Op, rest: Seq<char>)
    requires
        rest.len() > 0,
        is_digit(rest[0]),
    ensures
        op_of(op_text(op) + rest) == (op, rest),
{
    let t = op_text(op) + rest;
    reveal_strlit("");
    reveal_strlit(">=");
    reveal_strlit("<=");
    reveal_strlit("==");
    reveal_strlit(">");
    reveal_strlit("<");
    assert(t.skip(op_text(op).len() as int) =~= rest);
    assert(t[op_text(op).len() as int] == rest[0]);
    if t.len() >= 2 {
        assert(t.subrange(0, 2)[0] == t[0]);
        assert(t.subrange(0, 2)[1] == t[1]);
    }
    assert(t.subrange(0, 1)[0] == t[0]);
    match op {
        Op::Eq => {
            assert(t =~= rest);
        },
        Op::Ge => {
            assert(t.subrange(0, 2) =~= ">="@);
        },
        Op::Le => {
            assert(t.subrange(0, 2) =~= "<="@);
        },
        Op::Gt => {
            assert(t.subrange(0, 1) =~= ">"@);
        },
        Op::Lt => {
            assert(t.subrange(0, 1) =~= "<"@);
        },
    }
}

/// What is written of a demand reads as that demand.
pub proof fn theorem_demand_reads_back(c: Constraint)
    requires
        gapless(c),
    ensures
        constraint_of(c.text()) == Some(c),
{
    let t = c.text();
    let rest = joined(pieces(c), "."@);
    lemma_pieces(c);
    reveal_strlit("");
    reveal_strlit(">=");
    reveal_strlit("<=");
    reveal_strlit("==");
    reveal_strlit(">");
    reveal_strlit("<");
    let n = op_text(c.op).len();
    assert(t.skip(n as int) =~= rest);
    assert(t[n as int] == rest[0]);
    assert(t.last() == rest.last());
    assert(!is_space(t[0]) && !is_space(t.last()));
    assert(trimmed(t) == t);
    lemma_op_reads_back(c.op, rest);
    let parts = split_on(rest, '.');
    theorem_decimal_reads_back(c.major as nat);
    assert(parts[0] == decimal(c.major as nat));
    if let Some(m) = c.minor {
        theorem_decimal_reads_back(m as nat);
        assert(parts[1] == decimal(m as nat));
        if let Some(k) = c.micro {
            theorem_decimal_reads_back(k as nat);
            assert(parts[2] == decimal(k as nat));
        }
    }
    assert forall|i: int| 0 <= i < parts.len() implies number_up_to(#[trigger] parts[i], 255) is Some by {
        assert(i == 0 || i == 1 || i == 2);
    }
}

/// Whether a character can stand in a list of demands.
spec fn in_versions(x: char) -> bool {
    is_digit(x) || x == '.' || x == '<' || x == '>' || x == '='
}

proof fn lemma_demand_characters(c: Constraint)
    requires
        gapless(c),
    ensures
        forall|i: int| 0 <= i < c.text().len() ==> in_versions(#[trigger] c.text()[i]),
        c.text().len() > 0,
        is_digit(c.text().last()),
{
    lemma_pieces(c);
    reveal_strlit("");
    reveal_strlit(">=");
    reveal_strlit("<=");
    reveal_strlit(">");
    reveal_strlit("<");
    let n = op_text(c.op).len();
    let rest = joined(pieces(c), "."@);
    assert forall|i: int| 0 <= i < c.text().len() implies in_versions(#[trigger] c.text()[i]) by {
        if i >= n {
            assert(c.text()[i] == rest[i - n]);
        }
    }
}

proof fn lemma_demands_characters(v: Seq<Seq<char>>)
    requires
        v.len() > 0,
        forall|i: int, j: int|
            0 <= i < v.len() && 0 <= j < v[i].len() ==> in_versions(#[trigger] v[i][j]),
        forall|i: int| 0 <= i < v.len() ==> (#[trigger] v[i]).len() > 0 && is_digit(v[i].last()),
    ensures
        joined(v, ","@).len() > 0,
        is_digit(joined(v, ","@).last()),
        in_versions(joined(v, ","@)[0]),
        forall|j: int|
            0 <= j < joined(v, ","@).len() ==> in_versions(#[trigger] joined(v, ","@)[j])
                || joined(v, ","@)[j] == ',',
    decreases v.len(),
{
    reveal_strlit(",");
    assert(v[0].len() > 0);
    assert(in_versions(v[0][0]));
    if v.len() > 1 {
        let init = v.drop_last();
        assert forall|i: int, j: int| 0 <= i < init.len() && 0 <= j < init[i].len() implies in_versions(
            #[trigger] init[i][j],
        ) by {
            assert(init[i] == v[i]);
            assert(in_versions(v[i][j]));
        }
        assert forall|i: int| 0 <= i < init.len() implies (#[trigger] init[i]).len() > 0 && is_digit(
            init[i].last(),
        ) by {
            assert(init[i] == v[i]);
        }
        lemma_demands_characters(init);
        let a = joined(init, ","@);
        let s = joined(v, ","@);
        let last = v[v.len() - 1];
        assert(s == a + ","@ + last);
        assert(s.last() == last.last());
        assert(s[0] == a[0]);
        assert forall|j: int| 0 <= j < s.len() implies in_versions(#[trigger] s[j]) || s[j] == ',' by {
            if j < a.len() {
                assert(s[j] == a[j]);
            } else if j > a.len() {
                assert(s[j] == last[j - a.len() - 1]);
                assert(in_versions(v[v.len() - 1][j - a.len() - 1]));
            }
        }
    } else {
        assert(joined(v, ","@) == v[0]);
        assert forall|j: int| 0 <= j < v[0].len() implies in_versions(#[trigger] v[0][j]) by {
        }
    }
}

proof fn lemma_read_is_gapless(tok: Seq<char>)
    ensures
        constraint_of(tok) matches Some(c) ==> gapless(c),
{
    let parts = split_on(op_of(trimmed(tok)).1, '.');
    if constraint_of(tok) is Some && parts.len() == 3 {
        assert(number_up_to(parts[1], 255) is Some);
    }
}

proof fn lemma_split_nonempty(s: Seq<char>, c: char)
    ensures
        split_on(s, c).len() > 0,
{
    lemma_pos(s, c);
}

proof fn lemma_lower_keeps(name: Seq<char>)
    requires
        !name.contains('@'),
    ensures
        !lower(name).contains('@'),
        lower(lower(name)) == lower(name),
{
    assert forall|i: int| 0 <= i < name.len() implies #[trigger] lower(name)[i] != '@' by {
        assert(name.contains(name[i]));
    }
    assert(lower(lower(name)) =~= lower(name));
}

/// What is written of demands reads as those demands.
proof fn lemma_demands_read_back(c: Seq<Constraint>)
    requires
        c.len() > 0,
        forall|i: int| 0 <= i < c.len() ==> gapless(#[trigger] c[i]),
    ensures
        joined(constraint_texts(c), ","@).len() > 0,
        is_digit(joined(constraint_texts(c), ","@).last()),
        !is_letter(joined(constraint_texts(c), ","@)[0]),
        !joined(constraint_texts(c), ","@).contains('@'),
        constraints_of(split_on(joined(constraint_texts(c), ","@), ',')) == Some(c),
{
    let v = constraint_texts(c);
    let body = joined(v, ","@);
    reveal_strlit(",");
    assert(","@ =~= seq![',']);
    assert forall|i: int| 0 <= i < v.len() implies (#[trigger] v[i]).len() > 0 && is_digit(
        v[i].last(),
    ) && !v[i].contains(',') && constraint_of(v[i]) == Some(c[i]) by {
        lemma_demand_characters(c[i]);
        theorem_demand_reads_back(c[i]);
        if v[i].contains(',') {
            let j = choose|j: int| 0 <= j < v[i].len() && v[i][j] == ',';
            assert(in_versions(c[i].text()[j]));
        }
    }
    assert forall|i: int, j: int| 0 <= i < v.len() && 0 <= j < v[i].len() implies in_versions(
        #[trigger] v[i][j],
    ) by {
        lemma_demand_characters(c[i]);
        assert(v[i] == c[i].text());
    }
    lemma_demands_characters(v);
    lemma_split_joined(v, ',');
    assert(Seq::new(v.len(), |i: int| constraint_of(v[i]).unwrap()) =~= c);
    if body.contains('@') {
        let j = choose|j: int| 0 <= j < body.len() && body[j] == '@';
        assert(in_versions(body[j]) || body[j] == ',');
    }
}

/// What is read as a request holds no gap, and no at sign in its name.
proof fn lemma_request_is_proper(s: Seq<char>)
    requires
        request_of(s) is Some,
    ensures
        forall|i: int|
            0 <= i < request_of(s).unwrap().constraints.len() ==> gapless(
                #[trigger] request_of(s).unwrap().constraints[i],
            ),
        request_of(s).unwrap().freethreaded ==> request_of(s).unwrap().constraints.len() > 0,
        request_of(s).unwrap().implementation matches Some(name) ==> lower(name) == name
            && !name.contains('@'),
{
    let r = request_of(s).unwrap();
    let versions = implementation_of(s).1;
    let bare = freethreaded_of(versions).1;
    lemma_pos(s, '@');
    if bare.len() > 0 {
        lemma_split_nonempty(bare, ',');
        let toks = split_on(bare, ',');
        assert forall|i: int| 0 <= i < r.constraints.len() implies gapless(
            #[trigger] r.constraints[i],
        ) by {
            lemma_read_is_gapless(toks[i]);
        }
    }
    if r.implementation is Some {
        let written = match cut_at(s, '@') {
            Some((a, _)) => a,
            None => s,
        };
        if written.contains('@') {
            let j = choose|j: int| 0 <= j < written.len() && written[j] == '@';
            assert(s[j] == '@');
        }
        lemma_lower_keeps(written);
    }
}

/// What is read as a request and written out again reads as the same request.
pub proof fn theorem_request_reads_back(s: Seq<char>)
    ensures
        request_of(s) matches Some(r) ==> request_of(request_text(r)) == Some(r),
{
    if let Some(r) = request_of(s) {
        lemma_request_is_proper(s);
        let body = joined(constraint_texts(r.constraints), ","@);
        let tail = if r.freethreaded {
            "t"@
        } else {
            ""@
        };
        let rest = body + tail;
        let text = request_text(r);
        reveal_strlit("t");
        reveal_strlit("");
        reveal_strlit("@");
        if r.constraints.len() > 0 {
            lemma_demands_read_back(r.constraints);
            if r.freethreaded {
                assert(rest.last() == 't');
                assert(rest[rest.len() - 2] == body.last());
                assert(rest.drop_last() =~= body);
            } else {
                assert(rest =~= body);
            }
        } else {
            assert(rest =~= Seq::empty());
            assert(body =~= Seq::empty());
            assert(r.constraints =~= Seq::empty());
        }
        assert(freethreaded_of(rest) == (r.freethreaded, body));
        match r.implementation {
            Some(name) => {
                assert(text =~= name + seq!['@'] + rest);
                assert forall|i: int| 0 <= i < name.len() implies text[i] != '@' by {
                    assert(name.contains(name[i]));
                }
                lemma_pos_is(text, '@', name.len() as int);
                assert(text.take(name.len() as int) =~= name);
                assert(text.skip(name.len() as int + 1) =~= rest);
            },
            None => {
                assert(text =~= rest);
                assert forall|i: int| 0 <= i < text.len() implies text[i] != '@' by {
                    if i < body.len() {
                        assert(body.contains(body[i]));
                    }
                }
                lemma_pos_is(text, '@', text.len() as int);
                assert(text[0] == body[0]);
            },
        }
        assert(implementation_of(text) == (r.implementation, rest));
    }
}

/// The place of a version in their order.
pub open spec fn version_place(v: (u8, u8, u8)) -> int {
    v.0 * 65536 + v.1 * 256 + v.2
}

/// A demand compares versions by their order, and what it does not name counts as zero; one
/// without a sign admits the versions that begin with it.
pub proof fn theorem_demands_compare_versions(c: Constraint, v: (u8, u8, u8))
    ensures
        c.op == Op::Ge ==> (c.admits(v) <==> version_place(v) >= version_place(c.target())),
        c.op == Op::Le ==> (c.admits(v) <==> version_place(v) <= version_place(c.target())),
        c.op == Op::Gt ==> (c.admits(v) <==> version_place(v) > version_place(c.target())),
        c.op == Op::Lt ==> (c.admits(v) <==> version_place(v) < version_place(c.target())),
        c.op == Op::Eq && c.minor is None && c.micro is None ==> (c.admits(v) <==> v.0 == c.major),
        c.op == Op::Eq && c.micro is None ==> (c.minor matches Some(m) ==> (c.admits(v) <==> v.0
            == c.major && v.1 == m)),
        c.op == Op::Eq ==> (c.minor matches Some(m) ==> (c.micro matches Some(k) ==> (c.admits(v)
            <==> v == (c.major, m, k)))),
        c.target().0 == c.major,
        c.minor is None ==> c.target().1 == 0,
        c.minor matches Some(m) ==> c.target().1 == m,
        c.micro is None ==> c.target().2 == 0,
        c.micro matches Some(m) ==> c.target().2 == m,
{
}

/// The sign of a demand stands before its version.
pub proof fn theorem_signs_of_demands(rest: Seq<char>)
    requires
        rest.len() > 0,
        is_digit(rest[0]),
    ensures
        op_of(">="@ + rest) == (Op::Ge, rest),
        op_of("<="@ + rest) == (Op::Le, rest),
        op_of(">"@ + rest) == (Op::Gt, rest),
        op_of("<"@ + rest) == (Op::Lt, rest),
        op_of("=="@ + rest) == (Op::Eq, rest),
        op_of(rest) == (Op::Eq, rest),
{
    reveal_strlit("==");
    reveal_strlit(">=");
    reveal_strlit("<=");
    reveal_strlit("");
    lemma_op_reads_back(Op::Ge, rest);
    lemma_op_reads_back(Op::Le, rest);
    lemma_op_reads_back(Op::Gt, rest);
    lemma_op_reads_back(Op::Lt, rest);
    lemma_op_reads_back(Op::Eq, rest);
    assert(""@ + rest =~= rest);
    let t = "=="@ + rest;
    assert(t.skip(2) =~= rest);
    assert(t.subrange(0, 2) =~= "=="@);
    assert(t.subrange(0, 2)[0] == '=');
    assert(">="@[0] == '>' && "<="@[0] == '<');
}

/// An interpreter is what is asked for where its kind is, whatever the case of the letters,
/// its build is, and every demand admits its version.
pub proof fn theorem_what_is_asked_for(p: ProbeModel, r: RequestModel, i: int)
    requires
        satisfies(p, r),
    ensures
        r.implementation matches Some(want) ==> lower(want) == lower(p.implementation),
        r.freethreaded ==> p.freethreaded,
        0 <= i < r.constraints.len() ==> r.constraints[i].admits(p.version),
{
}

/// Each thing that is asked for can turn an interpreter down.
pub proof fn theorem_what_turns_an_interpreter_down(p: ProbeModel, r: RequestModel, i: int)
    ensures
        r.freethreaded && !p.freethreaded ==> !satisfies(p, r),
        0 <= i < r.constraints.len() && !r.constraints[i].admits(p.version) ==> !satisfies(p, r),
        r.implementation matches Some(want) ==> (lower(want) != lower(p.implementation)
            ==> !satisfies(p, r)),
        r.implementation is None && !r.freethreaded && r.constraints.len() == 0 ==> satisfies(p, r),
{
}

/// The kind of interpreter stands before an at sign, or alone where it begins with a letter;
/// the letter for a build without the lock stands behind a digit at the end.
pub proof fn theorem_parts_of_a_request(name: Seq<char>, versions: Seq<char>)
    ensures
        !name.contains('@') ==> implementation_of(name + seq!['@'] + versions) == (
            Some(lower(name)),
            versions,
        ),
        !name.contains('@') && name.len() > 0 && is_letter(name[0]) ==> implementation_of(name) == (
            Some(lower(name)),
            ""@,
        ),
        !name.contains('@') && name.len() > 0 && !is_letter(name[0]) ==> implementation_of(name)
            == (None::<Seq<char>>, name),
        versions.len() > 0 && is_digit(versions.last()) ==> freethreaded_of(
            versions + seq!['t'],
        ) == (true, versions) && freethreaded_of(versions) == (false, versions),
{
    if !name.contains('@') {
        let s = name + seq!['@'] + versions;
        crate::text::lemma_pos_is(s, '@', name.len() as int);
        assert(s.take(name.len() as int) =~= name);
        assert(s.skip(name.len() as int + 1) =~= versions);
        crate::text::lemma_pos_is(name, '@', name.len() as int);
    }
    let t = versions + seq!['t'];
    assert(t.drop_last() =~= versions);
}

/// A file that exists is a path; else what reads as a request is one, and the rest is a path.
pub proof fn theorem_paths_and_requests(s: Seq<char>)
    ensures
        pyarg_of(s, true) == PyArgModel::Path(trimmed(s)),
        request_of(trimmed(s)) matches Some(r) ==> pyarg_of(s, false) == PyArgModel::Request(r),
        request_of(trimmed(s)) is None ==> pyarg_of(s, false) == PyArgModel::Path(trimmed(s)),
        request_of(Seq::empty()) is None,
{
    crate::text::lemma_pos_is(Seq::empty(), '@', 0);
}

} // verus!
