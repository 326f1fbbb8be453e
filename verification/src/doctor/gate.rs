//! Failing a run when a measured number passes a threshold.

use super::report::DoctorReport;
use crate::double::{of_count, Double};
use crate::text::{
    contains_sub, contains_text, find_str, first_at, from_range, join, joined, str_eq, texts,
    to_chars, trim, trimmed,
};
use vstd::prelude::*;

verus! {

broadcast use crate::text::lemma_texts_push;

/// How a number is compared with a threshold.
#[derive(Clone, Copy, Debug, PartialEq, Eq, Structural)]
pub enum Op {
    Lt,
    Le,
    Gt,
    Ge,
    Eq,
    Ne,
}

impl Op {
    /// How the operator is written.
    pub open spec fn sign(self) -> Seq<char> {
        match self {
            Op::Lt => "<"@,
            Op::Le => "<="@,
            Op::Gt => ">"@,
            Op::Ge => ">="@,
            Op::Eq => "=="@,
            Op::Ne => "!="@,
        }
    }

    /// The operators in the order in which they are looked for: `<=` before `<`.
    pub open spec fn tried() -> Seq<Op> {
        seq![Op::Le, Op::Ge, Op::Eq, Op::Ne, Op::Lt, Op::Gt]
    }

    /// Whether the comparison holds.
    pub open spec fn holds(self, lhs: Double, rhs: Double) -> bool {
        match self {
            Op::Lt => lhs.less(rhs),
            Op::Le => lhs.less(rhs) || lhs.same(rhs),
            Op::Gt => rhs.less(lhs),
            Op::Ge => lhs.at_least(rhs),
            Op::Eq => lhs.same(rhs),
            Op::Ne => !lhs.same(rhs),
        }
    }

    /// Whether `s` holds this operator, first at `pos`, and none that is looked for
    /// before it.
    pub open spec fn found(self, s: Seq<char>, pos: int) -> bool {
        exists|k: int|
            0 <= k < Op::tried().len() && Op::tried()[k] == self && first_at(s, self.sign(), pos)
                && forall|j: int|
                0 <= j < k ==> !contains_sub(s, (#[trigger] Op::tried()[j]).sign())
    }

    /// Whether `s` holds no operator.
    pub open spec fn absent(s: Seq<char>) -> bool {
        forall|k: int|
            0 <= k < Op::tried().len() ==> !contains_sub(s, (#[trigger] Op::tried()[k]).sign())
    }

    /// Looks for an operator in a text: which one, and where.
    pub fn parse(s: &str) -> (res: Option<(Op, usize)>)
        ensures
            match res {
                Some((op, pos)) => op.found(s@, pos as int),
                None => Op::absent(s@),
            },
    {
        let ghost all = Op::tried();
        if let Some(pos) = find_str(s, "<=") {
            assert(all[0] == Op::Le);
            return Some((Op::Le, pos));
        }
        if let Some(pos) = find_str(s, ">=") {
            assert(all[1] == Op::Ge);
            return Some((Op::Ge, pos));
        }
        if let Some(pos) = find_str(s, "==") {
            assert(all[2] == Op::Eq);
            return Some((Op::Eq, pos));
        }
        if let Some(pos) = find_str(s, "!=") {
            assert(all[3] == Op::Ne);
            return Some((Op::Ne, pos));
        }
        if let Some(pos) = find_str(s, "<") {
            assert(all[4] == Op::Lt);
            return Some((Op::Lt, pos));
        }
        if let Some(pos) = find_str(s, ">") {
            assert(all[5] == Op::Gt);
            return Some((Op::Gt, pos));
        }
        None
    }

    /// Writes the operator.
    pub fn symbol(self) -> (res: String)
        ensures
            res@ == self.sign(),
    {
        match self {
            Op::Lt => "<".to_owned(),
            Op::Le => "<=".to_owned(),
            Op::Gt => ">".to_owned(),
            Op::Ge => ">=".to_owned(),
            Op::Eq => "==".to_owned(),
            Op::Ne => "!=".to_owned(),
        }
    }

    /// Compares a number with a threshold.
    pub fn test(self, lhs: &Double, rhs: &Double) -> (res: bool)
        ensures
            res == self.holds(*lhs, *rhs),
    {
        match self {
            Op::Lt => lhs.lt(rhs),
            Op::Le => lhs.lt(rhs) || lhs.eq_num(rhs),
            Op::Gt => rhs.lt(lhs),
            Op::Ge => lhs.ge(rhs),
            Op::Eq => lhs.eq_num(rhs),
            Op::Ne => !lhs.eq_num(rhs),
        }
    }
}

/// The numbers that a condition can name.
pub open spec fn metrics() -> Seq<Seq<char>> {
    seq![
        "wall_seconds"@,
        "test_time_seconds"@,
        "cpu_time_seconds"@,
        "tests"@,
        "workers"@,
        "wait_pct"@,
        "wait_seconds"@,
        "parallel_efficiency"@,
        "efficiency_pct"@,
        "realized_speedup"@,
        "imbalance_pct"@,
        "long_pole_seconds"@,
    ]
}

/// Lists the numbers that a condition can name.
pub fn metric_names() -> (res: Vec<String>)
    ensures
        texts(res@) == metrics(),
{
    let mut out: Vec<String> = Vec::new();
    out.push("wall_seconds".to_owned());
    out.push("test_time_seconds".to_owned());
    out.push("cpu_time_seconds".to_owned());
    out.push("tests".to_owned());
    out.push("workers".to_owned());
    out.push("wait_pct".to_owned());
    out.push("wait_seconds".to_owned());
    out.push("parallel_efficiency".to_owned());
    out.push("efficiency_pct".to_owned());
    out.push("realized_speedup".to_owned());
    out.push("imbalance_pct".to_owned());
    out.push("long_pole_seconds".to_owned());
    assert(texts(out@) =~= metrics());
    out
}

/// A condition that a run must not meet.
pub struct GateCondition {
    pub raw: String,
    pub metric: String,
    pub op: Op,
    pub threshold: Double,
}

/// Why a condition cannot be read.
pub enum GateError {
    NoOperator { spec: String },
    UnknownMetric { spec: String, metric: String },
    NotANumber { spec: String, rhs: String },
}

/// What stands before the operator.
pub open spec fn metric_part(s: Seq<char>, pos: int) -> Seq<char> {
    trimmed(s.take(pos))
}

/// What stands behind the operator.
pub open spec fn threshold_part(s: Seq<char>, op: Op, pos: int) -> Seq<char> {
    trimmed(s.skip(pos + op.sign().len()))
}

/// Whether `number` reads a text as `r`.
pub open spec fn reads<F: Fn(&str) -> Option<Double>>(
    number: &F,
    text: Seq<char>,
    r: Option<Double>,
) -> bool {
    exists|s: &str| s@ == text && call_ensures(number, (s,), r)
}

/// Whether a result is what reading a condition gives.
pub open spec fn parsed<F: Fn(&str) -> Option<Double>>(
    spec: Seq<char>,
    number: &F,
    res: Result<GateCondition, GateError>,
) -> bool {
    match res {
        Err(GateError::NoOperator { spec: s }) => s@ == spec && Op::absent(spec),
        Err(GateError::UnknownMetric { spec: s, metric }) => s@ == spec && !metrics().contains(
            metric@,
        ) && exists|op: Op, pos: int| #[trigger]
            op.found(spec, pos) && metric@ == metric_part(spec, pos),
        Err(GateError::NotANumber { spec: s, rhs }) => s@ == spec && exists|op: Op, pos: int| #[trigger]
            op.found(spec, pos) && metrics().contains(metric_part(spec, pos)) && rhs@
                == threshold_part(spec, op, pos) && reads(number, rhs@, None),
        Ok(c) => c.raw@ == spec && metrics().contains(c.metric@) && exists|pos: int| #[trigger]
            c.op.found(spec, pos) && c.metric@ == metric_part(spec, pos) && reads(
                number,
                threshold_part(spec, c.op, pos),
                Some(c.threshold),
            ),
    }
}

/// Whether reading a condition can succeed.
pub open spec fn readable<F: Fn(&str) -> Option<Double>>(spec: Seq<char>, number: &F) -> bool {
    exists|c: GateCondition| #[trigger] parsed(spec, number, Ok(c))
}

proof fn lemma_operator_unique(s: Seq<char>, a: Op, p: int, b: Op, q: int)
    requires
        a.found(s, p),
        b.found(s, q),
    ensures
        a == b,
        p == q,
{
    let i = choose|k: int|
        0 <= k < Op::tried().len() && Op::tried()[k] == a && first_at(s, a.sign(), p) && forall|j: int|
            0 <= j < k ==> !contains_sub(s, (#[trigger] Op::tried()[j]).sign());
    let k = choose|k: int|
        0 <= k < Op::tried().len() && Op::tried()[k] == b && first_at(s, b.sign(), q) && forall|j: int|
            0 <= j < k ==> !contains_sub(s, (#[trigger] Op::tried()[j]).sign());
    assert(crate::text::occurs_at(s, a.sign(), p));
    assert(crate::text::occurs_at(s, b.sign(), q));
    if i < k {
        assert(!contains_sub(s, Op::tried()[i].sign()));
    } else if k < i {
        assert(!contains_sub(s, Op::tried()[k].sign()));
    }
}

/// A text holds an operator, at one place, or none.
pub proof fn theorem_operator_is_unique(s: Seq<char>, a: Op, p: int, b: Op, q: int)
    requires
        a.found(s, p),
    ensures
        !Op::absent(s),
        b.found(s, q) ==> a == b && p == q,
{
    if b.found(s, q) {
        lemma_operator_unique(s, a, p, b, q);
    }
    let k = choose|k: int|
        0 <= k < Op::tried().len() && Op::tried()[k] == a && first_at(s, a.sign(), p) && forall|j: int|
            0 <= j < k ==> !contains_sub(s, (#[trigger] Op::tried()[j]).sign());
    assert(crate::text::occurs_at(s, Op::tried()[k].sign(), p));
}

/// Whether a text is the threshold of a condition on a metric that there is.
pub open spec fn is_threshold(spec: Seq<char>, s: Seq<char>) -> bool {
    exists|op: Op, pos: int| #[trigger]
        op.found(spec, pos) && metrics().contains(metric_part(spec, pos)) && s == threshold_part(
            spec,
            op,
            pos,
        )
}

/// Whether a text is the threshold of one of some conditions.
pub open spec fn is_some_threshold(specs: Seq<Seq<char>>, s: Seq<char>) -> bool {
    exists|i: int| 0 <= i < specs.len() && is_threshold(#[trigger] specs[i], s)
}

/// Reads a condition such as `wait_pct>50`. `number` reads the threshold.
pub fn parse_condition<F: Fn(&str) -> Option<Double>>(spec: &str, number: &F) -> (res: Result<
    GateCondition,
    GateError,
>)
    requires
        forall|s: &str| is_threshold(spec@, s@) ==> #[trigger] call_requires(number, (s,)),
    ensures
        parsed(spec@, number, res),
{
    let (op, pos) = match Op::parse(spec) {
        Some(found) => found,
        None => {
            return Err(GateError::NoOperator { spec: spec.to_owned() });
        },
    };
    let v = to_chars(spec);
    let n = v.len();
    let sign = to_chars(op.symbol().as_str());
    proof {
        assert(crate::text::occurs_at(spec@, op.sign(), pos as int));
        assert(pos + sign@.len() <= v@.len());
    }
    let metric = trim(from_range(&v, 0, pos).as_str());
    let rhs = trim(from_range(&v, pos + sign.len(), n).as_str());
    proof {
        assert(spec@.subrange(0, pos as int) =~= spec@.take(pos as int));
        assert(spec@.subrange(pos + sign@.len(), v@.len() as int) =~= spec@.skip(
            pos + op.sign().len(),
        ));
        assert(metric@ == metric_part(spec@, pos as int));
        assert(rhs@ == threshold_part(spec@, op, pos as int));
    }
    let names = metric_names();
    if !contains_text(names.as_slice(), metric.as_str()) {
        return Err(GateError::UnknownMetric { spec: spec.to_owned(), metric });
    }
    assert(is_threshold(spec@, rhs@));
    match number(rhs.as_str()) {
        Some(threshold) => Ok(GateCondition { raw: spec.to_owned(), metric, op, threshold }),
        None => Err(GateError::NotANumber { spec: spec.to_owned(), rhs }),
    }
}

/// Reads all conditions, up to the first that cannot be read.
pub fn parse_conditions<F: Fn(&str) -> Option<Double>>(specs: &[String], number: &F) -> (res: Result<
    Vec<GateCondition>,
    GateError,
>)
    requires
        forall|s: &str|
            is_some_threshold(texts(specs@), s@) ==> #[trigger] call_requires(number, (s,)),
    ensures
        match res {
            Ok(all) => all@.len() == specs@.len() && forall|i: int|
                0 <= i < specs@.len() ==> parsed(specs@[i]@, number, Ok(#[trigger] all@[i])),
            Err(e) => exists|i: int|
                0 <= i < specs@.len() && parsed(#[trigger] specs@[i]@, number, Err(e)) && forall|j: int|
                    0 <= j < i ==> readable(#[trigger] specs@[j]@, number),
        },
{
    let mut out: Vec<GateCondition> = Vec::new();
    let mut i: usize = 0;
    while i < specs.len()
        invariant
            i <= specs.len(),
            forall|s: &str|
                is_some_threshold(texts(specs@), s@) ==> #[trigger] call_requires(number, (s,)),
            out@.len() == i,
            forall|j: int| 0 <= j < i ==> parsed(specs@[j]@, number, Ok(#[trigger] out@[j])),
        decreases specs.len() - i,
    {
        proof {
            let all = texts(specs@);
            assert(all[i as int] == specs@[i as int]@);
            assert forall|s: &str| is_threshold(specs@[i as int]@, s@) implies #[trigger] call_requires(
                number,
                (s,),
            ) by {
                assert(is_threshold(all[i as int], s@));
                assert(is_some_threshold(all, s@));
            }
        }
        match parse_condition(specs[i].as_str(), number) {
            Ok(c) => {
                out.push(c);
            },
            Err(e) => {
                proof {
                    assert(parsed(specs@[i as int]@, number, Err(e)));
                    assert forall|j: int| 0 <= j < i implies readable(
                        #[trigger] specs@[j]@,
                        number,
                    ) by {
                        assert(parsed(specs@[j]@, number, Ok(out@[j])));
                    }
                }
                return Err(e);
            },
        }
        i += 1;
    }
    Ok(out)
}

impl GateError {
    /// The message for a condition that cannot be read.
    pub open spec fn text(self) -> Seq<char> {
        match self {
            GateError::NoOperator { spec } => "--doctor-fail-on '"@ + spec@
                + "': no comparison operator (use one of < <= > >= == !=), e.g. 'parallel_efficiency<30'"@,
            GateError::UnknownMetric { spec, metric } => "--doctor-fail-on '"@ + spec@
                + "': unknown metric '"@ + metric@ + "'. Known metrics: "@ + joined(metrics(), ", "@),
            GateError::NotANumber { spec, rhs } => "--doctor-fail-on '"@ + spec@ + "': threshold '"@
                + rhs@ + "' is not a number"@,
        }
    }

    /// Writes the message for a condition that cannot be read.
    pub fn message(&self) -> (res: String)
        ensures
            res@ == self.text(),
    {
        let mut out = String::from_str("--doctor-fail-on '");
        match self {
            GateError::NoOperator { spec } => {
                out.append(spec.as_str());
                out.append(
                    "': no comparison operator (use one of < <= > >= == !=), e.g. 'parallel_efficiency<30'",
                );
            },
            GateError::UnknownMetric { spec, metric } => {
                out.append(spec.as_str());
                out.append("': unknown metric '");
                out.append(metric.as_str());
                out.append("'. Known metrics: ");
                let names = metric_names();
                out.append(join(names.as_slice(), ", ").as_str());
            },
            GateError::NotANumber { spec, rhs } => {
                out.append(spec.as_str());
                out.append("': threshold '");
                out.append(rhs.as_str());
                out.append("' is not a number");
            },
        }
        out
    }
}

/// What to warn of: an exact comparison with a number that is not a count.
pub open spec fn warning_text(c: GateCondition) -> Option<Seq<char>> {
    if (c.op == Op::Eq || c.op == Op::Ne) && c.metric@ != "tests"@ && c.metric@ != "workers"@ {
        Some(
            "rstest: --doctor-fail-on '"@ + c.raw@ + "': exact "@ + c.op.sign()
                + " on the floating-point metric '"@ + c.metric@
                + "' rarely matches; a threshold (< / >) is usually meant"@,
        )
    } else {
        None
    }
}

/// Warns of an exact comparison that will hardly ever hold.
pub fn warning(c: &GateCondition) -> (res: Option<String>)
    ensures
        crate::text::opt_text(res) == warning_text(*c),
{
    if (c.op == Op::Eq || c.op == Op::Ne) && !str_eq(c.metric.as_str(), "tests") && !str_eq(
        c.metric.as_str(),
        "workers",
    ) {
        let mut out = String::from_str("rstest: --doctor-fail-on '");
        out.append(c.raw.as_str());
        out.append("': exact ");
        out.append(c.op.symbol().as_str());
        out.append(" on the floating-point metric '");
        out.append(c.metric.as_str());
        out.append("' rarely matches; a threshold (< / >) is usually meant");
        Some(out)
    } else {
        None
    }
}

/// The number that a name stands for in a report, where it was measured.
pub open spec fn value_of(r: DoctorReport, metric: Seq<char>) -> Option<Double> {
    if metric == "wall_seconds"@ {
        Some(r.wall_seconds)
    } else if metric == "test_time_seconds"@ {
        Some(r.test_time_seconds)
    } else if metric == "cpu_time_seconds"@ {
        Some(r.cpu_time_seconds)
    } else if metric == "tests"@ {
        Some(of_count(r.tests as nat))
    } else if metric == "workers"@ {
        Some(of_count(r.workers as nat))
    } else if metric == "wait_pct"@ || metric == "wait_seconds"@ {
        match r.wait_bound {
            Some(w) => Some(
                if metric == "wait_pct"@ {
                    w.wait_pct
                } else {
                    w.wait_seconds
                },
            ),
            None => None,
        }
    } else if metrics().contains(metric) {
        match r.parallel_efficiency {
            Some(p) => Some(
                if metric == "realized_speedup"@ {
                    p.realized_speedup
                } else if metric == "imbalance_pct"@ {
                    p.imbalance_pct
                } else if metric == "long_pole_seconds"@ {
                    p.long_pole_seconds
                } else {
                    p.efficiency_pct
                },
            ),
            None => None,
        }
    } else {
        None
    }
}

proof fn lemma_metric_at(i: int)
    requires
        0 <= i < 12,
    ensures
        metrics().contains(metrics()[i]),
{
    assert(metrics()[i] == metrics()[i]);
}

/// The number that a name stands for in a report.
pub fn metric_value(report: &DoctorReport, metric: &str) -> (res: Option<Double>)
    ensures
        res == value_of(*report, metric@),
{
    if str_eq(metric, "wall_seconds") {
        Some(report.wall_seconds)
    } else if str_eq(metric, "test_time_seconds") {
        Some(report.test_time_seconds)
    } else if str_eq(metric, "cpu_time_seconds") {
        Some(report.cpu_time_seconds)
    } else if str_eq(metric, "tests") {
        Some(Double::from_count(report.tests as u64))
    } else if str_eq(metric, "workers") {
        Some(Double::from_count(report.workers as u64))
    } else if str_eq(metric, "wait_pct") {
        match &report.wait_bound {
            Some(w) => Some(w.wait_pct),
            None => None,
        }
    } else if str_eq(metric, "wait_seconds") {
        proof {
            reveal_strlit("wait_pct");
            reveal_strlit("wait_seconds");
        }
        match &report.wait_bound {
            Some(w) => Some(w.wait_seconds),
            None => None,
        }
    } else {
        let names = metric_names();
        if !contains_text(names.as_slice(), metric) {
            return None;
        }
        match &report.parallel_efficiency {
            Some(p) => if str_eq(metric, "realized_speedup") {
                Some(p.realized_speedup)
            } else if str_eq(metric, "imbalance_pct") {
                Some(p.imbalance_pct)
            } else if str_eq(metric, "long_pole_seconds") {
                Some(p.long_pole_seconds)
            } else {
                Some(p.efficiency_pct)
            },
            None => None,
        }
    }
}

/// Every name stands for a number, where everything was measured.
pub proof fn theorem_every_metric_resolves(r: DoctorReport, i: int)
    requires
        0 <= i < metrics().len(),
        r.wait_bound is Some,
        r.parallel_efficiency is Some,
    ensures
        value_of(r, metrics()[i]) is Some,
{
    lemma_metric_at(i);
}

/// What checking the conditions gave.
pub struct GateOutcome {
    /// Conditions that are met: the run fails.
    pub breaches: Vec<String>,
    /// Conditions on numbers that were not measured.
    pub skipped: Vec<String>,
}

/// What is told of a condition that is met.
pub open spec fn breach_text(c: GateCondition, v: Double) -> Seq<char> {
    c.metric@ + " = "@ + v.fixed_text(2) + " "@ + c.op.sign() + " "@ + c.threshold.fixed_text(2)
        + " ("@ + c.raw@ + ")"@
}

/// What is told of a condition that cannot be checked.
pub open spec fn skipped_text(c: GateCondition) -> Seq<char> {
    "'"@ + c.raw@ + "' not measured for this run (metric absent); condition skipped"@
}

/// What is told of the conditions that are met.
pub open spec fn breaches(r: DoctorReport, cs: Seq<GateCondition>) -> Seq<Seq<char>>
    decreases cs.len(),
{
    if cs.len() == 0 {
        Seq::empty()
    } else {
        let before = breaches(r, cs.drop_last());
        let c = cs.last();
        match value_of(r, c.metric@) {
            Some(v) => if c.op.holds(v, c.threshold) {
                before.push(breach_text(c, v))
            } else {
                before
            },
            None => before,
        }
    }
}

/// What is told of the conditions that cannot be checked.
pub open spec fn skips(r: DoctorReport, cs: Seq<GateCondition>) -> Seq<Seq<char>>
    decreases cs.len(),
{
    if cs.len() == 0 {
        Seq::empty()
    } else {
        let before = skips(r, cs.drop_last());
        if value_of(r, cs.last().metric@) is None {
            before.push(skipped_text(cs.last()))
        } else {
            before
        }
    }
}

/// Checks the conditions on a report.
pub fn evaluate(report: &DoctorReport, conditions: &[GateCondition]) -> (res: GateOutcome)
    ensures
        texts(res.breaches@) == breaches(*report, conditions@),
        texts(res.skipped@) == skips(*report, conditions@),
{
    let mut met: Vec<String> = Vec::new();
    let mut skipped: Vec<String> = Vec::new();
    let mut i: usize = 0;
    assert(texts(met@) =~= Seq::empty());
    assert(texts(skipped@) =~= Seq::empty());
    while i < conditions.len()
        invariant
            i <= conditions.len(),
            texts(met@) == breaches(*report, conditions@.take(i as int)),
            texts(skipped@) == skips(*report, conditions@.take(i as int)),
        decreases conditions.len() - i,
    {
        let c = &conditions[i];
        proof {
            assert(conditions@.take(i + 1).drop_last() =~= conditions@.take(i as int));
            assert(conditions@.take(i + 1).last() == *c);
        }
        match metric_value(report, c.metric.as_str()) {
            Some(v) => {
                if c.op.test(&v, &c.threshold) {
                    let mut out = String::from_str(c.metric.as_str());
                    out.append(" = ");
                    out.append(v.fixed(2).as_str());
                    out.append(" ");
                    out.append(c.op.symbol().as_str());
                    out.append(" ");
                    out.append(c.threshold.fixed(2).as_str());
                    out.append(" (");
                    out.append(c.raw.as_str());
                    out.append(")");
                    met.push(out);
                }
            },
            None => {
                let mut out = String::from_str("'");
                out.append(c.raw.as_str());
                out.append("' not measured for this run (metric absent); condition skipped");
                skipped.push(out);
            },
        }
        i += 1;
    }
    assert(conditions@.take(conditions.len() as int) =~= conditions@);
    GateOutcome { breaches: met, skipped }
}

/// A number that was not measured never makes a run fail.
pub proof fn theorem_unmeasured_never_fails(r: DoctorReport, cs: Seq<GateCondition>)
    requires
        forall|i: int| 0 <= i < cs.len() ==> value_of(r, (#[trigger] cs[i]).metric@) is None,
    ensures
        breaches(r, cs).len() == 0,
        skips(r, cs).len() == cs.len(),
    decreases cs.len(),
{
    if cs.len() > 0 {
        assert(cs.last() == cs[cs.len() - 1]);
        assert forall|i: int| 0 <= i < cs.drop_last().len() implies value_of(
            r,
            (#[trigger] cs.drop_last()[i]).metric@,
        ) is None by {
            assert(cs.drop_last()[i] == cs[i]);
        }
        theorem_unmeasured_never_fails(r, cs.drop_last());
    }
}

/// Of two numbers one is less, or they are the same, and each operator says what it is
/// written for: `<=` holds just where `>` does not, `>=` where `<` does not, and `!=`
/// where `==` does not. From zero up numbers are compared as their bits are.
pub proof fn theorem_operators_compare_numbers(lhs: Double, rhs: Double)
    requires
        !lhs.nan(),
        !rhs.nan(),
    ensures
        Op::Le.holds(lhs, rhs) <==> !Op::Gt.holds(lhs, rhs),
        Op::Ge.holds(lhs, rhs) <==> !Op::Lt.holds(lhs, rhs),
        Op::Ne.holds(lhs, rhs) <==> !Op::Eq.holds(lhs, rhs),
        Op::Gt.holds(lhs, rhs) <==> Op::Lt.holds(rhs, lhs),
        Op::Eq.holds(lhs, rhs) <==> !Op::Lt.holds(lhs, rhs) && !Op::Gt.holds(lhs, rhs),
        lhs.bits < 0x8000000000000000 && rhs.bits < 0x8000000000000000 ==> (Op::Lt.holds(lhs, rhs)
            <==> lhs.bits < rhs.bits),
        lhs.bits >= 0x8000000000000000 && rhs.bits >= 0x8000000000000000 ==> (Op::Lt.holds(
            lhs,
            rhs,
        ) <==> lhs.bits > rhs.bits),
        lhs.bits > 0x8000000000000000 && rhs.bits < 0x8000000000000000 ==> Op::Lt.holds(lhs, rhs),
        lhs.bits < 0x8000000000000000 && rhs.bits >= 0x8000000000000000 ==> !Op::Lt.holds(
            lhs,
            rhs,
        ),
{
}

/// Of what is no number only `!=` holds.
pub proof fn theorem_no_number_differs_from_everything(op: Op, lhs: Double, rhs: Double)
    requires
        lhs.nan() || rhs.nan(),
    ensures
        op.holds(lhs, rhs) <==> op == Op::Ne,
{
}

/// Whether no character of a text belongs to an operator.
pub open spec fn without_operators(s: Seq<char>) -> bool {
    forall|i: int|
        0 <= i < s.len() ==> (#[trigger] s[i]) != '<' && s[i] != '>' && s[i] != '=' && s[i] != '!'
}

proof fn lemma_operator_absent(m: Seq<char>, sign: Seq<char>, t: Seq<char>, other: Seq<char>)
    requires
        without_operators(m),
        without_operators(t),
        1 <= other.len() <= 2,
        !without_operators(other.take(1)),
        other.len() == 2 ==> !without_operators(other.skip(1)),
        forall|q: int|
            0 <= q < sign.len() && (#[trigger] sign[q]) == other[0] ==> other.len() == 2 && (q + 1
                >= sign.len() || sign[q + 1] != other[1]),
    ensures
        !contains_sub(m + sign + t, other),
{
    let s = m + sign + t;
    let n = m.len() as int;
    let e = n + sign.len();
    let x = other[0];
    assert(x == '<' || x == '>' || x == '=' || x == '!') by {
        let one = other.take(1);
        let i = choose|i: int|
            0 <= i < one.len() && !((#[trigger] one[i]) != '<' && one[i] != '>' && one[i] != '='
                && one[i] != '!');
        assert(one[i] == other[0]);
    }
    assert forall|j: int| !crate::text::occurs_at(s, other, j) by {
        if crate::text::occurs_at(s, other, j) {
            let cut = s.subrange(j, j + other.len());
            assert(cut[0] == s[j]);
            if j < n {
                assert(s[j] == m[j]);
            } else if j >= e {
                assert(s[j] == t[j - e]);
            } else {
                assert(s[j] == sign[j - n]);
                assert(cut[1] == s[j + 1]);
                if j + 1 < e {
                    assert(s[j + 1] == sign[j + 1 - n]);
                } else {
                    assert(s[j + 1] == t[j + 1 - e]);
                    let two = other.skip(1);
                    let i = choose|i: int|
                        0 <= i < two.len() && !((#[trigger] two[i]) != '<' && two[i] != '>'
                            && two[i] != '=' && two[i] != '!');
                    assert(two[i] == other[1]);
                }
            }
        }
    }
}

proof fn lemma_signs()
    ensures
        Op::Lt.sign() == seq!['<'],
        Op::Le.sign() == seq!['<', '='],
        Op::Gt.sign() == seq!['>'],
        Op::Ge.sign() == seq!['>', '='],
        Op::Eq.sign() == seq!['=', '='],
        Op::Ne.sign() == seq!['!', '='],
{
    reveal_strlit("<");
    reveal_strlit("<=");
    reveal_strlit(">");
    reveal_strlit(">=");
    reveal_strlit("==");
    reveal_strlit("!=");
    assert(Op::Lt.sign() =~= seq!['<']);
    assert(Op::Le.sign() =~= seq!['<', '=']);
    assert(Op::Gt.sign() =~= seq!['>']);
    assert(Op::Ge.sign() =~= seq!['>', '=']);
    assert(Op::Eq.sign() =~= seq!['=', '=']);
    assert(Op::Ne.sign() =~= seq!['!', '=']);
}

proof fn lemma_operator_between(m: Seq<char>, op: Op, k: int, t: Seq<char>)
    requires
        without_operators(m),
        without_operators(t),
        0 <= k < 6,
        Op::tried()[k] == op,
    ensures
        op.found(m + op.sign() + t, m.len() as int),
        metric_part(m + op.sign() + t, m.len() as int) == trimmed(m),
        threshold_part(m + op.sign() + t, op, m.len() as int) == trimmed(t),
{
    lemma_signs();
    let sign = op.sign();
    let s = m + sign + t;
    let n = m.len() as int;
    assert(s.subrange(n, n + sign.len()) =~= sign);
    assert(crate::text::occurs_at(s, sign, n));
    assert forall|j: int| 0 <= j < n implies !crate::text::occurs_at(s, sign, j) by {
        if crate::text::occurs_at(s, sign, j) {
            assert(s.subrange(j, j + sign.len())[0] == s[j]);
            assert(s[j] == m[j]);
        }
    }
    assert forall|h: int| 0 <= h < k implies !contains_sub(s, (#[trigger] Op::tried()[h]).sign()) by {
        let other = Op::tried()[h].sign();
        assert(other.take(1)[0] == other[0]);
        if other.len() == 2 {
            assert(other.skip(1)[0] == other[1]);
        }
        lemma_operator_absent(m, sign, t, other);
    }
    assert(s.take(n) =~= m);
    assert(s.skip(n + sign.len()) =~= t);
}

/// A condition is the name of a metric, an operator and a threshold, with blanks around
/// them as one likes.
pub proof fn theorem_condition_is_metric_operator_threshold(m: Seq<char>, t: Seq<char>)
    requires
        without_operators(m),
        without_operators(t),
    ensures
        Op::Lt.found(m + "<"@ + t, m.len() as int),
        Op::Le.found(m + "<="@ + t, m.len() as int),
        Op::Gt.found(m + ">"@ + t, m.len() as int),
        Op::Ge.found(m + ">="@ + t, m.len() as int),
        Op::Eq.found(m + "=="@ + t, m.len() as int),
        Op::Ne.found(m + "!="@ + t, m.len() as int),
        metric_part(m + "<"@ + t, m.len() as int) == trimmed(m),
        threshold_part(m + "<"@ + t, Op::Lt, m.len() as int) == trimmed(t),
        metric_part(m + "<="@ + t, m.len() as int) == trimmed(m),
        threshold_part(m + "<="@ + t, Op::Le, m.len() as int) == trimmed(t),
        metric_part(m + ">"@ + t, m.len() as int) == trimmed(m),
        threshold_part(m + ">"@ + t, Op::Gt, m.len() as int) == trimmed(t),
        metric_part(m + ">="@ + t, m.len() as int) == trimmed(m),
        threshold_part(m + ">="@ + t, Op::Ge, m.len() as int) == trimmed(t),
        metric_part(m + "=="@ + t, m.len() as int) == trimmed(m),
        threshold_part(m + "=="@ + t, Op::Eq, m.len() as int) == trimmed(t),
        metric_part(m + "!="@ + t, m.len() as int) == trimmed(m),
        threshold_part(m + "!="@ + t, Op::Ne, m.len() as int) == trimmed(t),
{
    lemma_operator_between(m, Op::Le, 0, t);
    lemma_operator_between(m, Op::Ge, 1, t);
    lemma_operator_between(m, Op::Eq, 2, t);
    lemma_operator_between(m, Op::Ne, 3, t);
    lemma_operator_between(m, Op::Lt, 4, t);
    lemma_operator_between(m, Op::Gt, 5, t);
}

/// Each metric is the number of the report that it is named after.
pub proof fn theorem_metrics_are_numbers_of_the_report(r: DoctorReport)
    ensures
        value_of(r, "wall_seconds"@) == Some(r.wall_seconds),
        value_of(r, "test_time_seconds"@) == Some(r.test_time_seconds),
        value_of(r, "cpu_time_seconds"@) == Some(r.cpu_time_seconds),
        value_of(r, "tests"@) == Some(of_count(r.tests as nat)),
        value_of(r, "workers"@) == Some(of_count(r.workers as nat)),
{
    reveal_strlit("wall_seconds");
    reveal_strlit("test_time_seconds");
    reveal_strlit("cpu_time_seconds");
    reveal_strlit("tests");
    reveal_strlit("workers");
    reveal_strlit("wait_pct");
    reveal_strlit("wait_seconds");
    reveal_strlit("parallel_efficiency");
    reveal_strlit("efficiency_pct");
    reveal_strlit("realized_speedup");
    reveal_strlit("imbalance_pct");
    reveal_strlit("long_pole_seconds");
    assert("wall_seconds"@.len() == 12);
    assert("test_time_seconds"@.len() == 17);
    assert("cpu_time_seconds"@.len() == 16);
    assert("tests"@.len() == 5);
    assert("workers"@.len() == 7);
    assert("wait_pct"@.len() == 8);
    assert("wait_seconds"@.len() == 12);
    assert("parallel_efficiency"@.len() == 19);
    assert("efficiency_pct"@.len() == 14);
    assert("realized_speedup"@.len() == 16);
    assert("imbalance_pct"@.len() == 13);
    assert("long_pole_seconds"@.len() == 17);
    assert("wall_seconds"@[2] == 'l');
    assert("wait_seconds"@[2] == 'i');
    assert("test_time_seconds"@[0] == 't');
    assert("long_pole_seconds"@[0] == 'l');
    assert("cpu_time_seconds"@[0] == 'c');
    assert("realized_speedup"@[0] == 'r');
}

/// What is told of waiting is a metric where it was measured.
pub proof fn theorem_waiting_is_a_metric(r: DoctorReport)
    ensures
        r.wait_bound matches Some(w) ==> value_of(r, "wait_pct"@) == Some(w.wait_pct),
        r.wait_bound matches Some(w) ==> value_of(r, "wait_seconds"@) == Some(w.wait_seconds),
        r.wait_bound is None ==> value_of(r, "wait_pct"@) is None,
        r.wait_bound is None ==> value_of(r, "wait_seconds"@) is None,
{
    reveal_strlit("wall_seconds");
    reveal_strlit("test_time_seconds");
    reveal_strlit("cpu_time_seconds");
    reveal_strlit("tests");
    reveal_strlit("workers");
    reveal_strlit("wait_pct");
    reveal_strlit("wait_seconds");
    reveal_strlit("parallel_efficiency");
    reveal_strlit("efficiency_pct");
    reveal_strlit("realized_speedup");
    reveal_strlit("imbalance_pct");
    reveal_strlit("long_pole_seconds");
    assert("wall_seconds"@.len() == 12);
    assert("test_time_seconds"@.len() == 17);
    assert("cpu_time_seconds"@.len() == 16);
    assert("tests"@.len() == 5);
    assert("workers"@.len() == 7);
    assert("wait_pct"@.len() == 8);
    assert("wait_seconds"@.len() == 12);
    assert("parallel_efficiency"@.len() == 19);
    assert("efficiency_pct"@.len() == 14);
    assert("realized_speedup"@.len() == 16);
    assert("imbalance_pct"@.len() == 13);
    assert("long_pole_seconds"@.len() == 17);
    assert("wall_seconds"@[2] == 'l');
    assert("wait_seconds"@[2] == 'i');
    assert("test_time_seconds"@[0] == 't');
    assert("long_pole_seconds"@[0] == 'l');
    assert("cpu_time_seconds"@[0] == 'c');
    assert("realized_speedup"@[0] == 'r');
}

/// What is told of running in parallel is a metric where it was measured. The efficiency
/// has two names.
pub proof fn theorem_efficiency_is_a_metric(r: DoctorReport)
    ensures
        r.parallel_efficiency matches Some(p) ==> value_of(r, "parallel_efficiency"@) == Some(
            p.efficiency_pct,
        ),
        r.parallel_efficiency matches Some(p) ==> value_of(r, "efficiency_pct"@) == Some(
            p.efficiency_pct,
        ),
        r.parallel_efficiency matches Some(p) ==> value_of(r, "realized_speedup"@) == Some(
            p.realized_speedup,
        ),
        r.parallel_efficiency matches Some(p) ==> value_of(r, "imbalance_pct"@) == Some(
            p.imbalance_pct,
        ),
        r.parallel_efficiency matches Some(p) ==> value_of(r, "long_pole_seconds"@) == Some(
            p.long_pole_seconds,
        ),
        r.parallel_efficiency is None ==> value_of(r, "parallel_efficiency"@) is None,
        r.parallel_efficiency is None ==> value_of(r, "efficiency_pct"@) is None,
        r.parallel_efficiency is None ==> value_of(r, "realized_speedup"@) is None,
        r.parallel_efficiency is None ==> value_of(r, "imbalance_pct"@) is None,
        r.parallel_efficiency is None ==> value_of(r, "long_pole_seconds"@) is None,
{
    reveal_strlit("wall_seconds");
    reveal_strlit("test_time_seconds");
    reveal_strlit("cpu_time_seconds");
    reveal_strlit("tests");
    reveal_strlit("workers");
    reveal_strlit("wait_pct");
    reveal_strlit("wait_seconds");
    reveal_strlit("parallel_efficiency");
    reveal_strlit("efficiency_pct");
    reveal_strlit("realized_speedup");
    reveal_strlit("imbalance_pct");
    reveal_strlit("long_pole_seconds");
    assert("wall_seconds"@.len() == 12);
    assert("test_time_seconds"@.len() == 17);
    assert("cpu_time_seconds"@.len() == 16);
    assert("tests"@.len() == 5);
    assert("workers"@.len() == 7);
    assert("wait_pct"@.len() == 8);
    assert("wait_seconds"@.len() == 12);
    assert("parallel_efficiency"@.len() == 19);
    assert("efficiency_pct"@.len() == 14);
    assert("realized_speedup"@.len() == 16);
    assert("imbalance_pct"@.len() == 13);
    assert("long_pole_seconds"@.len() == 17);
    assert("wall_seconds"@[2] == 'l');
    assert("wait_seconds"@[2] == 'i');
    assert("test_time_seconds"@[0] == 't');
    assert("long_pole_seconds"@[0] == 'l');
    assert("cpu_time_seconds"@[0] == 'c');
    assert("realized_speedup"@[0] == 'r');
    assert(metrics()[7] == "parallel_efficiency"@);
    assert(metrics()[8] == "efficiency_pct"@);
    assert(metrics()[9] == "realized_speedup"@);
    assert(metrics()[10] == "imbalance_pct"@);
    assert(metrics()[11] == "long_pole_seconds"@);
}

/// Conditions fail a run just where one of them holds of a number that was measured, and a
/// condition is passed over just where its number was not.
pub proof fn theorem_gate_fails_where_a_condition_holds(r: DoctorReport, cs: Seq<GateCondition>)
    ensures
        breaches(r, cs).len() > 0 <==> exists|i: int|
            0 <= i < cs.len() && (value_of(r, (#[trigger] cs[i]).metric@) matches Some(v)
                && cs[i].op.holds(v, cs[i].threshold)),
        skips(r, cs).len() > 0 <==> exists|i: int|
            0 <= i < cs.len() && value_of(r, (#[trigger] cs[i]).metric@) is None,
        breaches(r, cs).len() + skips(r, cs).len() <= cs.len(),
    decreases cs.len(),
{
    if cs.len() > 0 {
        let init = cs.drop_last();
        theorem_gate_fails_where_a_condition_holds(r, init);
        assert(cs[cs.len() - 1] == cs.last());
        assert forall|i: int| 0 <= i < init.len() implies #[trigger] init[i] == cs[i] by {}
        if breaches(r, init).len() > 0 {
            let i = choose|i: int|
                0 <= i < init.len() && (value_of(r, (#[trigger] init[i]).metric@) matches Some(v)
                    && init[i].op.holds(v, init[i].threshold));
            assert(cs[i] == init[i]);
        }
        if skips(r, init).len() > 0 {
            let i = choose|i: int|
                0 <= i < init.len() && value_of(r, (#[trigger] init[i]).metric@) is None;
            assert(cs[i] == init[i]);
        }
        if exists|i: int|
            0 <= i < cs.len() && (value_of(r, (#[trigger] cs[i]).metric@) matches Some(v)
                && cs[i].op.holds(v, cs[i].threshold)) {
            let i = choose|i: int|
                0 <= i < cs.len() && (value_of(r, (#[trigger] cs[i]).metric@) matches Some(v)
                    && cs[i].op.holds(v, cs[i].threshold));
            if i < init.len() {
                assert(init[i] == cs[i]);
            }
        }
        if exists|i: int|
            0 <= i < cs.len() && value_of(r, (#[trigger] cs[i]).metric@) is None {
            let i = choose|i: int|
                0 <= i < cs.len() && value_of(r, (#[trigger] cs[i]).metric@) is None;
            if i < init.len() {
                assert(init[i] == cs[i]);
            }
        }
    }
}

} // verus!
