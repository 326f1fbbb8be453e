//! Choosing among interpreters.

use super::request::{
    request_text, satisfies, Probe, ProbeModel, PyArg, PyArgModel, Request, RequestModel,
};
use crate::numbers::{dec, decimal};
use crate::text::{join, joined, texts};
use vstd::prelude::*;

verus! {

broadcast use crate::text::lemma_texts_push;

/// The oldest version that tests can run on is 3.9.
pub const MIN_MAJOR: u8 = 3;

/// The oldest version that tests can run on is 3.9.
pub const MIN_MINOR: u8 = 9;

/// Whether an interpreter is too old.
pub open spec fn too_old(p: ProbeModel) -> bool {
    p.version.0 < MIN_MAJOR || (p.version.0 == MIN_MAJOR && p.version.1 < MIN_MINOR)
}

/// Whether an interpreter can be used, and is what is asked for.
pub open spec fn usable(answer: Option<ProbeModel>, request: Option<RequestModel>) -> bool {
    answer matches Some(p) && !too_old(p) && p.worker_importable && (request matches Some(r)
        ==> satisfies(p, r))
}

/// A version as text.
pub open spec fn version_text(v: (u8, u8, u8)) -> Seq<char> {
    decimal(v.0 as nat) + "."@ + decimal(v.1 as nat) + "."@ + decimal(v.2 as nat)
}

/// Why an interpreter is not used.
pub open spec fn reason(
    candidate: Seq<char>,
    answer: Option<ProbeModel>,
    request: Option<RequestModel>,
) -> Seq<char> {
    let name = "  "@ + candidate;
    match answer {
        None => name + ": not runnable as a Python interpreter"@,
        Some(p) => if too_old(p) {
            name + ": Python "@ + version_text(p.version) + " is older than the required "@ + decimal(
                MIN_MAJOR as nat,
            ) + "."@ + decimal(MIN_MINOR as nat)
        } else if !p.worker_importable {
            name + ": cannot import the rstest worker shim (is rstest installed in it?)"@
        } else {
            name + ": Python "@ + version_text(p.version) + " ("@ + p.implementation
                + ") does not satisfy '"@ + (match request {
                Some(r) => request_text(r),
                None => ""@,
            }) + "'"@
        },
    }
}

fn write_version(v: (u8, u8, u8)) -> (res: String)
    ensures
        res@ == version_text(v),
{
    let mut out = dec(v.0 as u64);
    out.append(".");
    out.append(dec(v.1 as u64).as_str());
    out.append(".");
    out.append(dec(v.2 as u64).as_str());
    out
}

/// An answer, as a model.
pub open spec fn opt_probe(p: Option<Probe>) -> Option<ProbeModel> {
    match p {
        Some(p) => Some(p@),
        None => None,
    }
}

/// A request, as a model.
pub open spec fn asked(r: Option<&Request>) -> Option<RequestModel> {
    match r {
        Some(r) => Some(r@),
        None => None,
    }
}

/// Whether an answer can be what probing a candidate gives.
pub open spec fn answers<F: FnMut(&str) -> Option<Probe>>(
    prober: F,
    candidate: Seq<char>,
    answer: Option<ProbeModel>,
) -> bool {
    exists|s: &str, p: Option<Probe>|
        s@ == candidate && #[trigger] call_ensures(prober, (s,), p) && opt_probe(p) == answer
}

/// Whether a candidate was probed and could not be used.
pub open spec fn rejected<F: FnMut(&str) -> Option<Probe>>(
    prober: F,
    candidate: Seq<char>,
    answer: Option<ProbeModel>,
    request: Option<RequestModel>,
) -> bool {
    answers::<F>(prober, candidate, answer) && !usable(answer, request)
}

/// Why each of some interpreters is not used.
pub open spec fn reasons(
    candidates: Seq<String>,
    given: Seq<Option<ProbeModel>>,
    request: Option<RequestModel>,
) -> Seq<Seq<char>> {
    Seq::new(given.len(), |i: int| reason(candidates[i]@, given[i], request))
}

/// What is said where no interpreter can be used.
pub open spec fn failure_text(
    candidates: Seq<String>,
    given: Seq<Option<ProbeModel>>,
    request: Option<RequestModel>,
) -> Seq<char> {
    (match request {
        Some(r) => "No interpreter satisfied '"@ + request_text(r) + "'. Tried:"@,
        None => "no usable Python interpreter found. Tried:"@,
    }) + "\n"@ + joined(reasons(candidates, given, request), "\n"@)
        + "\n\nPass one explicitly with --python PATH-OR-VERSION."@
}

/// Whether a result is what trying the candidates in order gives: the first that
/// can be used, by the path it gives for itself, or why none can.
pub open spec fn resolved<F: FnMut(&str) -> Option<Probe>>(
    prober: F,
    candidates: Seq<String>,
    request: Option<RequestModel>,
    res: Result<String, String>,
) -> bool {
    exists|given: Seq<Option<ProbeModel>>| #[trigger]
        resolved_with::<F>(prober, candidates, request, given, res)
}

/// Whether a result is what trying the candidates gives, with these answers.
pub open spec fn resolved_with<F: FnMut(&str) -> Option<Probe>>(
    prober: F,
    candidates: Seq<String>,
    request: Option<RequestModel>,
    given: Seq<Option<ProbeModel>>,
    res: Result<String, String>,
) -> bool {
    &&& given.len() <= candidates.len()
    &&& match res {
        Ok(exe) => {
            &&& given.len() > 0
            &&& forall|i: int|
                0 <= i < given.len() - 1 ==> rejected::<F>(
                    prober,
                    candidates[i]@,
                    #[trigger] given[i],
                    request,
                )
            &&& answers::<F>(prober, candidates[given.len() - 1]@, given.last())
            &&& usable(given.last(), request)
            &&& exe@ == given.last().unwrap().executable
        },
        Err(message) => {
            &&& given.len() == candidates.len()
            &&& forall|i: int|
                0 <= i < given.len() ==> rejected::<F>(prober, candidates[i]@, #[trigger] given[i], request)
            &&& message@ == failure_text(candidates, given, request)
        },
    }
}

fn explain_rejection(candidate: &str, answer: &Option<Probe>, request: Option<&Request>) -> (res:
    String)
    ensures
        res@ == reason(candidate@, opt_probe(*answer), asked(request)),
{
    let mut out = String::from_str("  ");
    out.append(candidate);
    match answer {
        None => {
            out.append(": not runnable as a Python interpreter");
        },
        Some(p) => {
            if p.version.0 < MIN_MAJOR || (p.version.0 == MIN_MAJOR && p.version.1 < MIN_MINOR) {
                out.append(": Python ");
                out.append(write_version(p.version).as_str());
                out.append(" is older than the required ");
                out.append(dec(MIN_MAJOR as u64).as_str());
                out.append(".");
                out.append(dec(MIN_MINOR as u64).as_str());
            } else if !p.worker_importable {
                out.append(
                    ": cannot import the rstest worker shim (is rstest installed in it?)",
                );
            } else {
                out.append(": Python ");
                out.append(write_version(p.version).as_str());
                out.append(" (");
                out.append(p.implementation.as_str());
                out.append(") does not satisfy '");
                match request {
                    Some(r) => out.append(r.to_text().as_str()),
                    None => out.append(""),
                }
                out.append("'");
            }
        },
    }
    out
}

/// Tries the candidates in order and takes the first interpreter that can be used
/// and is what is asked for.
pub fn resolve_with<F: FnMut(&str) -> Option<Probe>>(
    candidates: &[String],
    request: Option<&Request>,
    probe_fn: F,
) -> (res: Result<String, String>)
    requires
        forall|s: &str|
            texts(candidates@).contains(s@) ==> #[trigger] call_requires(probe_fn, (s,)),
    ensures
        resolved::<F>(probe_fn, candidates@, asked(request), res),
{
    let ghost prober = probe_fn;
    let mut ask = probe_fn;
    let mut why: Vec<String> = Vec::new();
    let ghost mut given: Seq<Option<ProbeModel>> = Seq::empty();
    let ghost wanted = asked(request);
    let mut i: usize = 0;
    assert(texts(why@) =~= reasons(candidates@, given, wanted));
    while i < candidates.len()
        invariant
            i <= candidates.len(),
            forall|s: &str|
                texts(candidates@).contains(s@) ==> #[trigger] call_requires(ask, (s,)),
            ask == prober,
            prober == probe_fn,
            wanted == asked(request),
            given.len() == i,
            forall|j: int|
                0 <= j < given.len() ==> rejected::<F>(prober, candidates@[j]@, #[trigger] given[j], wanted),
            texts(why@) == reasons(candidates@, given, wanted),
        decreases candidates.len() - i,
    {
        assert(texts(candidates@)[i as int] == candidates@[i as int]@);
        let answer = ask(candidates[i].as_str());
        let ghost a = opt_probe(answer);
        proof {
            let s = candidates@[i as int];
            assert(answers::<F>(prober, s@, a));
        }
        let good = match &answer {
            Some(p) => !(p.version.0 < MIN_MAJOR || (p.version.0 == MIN_MAJOR && p.version.1
                < MIN_MINOR)) && p.worker_importable && match request {
                Some(r) => crate::discover::request::matches(p, r),
                None => true,
            },
            None => false,
        };
        assert(good == usable(a, wanted));
        if good {
            if let Some(p) = answer {
                let exe = p.executable;
                proof {
                    let all = given.push(a);
                    assert forall|j: int| 0 <= j < all.len() - 1 implies rejected::<F>(
                        prober,
                        candidates@[j]@,
                        #[trigger] all[j],
                        wanted,
                    ) by {
                        assert(all[j] == given[j]);
                    }
                    assert(resolved_with::<F>(prober, candidates@, wanted, all, Ok(exe)));
                }
                return Ok(exe);
            }
        } else {
            why.push(explain_rejection(candidates[i].as_str(), &answer, request));
            proof {
                let before = given;
                given = given.push(a);
                assert(reasons(candidates@, given, wanted) =~= reasons(
                    candidates@,
                    before,
                    wanted,
                ).push(reason(candidates@[i as int]@, a, wanted)));
                assert forall|j: int| 0 <= j < given.len() implies rejected::<F>(
                    prober,
                    candidates@[j]@,
                    #[trigger] given[j],
                    wanted,
                ) by {
                    if j < before.len() {
                        assert(given[j] == before[j]);
                    }
                }
            }
        }
        i += 1;
    }
    let mut out = match request {
        Some(r) => {
            let mut s = String::from_str("No interpreter satisfied '");
            s.append(r.to_text().as_str());
            s.append("'. Tried:");
            s
        },
        None => String::from_str("no usable Python interpreter found. Tried:"),
    };
    out.append("\n");
    out.append(join(why.as_slice(), "\n").as_str());
    out.append("\n\nPass one explicitly with --python PATH-OR-VERSION.");
    assert(resolved_with::<F>(prober, candidates@, wanted, given, Err(out)));
    Err(out)
}

/// Whether a result is what a version that was pinned in a file gives: the active
/// environment where it can be used, whatever its version, and else the first
/// candidate that is what is asked for.
pub open spec fn resolved_pin<F: FnMut(&str) -> Option<Probe>>(
    prober: F,
    active: Option<Seq<char>>,
    candidates: Seq<String>,
    request: RequestModel,
    res: Result<String, String>,
) -> bool {
    match active {
        Some(py) => resolved_active::<F>(prober, py, candidates, request, res),
        None => resolved::<F>(prober, candidates, Some(request), res),
    }
}

/// Whether a result is what a pinned version gives where an environment is active.
pub open spec fn resolved_active<F: FnMut(&str) -> Option<Probe>>(
    prober: F,
    active: Seq<char>,
    candidates: Seq<String>,
    request: RequestModel,
    res: Result<String, String>,
) -> bool {
    exists|given: Seq<Option<ProbeModel>>| #[trigger]
        pinned_with::<F>(prober, active, given, candidates, request, res)
}

/// Whether a result is what a pinned version gives, with this one answer of the
/// active environment.
pub open spec fn pinned_with<F: FnMut(&str) -> Option<Probe>>(
    prober: F,
    active: Seq<char>,
    given: Seq<Option<ProbeModel>>,
    candidates: Seq<String>,
    request: RequestModel,
    res: Result<String, String>,
) -> bool {
    given.len() == 1 && answers::<F>(prober, active, given[0]) && if usable(given[0], None) {
        res is Ok && res.unwrap()@ == given[0].unwrap().executable
    } else {
        resolved::<F>(prober, candidates, Some(request), res)
    }
}

/// Finds an interpreter for a version that was pinned in a file. The pin is soft:
/// an active environment that can be used wins over it.
pub fn resolve_versioned<F: FnMut(&str) -> Option<Probe> + Copy>(
    active: Option<String>,
    candidates: &[String],
    request: &Request,
    probe_fn: F,
) -> (res: Result<String, String>)
    requires
        forall|s: &str|
            (crate::text::opt_text(active) == Some(s@) || texts(candidates@).contains(s@))
                ==> #[trigger] call_requires(probe_fn, (s,)),
    ensures
        resolved_pin::<F>(probe_fn, crate::text::opt_text(active), candidates@, request@, res),
{
    let ghost prober = probe_fn;
    if let Some(py) = active {
        let ghost name = py@;
        let mut only: Vec<String> = Vec::new();
        only.push(py);
        assert(texts(only@) =~= seq![name]);
        let first = resolve_with(only.as_slice(), None, probe_fn);
        let ghost given = choose|given: Seq<Option<ProbeModel>>| #[trigger]
            resolved_with::<F>(prober, only@, None, given, first);
        assert(resolved_with::<F>(prober, only@, None, given, first));
        match first {
            Ok(p) => {
                assert(pinned_with::<F>(prober, name, given, candidates@, request@, Ok(p)));
                return Ok(p);
            },
            Err(_) => {
                let res = resolve_with(candidates, Some(request), probe_fn);
                proof {
                    assert(rejected::<F>(prober, only@[0]@, given[0], None));
                    assert(pinned_with::<F>(prober, name, given, candidates@, request@, res));
                }
                return res;
            },
        }
    }
    resolve_with(candidates, Some(request), probe_fn)
}

/// An argument, as a model.
pub open spec fn opt_arg(a: Option<PyArg>) -> Option<PyArgModel> {
    match a {
        Some(a) => Some(a@),
        None => None,
    }
}

/// Whether a result is what is found for what was asked: what was given explicitly
/// decides, then what was pinned in a file, and else the first that can be used.
pub open spec fn found<F: FnMut(&str) -> Option<Probe>>(
    prober: F,
    explicit: Option<PyArgModel>,
    pinned: Option<PyArgModel>,
    active: Option<Seq<char>>,
    candidates: Seq<String>,
    res: Result<String, String>,
) -> bool {
    match explicit {
        Some(PyArgModel::Path(p)) => only_path::<F>(prober, p, res),
        Some(PyArgModel::Request(r)) => resolved::<F>(prober, candidates, Some(r), res),
        None => match pinned {
            Some(PyArgModel::Path(p)) => only_path::<F>(prober, p, res),
            Some(PyArgModel::Request(r)) => resolved_pin::<F>(prober, active, candidates, r, res),
            None => resolved::<F>(prober, candidates, None, res),
        },
    }
}

/// Whether a result is what trying one path gives.
pub open spec fn only_path<F: FnMut(&str) -> Option<Probe>>(
    prober: F,
    path: Seq<char>,
    res: Result<String, String>,
) -> bool {
    exists|only: Seq<String>| #[trigger]
        resolved::<F>(prober, only, None, res) && only.len() == 1 && only[0]@ == path
}

fn resolve_path<F: FnMut(&str) -> Option<Probe>>(path: String, probe_fn: F) -> (res: Result<
    String,
    String,
>)
    requires
        forall|s: &str| s@ == path@ ==> #[trigger] call_requires(probe_fn, (s,)),
    ensures
        only_path::<F>(probe_fn, path@, res),
{
    let ghost prober = probe_fn;
    let mut only: Vec<String> = Vec::new();
    only.push(path);
    assert(texts(only@) =~= seq![path@]);
    let res = resolve_with(only.as_slice(), None, probe_fn);
    assert(only@.len() == 1 && only@[0]@ == path@);
    res
}

/// Whether an interpreter is one that may be run to find what was asked for.
pub open spec fn may_probe(
    explicit: Option<PyArgModel>,
    pinned: Option<PyArgModel>,
    active: Option<Seq<char>>,
    candidates: Seq<Seq<char>>,
    s: Seq<char>,
) -> bool {
    match explicit {
        Some(PyArgModel::Path(p)) => s == p,
        Some(PyArgModel::Request(_)) => candidates.contains(s),
        None => match pinned {
            Some(PyArgModel::Path(p)) => s == p,
            Some(PyArgModel::Request(_)) => active == Some(s) || candidates.contains(s),
            None => candidates.contains(s),
        },
    }
}

/// Finds the interpreter to run tests with.
pub fn resolve<F: FnMut(&str) -> Option<Probe> + Copy>(
    explicit: Option<PyArg>,
    pinned: Option<PyArg>,
    active: Option<String>,
    candidates: &[String],
    probe_fn: F,
) -> (res: Result<String, String>)
    requires
        forall|s: &str|
            may_probe(
                opt_arg(explicit),
                opt_arg(pinned),
                crate::text::opt_text(active),
                texts(candidates@),
                s@,
            ) ==> #[trigger] call_requires(probe_fn, (s,)),
    ensures
        found::<F>(
            probe_fn,
            opt_arg(explicit),
            opt_arg(pinned),
            crate::text::opt_text(active),
            candidates@,
            res,
        ),
{
    match explicit {
        Some(PyArg::Path(p)) => resolve_path(p, probe_fn),
        Some(PyArg::Request(r)) => resolve_with(candidates, Some(&r), probe_fn),
        None => match pinned {
            Some(PyArg::Path(p)) => resolve_path(p, probe_fn),
            Some(PyArg::Request(r)) => resolve_versioned(active, candidates, &r, probe_fn),
            None => resolve_with(candidates, None, probe_fn),
        },
    }
}

/// Whether an interpreter is the first of the candidates that can be used and is
/// what is asked for.
pub open spec fn first_usable<F: FnMut(&str) -> Option<Probe>>(
    prober: F,
    candidates: Seq<String>,
    request: Option<RequestModel>,
    exe: Seq<char>,
    i: int,
    answer: ProbeModel,
) -> bool {
    &&& 0 <= i < candidates.len()
    &&& answers::<F>(prober, candidates[i]@, Some(answer))
    &&& usable(Some(answer), request)
    &&& exe == answer.executable
    &&& forall|j: int| 0 <= j < i ==> turned_down::<F>(prober, #[trigger] candidates[j]@, request)
}

/// Whether a candidate gave an answer that rules it out.
pub open spec fn turned_down<F: FnMut(&str) -> Option<Probe>>(
    prober: F,
    candidate: Seq<char>,
    request: Option<RequestModel>,
) -> bool {
    exists|answer: Option<ProbeModel>| #[trigger] rejected::<F>(prober, candidate, answer, request)
}

/// An interpreter that is found can be used, is what is asked for, and every
/// candidate before it was ruled out.
pub proof fn theorem_first_usable_is_found<F: FnMut(&str) -> Option<Probe>>(
    prober: F,
    candidates: Seq<String>,
    request: Option<RequestModel>,
    exe: String,
)
    requires
        resolved::<F>(prober, candidates, request, Ok(exe)),
    ensures
        exists|i: int, answer: ProbeModel| #[trigger]
            first_usable::<F>(prober, candidates, request, exe@, i, answer),
{
    let given = choose|given: Seq<Option<ProbeModel>>| #[trigger]
        resolved_with::<F>(prober, candidates, request, given, Ok(exe));
    let i = given.len() - 1;
    assert forall|j: int| 0 <= j < i implies turned_down::<F>(prober, #[trigger] candidates[j]@, request) by {
        assert(rejected::<F>(prober, candidates[j]@, given[j], request));
    }
    assert(first_usable::<F>(prober, candidates, request, exe@, i, given.last().unwrap()));
}

/// What is asked for explicitly is never replaced: a path is the only interpreter
/// that is tried, and one that is found for a request satisfies it.
pub proof fn theorem_explicit_decides<F: FnMut(&str) -> Option<Probe>>(
    prober: F,
    explicit: PyArgModel,
    pinned: Option<PyArgModel>,
    active: Option<Seq<char>>,
    candidates: Seq<String>,
    exe: String,
)
    requires
        found::<F>(prober, Some(explicit), pinned, active, candidates, Ok(exe)),
    ensures
        match explicit {
            PyArgModel::Path(path) => exists|answer: ProbeModel| #[trigger]
                answers::<F>(prober, path, Some(answer)) && usable(Some(answer), None) && exe@
                    == answer.executable,
            PyArgModel::Request(r) => exists|i: int, answer: ProbeModel| #[trigger]
                first_usable::<F>(prober, candidates, Some(r), exe@, i, answer) && satisfies(answer, r),
        },
{
    match explicit {
        PyArgModel::Path(path) => {
            let only = choose|only: Seq<String>| #[trigger]
                resolved::<F>(prober, only, None, Ok(exe)) && only.len() == 1 && only[0]@ == path;
            theorem_first_usable_is_found::<F>(prober, only, None, exe);
            let (i, answer) = choose|i: int, answer: ProbeModel| #[trigger]
                first_usable::<F>(prober, only, None, exe@, i, answer);
            assert(answers::<F>(prober, path, Some(answer)));
        },
        PyArgModel::Request(r) => {
            theorem_first_usable_is_found::<F>(prober, candidates, Some(r), exe);
        },
    }
}

/// Interpreters from version three point nine on can be used.
pub proof fn theorem_oldest_version(p: ProbeModel)
    ensures
        too_old(p) <==> p.version.0 * 256 + p.version.1 < 3 * 256 + 9,
{
}

/// An interpreter is used where it runs, is not too old, can run tests, and is what is asked
/// for.
pub proof fn theorem_usable_interpreters(p: ProbeModel, r: RequestModel)
    ensures
        !usable(None, None) && !usable(None, Some(r)),
        usable(Some(p), None) <==> p.version.0 * 256 + p.version.1 >= 777 && p.worker_importable,
        usable(Some(p), Some(r)) <==> usable(Some(p), None) && satisfies(p, r),
{
}

/// Of what is told about an interpreter that is not used, the first that holds is: that it
/// does not run, that it is too old, that it cannot run tests, and else that it is not what
/// was asked for.
pub proof fn theorem_why_an_interpreter_is_not_used(
    candidate: Seq<char>,
    p: ProbeModel,
    r: RequestModel,
)
    ensures
        reason(candidate, None, Some(r)) == "  "@ + candidate
            + ": not runnable as a Python interpreter"@,
        p.version.0 * 256 + p.version.1 < 777 ==> reason(candidate, Some(p), Some(r)) == "  "@
            + candidate + ": Python "@ + version_text(p.version)
            + " is older than the required "@ + decimal(3) + "."@ + decimal(9),
        p.version.0 * 256 + p.version.1 >= 777 && !p.worker_importable ==> reason(
            candidate,
            Some(p),
            Some(r),
        ) == "  "@ + candidate
            + ": cannot import the rstest worker shim (is rstest installed in it?)"@,
        p.version.0 * 256 + p.version.1 >= 777 && p.worker_importable ==> reason(
            candidate,
            Some(p),
            Some(r),
        ) == "  "@ + candidate + ": Python "@ + version_text(p.version) + " ("@ + p.implementation
            + ") does not satisfy '"@ + request_text(r) + "'"@,
{
}

/// What is pinned counts only where nothing is asked for, and then a path alone; a version
/// that is pinned gives way to an active interpreter that can be used at all.
pub proof fn theorem_what_is_pinned_gives_way<F: FnMut(&str) -> Option<Probe>>(
    prober: F,
    active: Option<Seq<char>>,
    candidates: Seq<String>,
    r: RequestModel,
    path: Seq<char>,
    res: Result<String, String>,
)
    ensures
        found::<F>(prober, None, Some(PyArgModel::Path(path)), active, candidates, res)
            <==> only_path::<F>(prober, path, res),
        found::<F>(prober, None, None, active, candidates, res) <==> resolved::<F>(
            prober,
            candidates,
            None,
            res,
        ),
        found::<F>(prober, None, Some(PyArgModel::Request(r)), None, candidates, res)
            <==> resolved::<F>(prober, candidates, Some(r), res),
        found::<F>(prober, Some(PyArgModel::Request(r)), None, active, candidates, res)
            <==> resolved::<F>(prober, candidates, Some(r), res),
{
}

/// Where no interpreter is used, each that was tried is told of, with the reason.
pub proof fn theorem_each_interpreter_that_was_tried_is_told_of(
    candidates: Seq<String>,
    given: Seq<Option<ProbeModel>>,
    r: RequestModel,
    i: int,
)
    ensures
        reasons(candidates, given, Some(r)).len() == given.len(),
        0 <= i < given.len() ==> reasons(candidates, given, Some(r))[i] == reason(
            candidates[i]@,
            given[i],
            Some(r),
        ),
        failure_text(candidates, given, None) == "no usable Python interpreter found. Tried:"@
            + "\n"@ + joined(reasons(candidates, given, None), "\n"@)
            + "\n\nPass one explicitly with --python PATH-OR-VERSION."@,
        failure_text(candidates, given, Some(r)) == "No interpreter satisfied '"@ + request_text(r)
            + "'. Tried:"@ + "\n"@ + joined(reasons(candidates, given, Some(r)), "\n"@)
            + "\n\nPass one explicitly with --python PATH-OR-VERSION."@,
{
}

} // verus!
