//! Which tests a run is about.

use crate::numbers::{dec_len, decimal};
use crate::text::{clone_texts, opt_text, starts, starts_with, str_eq, texts};
use vstd::prelude::*;

verus! {

broadcast use {crate::text::lemma_texts_push, crate::text::lemma_texts_add};

/// The arguments that name files or directories, given which of them exist.
pub open spec fn paths_in(args: Seq<Seq<char>>, existing: Seq<bool>) -> Seq<Seq<char>>
    decreases args.len(),
{
    if args.len() == 0 {
        Seq::empty()
    } else {
        let before = paths_in(args.drop_last(), existing.drop_last());
        if !starts(args.last(), "-"@) && existing.last() {
            before.push(args.last())
        } else {
            before
        }
    }
}

/// The arguments that name no file and no directory.
pub open spec fn others_in(args: Seq<Seq<char>>, existing: Seq<bool>) -> Seq<Seq<char>>
    decreases args.len(),
{
    if args.len() == 0 {
        Seq::empty()
    } else {
        let before = others_in(args.drop_last(), existing.drop_last());
        if starts(args.last(), "-"@) || !existing.last() {
            before.push(args.last())
        } else {
            before
        }
    }
}

/// Parts the arguments into those that name files or directories and the others,
/// given which of them exist.
pub fn part_args(args: &[String], existing: &[bool]) -> (res: (Vec<String>, Vec<String>))
    requires
        args@.len() == existing@.len(),
    ensures
        texts(res.0@) == paths_in(texts(args@), existing@),
        texts(res.1@) == others_in(texts(args@), existing@),
{
    let ghost all = texts(args@);
    let mut paths: Vec<String> = Vec::new();
    let mut others: Vec<String> = Vec::new();
    let mut i: usize = 0;
    assert(texts(paths@) =~= paths_in(all.take(0), existing@.take(0)));
    assert(texts(others@) =~= others_in(all.take(0), existing@.take(0)));
    while i < args.len()
        invariant
            i <= args.len(),
            args@.len() == existing@.len(),
            all == texts(args@),
            texts(paths@) == paths_in(all.take(i as int), existing@.take(i as int)),
            texts(others@) == others_in(all.take(i as int), existing@.take(i as int)),
        decreases args.len() - i,
    {
        proof {
            assert(all.take(i + 1).drop_last() =~= all.take(i as int));
            assert(all.take(i + 1).last() == args@[i as int]@);
            assert(existing@.take(i + 1).drop_last() =~= existing@.take(i as int));
            assert(existing@.take(i + 1).last() == existing@[i as int]);
        }
        if !starts_with(args[i].as_str(), "-") && existing[i] {
            paths.push(args[i].clone());
        } else {
            others.push(args[i].clone());
        }
        i += 1;
    }
    assert(all.take(args.len() as int) =~= all);
    assert(existing@.take(args.len() as int) =~= existing@);
    (paths, others)
}

/// Every argument is in one of the two parts.
pub proof fn theorem_parts_keep_every_argument(args: Seq<Seq<char>>, existing: Seq<bool>)
    requires
        args.len() == existing.len(),
    ensures
        paths_in(args, existing).to_multiset().add(others_in(args, existing).to_multiset())
            == args.to_multiset(),
    decreases args.len(),
{
    broadcast use vstd::seq_lib::group_to_multiset_ensures;

    if args.len() == 0 {
        assert(paths_in(args, existing).to_multiset().add(
            others_in(args, existing).to_multiset(),
        ) =~= args.to_multiset());
    } else {
        theorem_parts_keep_every_argument(args.drop_last(), existing.drop_last());
        assert(args =~= args.drop_last().push(args.last()));
        assert(paths_in(args, existing).to_multiset().add(
            others_in(args, existing).to_multiset(),
        ) =~= args.to_multiset());
    }
}

/// Whether a run is one of several projects: it is not one of them itself, no path is
/// named, the directory has no configuration of its own, and enough projects are
/// found below it: one where they are listed, else two.
pub fn is_monorepo(
    inside_project: bool,
    paths_named: bool,
    configured: bool,
    projects: usize,
    listed: bool,
) -> (res: bool)
    ensures
        res == holds_projects(inside_project, paths_named, configured, projects, listed),
{
    let threshold: usize = if listed { 1 } else { 2 };
    !inside_project && !paths_named && !configured && projects >= threshold
}

/// What changes are looked for against, where only their tests are to run.
pub open spec fn revision_for(changed: Option<Seq<char>>, strict: bool) -> Option<Seq<char>> {
    match changed {
        Some(r) => Some(r),
        None => if strict {
            Some("HEAD"@)
        } else {
            None
        },
    }
}

/// Decides what changes are looked for against.
pub fn effective_changed(changed: &Option<String>, strict: bool) -> (res: Option<String>)
    ensures
        opt_text(res) == revision_for(opt_text(*changed), strict),
{
    match changed {
        Some(r) => Some(r.clone()),
        None => if strict {
            Some("HEAD".to_owned())
        } else {
            None
        },
    }
}

/// The revision to compare with; none for the state of the last commit.
pub fn diff_base(rev: &str) -> (res: Option<String>)
    ensures
        opt_text(res) == base_of(rev@),
{
    if str_eq(rev, "HEAD") {
        None
    } else {
        Some(rev.to_owned())
    }
}

/// Which tests changes affect.
pub enum Affected {
    /// All of them, for some reason.
    FullRun(String),
    Tests(Vec<String>),
}

/// What follows from which tests are affected.
pub enum Step {
    /// To run with these arguments, and to say something.
    Run(String, Vec<String>),
    /// To end with a code, and to print something.
    Stop(String, i32),
}

/// What is said where all tests run though something was to be left out.
pub open spec fn full_run_text(reason: Seq<char>) -> Seq<char> {
    "rstest: --changed falling back to full run ("@ + reason + ")"@
}

/// What is printed where no test is affected.
pub open spec fn none_affected_text(changes: usize) -> Seq<char> {
    "rstest: no tests affected by "@ + decimal(changes as nat) + " changed file(s)"@
}

/// What is said where some tests are affected.
pub open spec fn some_affected_text(changes: usize, tests: nat) -> Seq<char> {
    "rstest: "@ + decimal(changes as nat) + " changed file(s) -> "@ + decimal(tests)
        + " affected test target(s)"@
}

/// Whether a step follows from which tests are affected by so many changed files.
pub open spec fn follows(
    step: Step,
    affected: Affected,
    changes: usize,
    strict: bool,
    args: Seq<Seq<char>>,
    existing: Seq<bool>,
) -> bool {
    match (affected, step) {
        (Affected::FullRun(r), Step::Run(t, a)) => t@ == full_run_text(r@) && texts(a@) == args,
        (Affected::Tests(v), Step::Stop(t, code)) => v@.len() == 0 && t@ == none_affected_text(
            changes,
        ) && code == (if strict {
            5int
        } else {
            0
        }),
        (Affected::Tests(v), Step::Run(t, a)) => v@.len() > 0 && t@ == some_affected_text(
            changes,
            v@.len(),
        ) && texts(a@) == texts(v@) + others_in(args, existing),
        _ => false,
    }
}

/// Goes on with the tests that so many changed files affect: they take the place of
/// the paths among the arguments. Where there are none, the run ends, and its code
/// tells that from success where that matters.
pub fn after_changes(
    affected: Affected,
    changes: usize,
    strict: bool,
    args: &[String],
    existing: &[bool],
) -> (res: Step)
    requires
        args@.len() == existing@.len(),
    ensures
        follows(res, affected, changes, strict, texts(args@), existing@),
{
    match affected {
        Affected::FullRun(reason) => {
            let mut text = String::from_str("rstest: --changed falling back to full run (");
            text.append(reason.as_str());
            text.append(")");
            Step::Run(text, clone_texts(args))
        },
        Affected::Tests(tests) => {
            if tests.len() == 0 {
                let mut text = String::from_str("rstest: no tests affected by ");
                text.append(dec_len(changes).as_str());
                text.append(" changed file(s)");
                return Step::Stop(
                    text,
                    if strict {
                        5
                    } else {
                        0
                    },
                );
            }
            let mut text = String::from_str("rstest: ");
            text.append(dec_len(changes).as_str());
            text.append(" changed file(s) -> ");
            text.append(dec_len(tests.len()).as_str());
            text.append(" affected test target(s)");
            let mut selected = clone_texts(tests.as_slice());
            let (_, mut others) = part_args(args, existing);
            selected.append(&mut others);
            Step::Run(text, selected)
        },
    }
}

/// An argument is a path just where it does not begin with a dash and there is such a
/// file; all others are kept.
pub proof fn theorem_paths_are_files_that_exist(args: Seq<Seq<char>>, existing: Seq<bool>, i: int)
    requires
        args.len() == existing.len(),
        0 <= i < args.len(),
        args[i].len() > 0,
    ensures
        args[i][0] != '-' && existing[i] ==> paths_in(args, existing).contains(args[i]),
        args[i][0] == '-' || !existing[i] ==> others_in(args, existing).contains(args[i]),
        forall|a: Seq<char>| #[trigger]
            paths_in(args, existing).contains(a) ==> !starts(a, "-"@) && exists|k: int|
                0 <= k < args.len() && #[trigger] args[k] == a && existing[k],
    decreases args.len(),
{
    reveal_strlit("-");
    let ai = args.drop_last();
    let ei = existing.drop_last();
    let p = paths_in(args, existing);
    let o = others_in(args, existing);
    if i == args.len() - 1 {
        assert(args[i].subrange(0, 1)[0] == args[i][0]);
        assert("-"@.len() == 1);
        if args[i][0] == '-' {
            assert(args[i].subrange(0, 1) =~= "-"@);
        }
        if args[i][0] != '-' && existing[i] {
            assert(p[p.len() - 1] == args[i]);
        } else {
            assert(o[o.len() - 1] == args[i]);
        }
    } else {
        assert(ai[i] == args[i] && ei[i] == existing[i]);
        theorem_paths_are_files_that_exist(ai, ei, i);
        if args[i][0] != '-' && existing[i] {
            let k = choose|k: int|
                0 <= k < paths_in(ai, ei).len() && paths_in(ai, ei)[k] == args[i];
            assert(p[k] == args[i]);
        } else {
            let k = choose|k: int|
                0 <= k < others_in(ai, ei).len() && others_in(ai, ei)[k] == args[i];
            assert(o[k] == args[i]);
        }
    }
    lemma_paths_exist(args, existing);
}

proof fn lemma_paths_exist(args: Seq<Seq<char>>, existing: Seq<bool>)
    requires
        args.len() == existing.len(),
    ensures
        forall|a: Seq<char>| #[trigger]
            paths_in(args, existing).contains(a) ==> !starts(a, "-"@) && exists|k: int|
                0 <= k < args.len() && #[trigger] args[k] == a && existing[k],
    decreases args.len(),
{
    if args.len() > 0 {
        let ai = args.drop_last();
        let ei = existing.drop_last();
        lemma_paths_exist(ai, ei);
        let p = paths_in(args, existing);
        assert forall|a: Seq<char>| #[trigger] p.contains(a) implies !starts(a, "-"@) && exists|
            k: int,
        |
            0 <= k < args.len() && #[trigger] args[k] == a && existing[k] by {
            let q = choose|q: int| 0 <= q < p.len() && p[q] == a;
            if q < paths_in(ai, ei).len() {
                assert(paths_in(ai, ei)[q] == a);
                assert(paths_in(ai, ei).contains(a));
                let k = choose|k: int| 0 <= k < ai.len() && #[trigger] ai[k] == a && ei[k];
                assert(args[k] == a && existing[k]);
            } else {
                assert(args[args.len() - 1] == a && existing[args.len() - 1]);
            }
        }
    }
}

/// Changes are sought since the revision that was given, and since the last commit where
/// none was given and every change counts; else they are not sought.
pub proof fn theorem_revision_that_is_compared_with(rev: Seq<char>, strict: bool)
    ensures
        revision_for(Some(rev), strict) == Some(rev),
        revision_for(None, true) == Some("HEAD"@),
        revision_for(None, false) is None,
{
}

/// Where no test is affected nothing runs: the run ends with success, or with five where
/// every change counts. Affected tests run, in place of the paths that were named and with
/// all other arguments; where everything is affected the run goes on as it was asked for.
pub proof fn theorem_affected_tests_run(
    step: Step,
    affected: Affected,
    changes: usize,
    strict: bool,
    args: Seq<Seq<char>>,
    existing: Seq<bool>,
)
    requires
        follows(step, affected, changes, strict, args, existing),
        args.len() == existing.len(),
    ensures
        affected is FullRun ==> (step matches Step::Run(_, a) && texts(a@) == args),
        affected matches Affected::Tests(v) ==> v@.len() == 0 ==> (step matches Step::Stop(_, code)
            && code == (if strict {
            5int
        } else {
            0
        })),
        affected matches Affected::Tests(v) ==> v@.len() > 0 ==> (step matches Step::Run(_, a)
            && texts(a@).take(v@.len() as int) == texts(v@)),
        affected matches Affected::Tests(v) ==> v@.len() > 0 ==> (step matches Step::Run(_, a)
            && forall|i: int|
            0 <= i < args.len() && args[i].len() > 0 && args[i][0] == '-' ==> texts(a@).contains(
                #[trigger] args[i],
            )),
{
    if let Affected::Tests(v) = affected {
        if let Step::Run(_, a) = step {
            let o = others_in(args, existing);
            let all = texts(a@);
            assert(all.take(v@.len() as int) =~= texts(v@));
            assert forall|i: int|
                0 <= i < args.len() && args[i].len() > 0 && args[i][0] == '-' implies all.contains(
                #[trigger] args[i],
            ) by {
                theorem_paths_are_files_that_exist(args, existing, i);
                let k = choose|k: int| 0 <= k < o.len() && o[k] == args[i];
                assert(all[v@.len() + k] == args[i]);
            }
        }
    }
}

/// Whether a run is one of several projects.
pub open spec fn holds_projects(
    inside_project: bool,
    paths_named: bool,
    configured: bool,
    projects: usize,
    listed: bool,
) -> bool {
    !inside_project && !paths_named && !configured && projects >= (if listed {
        1int
    } else {
        2
    })
}

/// What changes are taken from, beside what is not committed.
pub open spec fn base_of(rev: Seq<char>) -> Option<Seq<char>> {
    if rev == "HEAD"@ {
        None
    } else {
        Some(rev)
    }
}

/// Projects run each by itself where two are found, or one that is listed; not inside one of
/// them, with paths, or where the root is configured itself.
pub proof fn theorem_roots_of_projects(a: bool, b: bool, n: usize, listed: bool)
    ensures
        !holds_projects(true, a, b, n, listed),
        !holds_projects(a, true, b, n, listed),
        !holds_projects(a, b, true, n, listed),
        holds_projects(false, false, false, n, false) <==> n >= 2,
        holds_projects(false, false, false, n, true) <==> n >= 1,
{
}

/// The last commit is no base: against it only what is not committed is changed.
pub proof fn theorem_bases_of_a_comparison(rev: Seq<char>)
    ensures
        base_of("HEAD"@) is None,
        rev != "HEAD"@ ==> base_of(rev) == Some(rev),
{
}

} // verus!
