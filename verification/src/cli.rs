//! Which command-line arguments the runner keeps for itself and which it
//! forwards to the test session, and what it reads from the forwarded ones.

use crate::double::{Double, TWO_HUNDREDTH};
use crate::numbers::{
    decimal, number_up_to, parse_u64, parse_usize, theorem_decimal_reads_back,
    theorem_only_digits_are_a_number,
};
use crate::sequences::{lemma_subsequence_prepend, lemma_subsequence_reflexive, subsequence};
use crate::text::{cut_at, split_once, starts, starts_with, str_eq, strip_prefix, texts};
use vstd::prelude::*;

verus! {

/// Switches of the runner: they take no value.
pub open spec fn bool_flag(s: Seq<char>) -> bool {
    ||| s == "--doctor"@
    ||| s == "--watch"@
    ||| s == "--fail-on-leak"@
    ||| s == "--reruns-only-known-flaky"@
    ||| s == "--since-green"@
    ||| s == "--incremental"@
    ||| s == "--cache-pull"@
    ||| s == "--cache-push"@
    ||| s == "--require-baseline"@
    ||| s == "--changed-strict"@
    ||| s == "-h"@
    ||| s == "--help"@
    ||| s == "-V"@
    ||| s == "--version"@
}

/// Switches of the runner: they take no value.
pub fn is_bool_flag(s: &str) -> (res: bool)
    ensures
        res == bool_flag(s@),
{
    str_eq(s, "--doctor")
        || str_eq(s, "--watch")
        || str_eq(s, "--fail-on-leak")
        || str_eq(s, "--reruns-only-known-flaky")
        || str_eq(s, "--since-green")
        || str_eq(s, "--incremental")
        || str_eq(s, "--cache-pull")
        || str_eq(s, "--cache-push")
        || str_eq(s, "--require-baseline")
        || str_eq(s, "--changed-strict")
        || str_eq(s, "-h")
        || str_eq(s, "--help")
        || str_eq(s, "-V")
        || str_eq(s, "--version")
}

/// Subcommands: recognized only as the first argument.
pub open spec fn subcommand(s: Seq<char>) -> bool {
    ||| s == "verify-vendor"@
    ||| s == "try"@
    ||| s == "migrate-check"@
    ||| s == "cache-compact"@
}

/// Subcommands: recognized only as the first argument.
pub fn is_subcommand(s: &str) -> (res: bool)
    ensures
        res == subcommand(s@),
{
    str_eq(s, "verify-vendor")
        || str_eq(s, "try")
        || str_eq(s, "migrate-check")
        || str_eq(s, "cache-compact")
}

/// Flags of the runner with an optional value, which only `=` can attach.
pub open spec fn opt_flag(s: Seq<char>) -> bool {
    ||| s == "--changed"@
    ||| s == "--shuffle"@
    ||| s == "--debug"@
}

/// Flags of the runner with an optional value, which only `=` can attach.
pub fn is_opt_flag(s: &str) -> (res: bool)
    ensures
        res == opt_flag(s@),
{
    str_eq(s, "--changed")
        || str_eq(s, "--shuffle")
        || str_eq(s, "--debug")
}

/// Flags of the runner with a value: the next argument, or joined by `=`.
pub open spec fn value_flag(s: Seq<char>) -> bool {
    ||| s == "-n"@
    ||| s == "--numprocesses"@
    ||| s == "--python"@
    ||| s == "--report-json"@
    ||| s == "--output"@
    ||| s == "--cache-remote"@
    ||| s == "--migrate-check-json"@
    ||| s == "--migrate-allow"@
    ||| s == "--durations-regress"@
    ||| s == "--only-rerun"@
    ||| s == "--cov-diff-fail-under"@
    ||| s == "--cov-diff-json"@
    ||| s == "--worker-timeout"@
    ||| s == "--timeout"@
    ||| s == "--reruns"@
    ||| s == "--doctor-json"@
    ||| s == "--quarantine"@
    ||| s == "--doctor-md"@
    ||| s == "--doctor-fail-on"@
    ||| s == "--junitxml"@
    ||| s == "--html"@
    ||| s == "--dist"@
    ||| s == "--shard"@
    ||| s == "--collect"@
    ||| s == "--keep-last"@
    ||| s == "--max-age"@
    ||| s == "--cache-compact-threshold"@
    ||| s == "--stream-json"@
}

/// Flags of the runner with a value: the next argument, or joined by `=`.
pub fn is_value_flag(s: &str) -> (res: bool)
    ensures
        res == value_flag(s@),
{
    str_eq(s, "-n")
        || str_eq(s, "--numprocesses")
        || str_eq(s, "--python")
        || str_eq(s, "--report-json")
        || str_eq(s, "--output")
        || str_eq(s, "--cache-remote")
        || str_eq(s, "--migrate-check-json")
        || str_eq(s, "--migrate-allow")
        || str_eq(s, "--durations-regress")
        || str_eq(s, "--only-rerun")
        || str_eq(s, "--cov-diff-fail-under")
        || str_eq(s, "--cov-diff-json")
        || str_eq(s, "--worker-timeout")
        || str_eq(s, "--timeout")
        || str_eq(s, "--reruns")
        || str_eq(s, "--doctor-json")
        || str_eq(s, "--quarantine")
        || str_eq(s, "--doctor-md")
        || str_eq(s, "--doctor-fail-on")
        || str_eq(s, "--junitxml")
        || str_eq(s, "--html")
        || str_eq(s, "--dist")
        || str_eq(s, "--shard")
        || str_eq(s, "--collect")
        || str_eq(s, "--keep-last")
        || str_eq(s, "--max-age")
        || str_eq(s, "--cache-compact-threshold")
        || str_eq(s, "--stream-json")
}

/// Whether the runner keeps an argument that needs no further one: a switch, a
/// flag with its value joined by `=`, an optional-value flag without a value,
/// or the attached short forms `-n4` and `-n=4`.
pub open spec fn owned_alone(s: Seq<char>) -> bool {
    ||| bool_flag(s)
    ||| opt_flag(s)
    ||| cut_at(s, '=') matches Some((head, _)) && (opt_flag(head) || value_flag(head))
    ||| starts(s, "-n"@) && s != "-n"@
}

/// Whether the runner keeps an argument that needs no further one.
pub fn owned_without_value(arg: &str) -> (res: bool)
    ensures
        res == owned_alone(arg@),
{
    if is_bool_flag(arg) || is_opt_flag(arg) || (starts_with(arg, "-n") && !str_eq(arg, "-n")) {
        return true;
    }
    match split_once(arg, '=') {
        Some((head, _)) => is_opt_flag(head.as_str()) || is_value_flag(head.as_str()),
        None => false,
    }
}

/// The arguments kept by the runner, and those forwarded to the session.
pub open spec fn routed(args: Seq<Seq<char>>) -> (Seq<Seq<char>>, Seq<Seq<char>>)
    decreases args.len(),
{
    if args.len() == 0 {
        (Seq::empty(), Seq::empty())
    } else if args[0] == "--"@ {
        (Seq::empty(), args.skip(1))
    } else if owned_alone(args[0]) {
        let (own, session) = routed(args.skip(1));
        (seq![args[0]] + own, session)
    } else if value_flag(args[0]) {
        if args.len() == 1 {
            (args, Seq::empty())
        } else {
            let (own, session) = routed(args.skip(2));
            (args.take(2) + own, session)
        }
    } else {
        let (own, session) = routed(args.skip(1));
        (own, seq![args[0]] + session)
    }
}

/// The two argument lists: the runner's own, led by its program name and a
/// leading subcommand, and the session's.
pub open spec fn split_of(args: Seq<Seq<char>>) -> (Seq<Seq<char>>, Seq<Seq<char>>) {
    if args.len() > 0 && subcommand(args[0]) {
        let (own, session) = routed(args.skip(1));
        (seq!["rstest"@, args[0]] + own, session)
    } else {
        let (own, session) = routed(args);
        (seq!["rstest"@] + own, session)
    }
}

/// Splits the arguments into the runner's own and the session's.
pub fn split_args(argv: Vec<String>) -> (res: (Vec<String>, Vec<String>))
    ensures
        (texts(res.0@), texts(res.1@)) == split_of(texts(argv@)),
{
    let ghost args = texts(argv@);
    let mut own: Vec<String> = Vec::new();
    let mut session: Vec<String> = Vec::new();
    let mut i: usize = 0;
    own.push("rstest".to_owned());
    if argv.len() > 0 && is_subcommand(argv[0].as_str()) {
        own.push(argv[0].clone());
        i = 1;
    }
    let ghost head = texts(own@);
    proof {
        assert(head =~= split_of(args).0.take(head.len() as int));
        assert(args.skip(0) =~= args);
        assert(split_of(args).0 =~= head + routed(args.skip(i as int)).0);
        assert(texts(session@) + routed(args.skip(i as int)).1 =~= routed(args.skip(i as int)).1);
    }
    while i < argv.len()
        invariant
            args == texts(argv@),
            i <= argv.len(),
            split_of(args).0 == texts(own@) + routed(args.skip(i as int)).0,
            split_of(args).1 == texts(session@) + routed(args.skip(i as int)).1,
        decreases argv.len() - i,
    {
        let ghost rest = args.skip(i as int);
        let ghost o = texts(own@);
        let ghost s = texts(session@);
        proof {
            assert(rest[0] == argv@[i as int]@);
            assert(rest.skip(1) =~= args.skip(i + 1));
            if i + 1 < argv.len() {
                assert(rest.skip(2) =~= args.skip(i + 2));
            }
        }
        let arg = argv[i].as_str();
        if str_eq(arg, "--") {
            i += 1;
            while i < argv.len()
                invariant
                    args == texts(argv@),
                    i <= argv.len(),
                    split_of(args).0 == texts(own@),
                    split_of(args).1 == texts(session@) + args.skip(i as int),
                decreases argv.len() - i,
            {
                let ghost t = texts(session@);
                session.push(argv[i].clone());
                proof {
                    assert(texts(session@) =~= t.push(args[i as int]));
                    assert(t + args.skip(i as int) =~= texts(session@) + args.skip(i + 1));
                }
                i += 1;
            }
            assert(texts(session@) + args.skip(i as int) =~= texts(session@));
            return (own, session);
        } else if owned_without_value(arg) {
            own.push(argv[i].clone());
            assert(o + (seq![rest[0]] + routed(rest.skip(1)).0) =~= texts(own@) + routed(
                rest.skip(1),
            ).0);
            i += 1;
        } else if is_value_flag(arg) {
            own.push(argv[i].clone());
            if i + 1 < argv.len() {
                own.push(argv[i + 1].clone());
                assert(o + (rest.take(2) + routed(rest.skip(2)).0) =~= texts(own@) + routed(
                    rest.skip(2),
                ).0);
                i += 2;
            } else {
                proof {
                    assert(args.skip(i + 1) =~= Seq::empty());
                    assert(o + rest =~= texts(own@) + Seq::empty());
                }
                i += 1;
            }
        } else {
            session.push(argv[i].clone());
            assert(s + (seq![rest[0]] + routed(rest.skip(1)).1) =~= texts(session@) + routed(
                rest.skip(1),
            ).1);
            i += 1;
        }
    }
    proof {
        assert(args.skip(i as int) =~= Seq::empty());
        assert(texts(own@) + Seq::empty() =~= texts(own@));
        assert(texts(session@) + Seq::empty() =~= texts(session@));
    }
    (own, session)
}

/// The failure limit that the first `i` arguments set.
pub open spec fn limit_after(args: Seq<Seq<char>>, i: int) -> Option<nat>
    decreases i,
{
    if i <= 0 {
        None
    } else {
        let a = args[i - 1];
        let given = if a == "-x"@ || a == "--exitfirst"@ {
            Some(1nat)
        } else if a == "--maxfail"@ {
            if i < args.len() {
                number_up_to(args[i], u64::MAX as nat)
            } else {
                None
            }
        } else if starts(a, "--maxfail="@) {
            number_up_to(a.skip("--maxfail="@.len() as int), u64::MAX as nat)
        } else {
            None
        };
        match given {
            Some(n) => Some(n),
            None => limit_after(args, i - 1),
        }
    }
}

/// Reads `-x` and `--maxfail` from the session's arguments. The last one that
/// names a number wins; zero means no limit.
pub fn parse_maxfail(args: &[String]) -> (res: Option<u64>)
    ensures
        is_limit(res, limit_after(texts(args@), args@.len() as int)),
{
    let ghost all = texts(args@);
    let mut limit: Option<u64> = None;
    let mut i: usize = 0;
    while i < args.len()
        invariant
            all == texts(args@),
            i <= args.len(),
            match limit {
                Some(n) => limit_after(all, i as int) == Some(n as nat),
                None => limit_after(all, i as int) is None,
            },
        decreases args.len() - i,
    {
        let a = args[i].as_str();
        assert(all[i as int] == a@);
        if str_eq(a, "-x") || str_eq(a, "--exitfirst") {
            limit = Some(1);
        } else if str_eq(a, "--maxfail") {
            if i + 1 < args.len() {
                assert(all[i + 1] == args@[i + 1]@);
                if let Some(n) = parse_u64(args[i + 1].as_str()) {
                    limit = Some(n);
                }
            }
        } else if let Some(rest) = strip_prefix(a, "--maxfail=") {
            if let Some(n) = parse_u64(rest.as_str()) {
                limit = Some(n);
            }
        }
        i += 1;
    }
    match limit {
        Some(n) => if n > 0 {
            Some(n)
        } else {
            None
        },
        None => None,
    }
}

/// The number of slowest tests that the first `i` arguments ask for.
pub open spec fn count_after(args: Seq<Seq<char>>, i: int) -> Option<nat>
    decreases i,
{
    if i <= 0 {
        None
    } else {
        let a = args[i - 1];
        let given = if a == "--durations"@ {
            if i < args.len() {
                number_up_to(args[i], usize::MAX as nat)
            } else {
                None
            }
        } else if a != "--durations-min"@ && starts(a, "--durations="@) {
            number_up_to(a.skip("--durations="@.len() as int), usize::MAX as nat)
        } else {
            None
        };
        match given {
            Some(n) => Some(n),
            None => count_after(args, i - 1),
        }
    }
}

/// The texts that the first `i` arguments give as the shortest time to show,
/// in order.
pub open spec fn minima_after(args: Seq<Seq<char>>, i: int) -> Seq<Seq<char>>
    decreases i,
{
    if i <= 0 {
        Seq::empty()
    } else {
        let a = args[i - 1];
        let before = minima_after(args, i - 1);
        if a == "--durations-min"@ {
            if i < args.len() {
                before.push(args[i])
            } else {
                before
            }
        } else if a != "--durations"@ && starts(a, "--durations-min="@) {
            before.push(a.skip("--durations-min="@.len() as int))
        } else {
            before
        }
    }
}

/// The shortest time to show where no other is given: 0.005 s.
pub open spec fn shortest_shown() -> Double {
    Double { bits: TWO_HUNDREDTH }
}

/// Whether `number` may read a text so.
pub open spec fn reads_as<F: Fn(&str) -> Option<Double>>(
    number: F,
    s: Seq<char>,
    r: Option<Double>,
) -> bool {
    exists|t: &str| t@ == s && #[trigger] call_ensures(number, (t,), r)
}

/// Whether a number is the shortest time to show that some texts give: the last that
/// `number` reads, or 0.005 where it reads none.
pub open spec fn shortest_given<F: Fn(&str) -> Option<Double>>(
    number: F,
    given: Seq<Seq<char>>,
    min: Double,
) -> bool
    decreases given.len(),
{
    if given.len() == 0 {
        min == shortest_shown()
    } else {
        reads_as(number, given.last(), Some(min)) || (reads_as(number, given.last(), None)
            && shortest_given(number, given.drop_last(), min))
    }
}

/// Reads `--durations` and `--durations-min` from the session's arguments: how
/// many slowest tests to show, and the shortest time to show. `number` reads a time;
/// the last that it reads counts. Without a count there is nothing to show.
pub fn parse_durations<F: Fn(&str) -> Option<Double>>(args: &[String], number: &F) -> (res: Option<
    (usize, Double),
>)
    requires
        forall|s: &str|
            minima_after(texts(args@), args@.len() as int).contains(s@) ==> #[trigger] call_requires(
                *number,
                (s,),
            ),
    ensures
        match count_after(texts(args@), args@.len() as int) {
            Some(n) => res matches Some((m, min)) && m == n && shortest_given(
                *number,
                minima_after(texts(args@), args@.len() as int),
                min,
            ),
            None => res is None,
        },
{
    let (n, minima) = match duration_args(args) {
        Some(given) => given,
        None => {
            return None;
        },
    };
    let ghost all = texts(minima@);
    let mut min = Double { bits: TWO_HUNDREDTH };
    let mut i: usize = 0;
    assert(all.take(0) =~= Seq::empty());
    while i < minima.len()
        invariant
            i <= minima.len(),
            all == texts(minima@),
            forall|s: &str| all.contains(s@) ==> #[trigger] call_requires(*number, (s,)),
            shortest_given(*number, all.take(i as int), min),
        decreases minima.len() - i,
    {
        proof {
            assert(all[i as int] == minima@[i as int]@);
            assert(all.take(i + 1).drop_last() =~= all.take(i as int));
            assert(all.take(i + 1).last() == all[i as int]);
        }
        let read = number(minima[i].as_str());
        assert(reads_as(*number, all[i as int], read));
        if let Some(m) = read {
            min = m;
        }
        i += 1;
    }
    assert(all.take(i as int) =~= all);
    Some((n, min))
}

/// How many slowest tests the arguments ask for, and the texts that they give as the
/// shortest time to show.
fn duration_args(args: &[String]) -> (res: Option<(usize, Vec<String>)>)
    ensures
        match count_after(texts(args@), args@.len() as int) {
            Some(n) => res matches Some((m, minima)) && m == n && texts(minima@) == minima_after(
                texts(args@),
                args@.len() as int,
            ),
            None => res is None,
        },
{
    let ghost all = texts(args@);
    let mut count: Option<usize> = None;
    let mut minima: Vec<String> = Vec::new();
    let mut i: usize = 0;
    assert(texts(minima@) =~= Seq::empty());
    while i < args.len()
        invariant
            all == texts(args@),
            i <= args.len(),
            match count {
                Some(n) => count_after(all, i as int) == Some(n as nat),
                None => count_after(all, i as int) is None,
            },
            texts(minima@) == minima_after(all, i as int),
        decreases args.len() - i,
    {
        let a = args[i].as_str();
        let ghost before = texts(minima@);
        assert(all[i as int] == a@);
        if i + 1 < args.len() {
            assert(all[i + 1] == args@[i + 1]@);
        }
        if str_eq(a, "--durations") {
            if i + 1 < args.len() {
                if let Some(n) = parse_usize(args[i + 1].as_str()) {
                    count = Some(n);
                }
            }
            proof {
                reveal_strlit("--durations");
                reveal_strlit("--durations-min");
            }
        } else if str_eq(a, "--durations-min") {
            if i + 1 < args.len() {
                minima.push(args[i + 1].clone());
                assert(texts(minima@) =~= before.push(all[i + 1]));
            }
        } else {
            if let Some(rest) = strip_prefix(a, "--durations=") {
                if let Some(n) = parse_usize(rest.as_str()) {
                    count = Some(n);
                }
            }
            if let Some(rest) = strip_prefix(a, "--durations-min=") {
                minima.push(rest);
                assert(texts(minima@) =~= before.push(rest@));
            }
        }
        i += 1;
    }
    match count {
        Some(n) => Some((n, minima)),
        None => None,
    }
}

/// Session flags that need the terminal, or a single session in order.
pub open spec fn interactive_flag(s: Seq<char>) -> bool {
    ||| s == "--collect-only"@
    ||| s == "--co"@
    ||| s == "-s"@
    ||| s == "--capture=no"@
    ||| s == "--pdb"@
    ||| s == "--trace"@
    ||| s == "--sw"@
    ||| s == "--stepwise"@
    ||| s == "--sw-skip"@
    ||| s == "--stepwise-skip"@
    ||| s == "--sw-reset"@
    ||| s == "--stepwise-reset"@
}

/// Session flags that need the terminal, or a single session in order.
pub fn is_interactive_flag(s: &str) -> (res: bool)
    ensures
        res == interactive_flag(s@),
{
    str_eq(s, "--collect-only")
        || str_eq(s, "--co")
        || str_eq(s, "-s")
        || str_eq(s, "--capture=no")
        || str_eq(s, "--pdb")
        || str_eq(s, "--trace")
        || str_eq(s, "--sw")
        || str_eq(s, "--stepwise")
        || str_eq(s, "--sw-skip")
        || str_eq(s, "--stepwise-skip")
        || str_eq(s, "--sw-reset")
        || str_eq(s, "--stepwise-reset")
}

/// Whether a session needs the terminal, or has to run in order.
pub open spec fn needs_terminal(args: Seq<Seq<char>>) -> bool {
    exists|i: int|
        0 <= i < args.len() && (interactive_flag(#[trigger] args[i]) || starts(
            args[i],
            "--capture="@,
        ))
}

/// Whether the session has to run in one worker with the terminal handed
/// through.
pub fn needs_passthrough_io(session_args: &[String]) -> (res: bool)
    ensures
        res == needs_terminal(texts(session_args@)),
{
    let ghost all = texts(session_args@);
    let mut i: usize = 0;
    while i < session_args.len()
        invariant
            all == texts(session_args@),
            i <= session_args.len(),
            forall|j: int|
                0 <= j < i ==> !(interactive_flag(#[trigger] all[j]) || starts(
                    all[j],
                    "--capture="@,
                )),
        decreases session_args.len() - i,
    {
        let a = session_args[i].as_str();
        assert(all[i as int] == a@);
        if is_interactive_flag(a) || starts_with(a, "--capture=") {
            return true;
        }
        i += 1;
    }
    false
}

/// Whether the session only collects.
pub fn is_collect_only(session_args: &[String]) -> (res: bool)
    ensures
        res == only_collects(texts(session_args@)),
{
    crate::text::contains_text(session_args, "--collect-only") || crate::text::contains_text(
        session_args,
        "--co",
    )
}

/// Nothing is lost and nothing is invented: the kept and the forwarded
/// arguments are those given, but for the `--` that ends the runner's own.
pub proof fn theorem_split_keeps_every_argument(args: Seq<Seq<char>>)
    ensures
        ({
            let (own, session) = routed(args);
            let kept = own.to_multiset().add(session.to_multiset());
            kept == args.to_multiset() || kept.insert("--"@) == args.to_multiset()
        }),
    decreases args.len(),
{
    broadcast use vstd::seq_lib::group_to_multiset_ensures;

    let (own, session) = routed(args);
    let none = Seq::<Seq<char>>::empty();
    if args.len() == 0 {
        assert(own.to_multiset().add(session.to_multiset()) =~= args.to_multiset());
    } else {
        let first = args[0];
        let rest = args.skip(1);
        assert(args =~= seq![first] + rest);
        vstd::seq_lib::lemma_multiset_commutative(seq![first], rest);
        assert(seq![first] =~= none.push(first));
        assert(args.to_multiset() =~= rest.to_multiset().insert(first));
        if first == "--"@ {
            assert(own.to_multiset().add(session.to_multiset()) =~= rest.to_multiset());
        } else if owned_alone(first) {
            theorem_split_keeps_every_argument(rest);
            let (o, s) = routed(rest);
            vstd::seq_lib::lemma_multiset_commutative(seq![first], o);
            assert(own.to_multiset() =~= o.to_multiset().insert(first));
            assert(own.to_multiset().add(session.to_multiset()) =~= o.to_multiset().add(
                s.to_multiset(),
            ).insert(first));
            assert(o.to_multiset().add(s.to_multiset()).insert("--"@).insert(first) =~= o.to_multiset().add(
                s.to_multiset(),
            ).insert(first).insert("--"@));
        } else if value_flag(first) {
            if args.len() == 1 {
                assert(own.to_multiset().add(session.to_multiset()) =~= args.to_multiset());
            } else {
                let tail = args.skip(2);
                theorem_split_keeps_every_argument(tail);
                let (o, s) = routed(tail);
                assert(args =~= args.take(2) + tail);
                vstd::seq_lib::lemma_multiset_commutative(args.take(2), tail);
                vstd::seq_lib::lemma_multiset_commutative(args.take(2), o);
                let two = args.take(2).to_multiset();
                assert(own.to_multiset() =~= two.add(o.to_multiset()));
                assert(args.to_multiset() =~= two.add(tail.to_multiset()));
                assert(own.to_multiset().add(session.to_multiset()) =~= two.add(
                    o.to_multiset().add(s.to_multiset()),
                ));
                assert(two.add(o.to_multiset().add(s.to_multiset())).insert("--"@) =~= two.add(
                    o.to_multiset().add(s.to_multiset()).insert("--"@),
                ));
            }
        } else {
            theorem_split_keeps_every_argument(rest);
            let (o, s) = routed(rest);
            vstd::seq_lib::lemma_multiset_commutative(seq![first], s);
            assert(session.to_multiset() =~= s.to_multiset().insert(first));
            assert(own.to_multiset().add(session.to_multiset()) =~= o.to_multiset().add(
                s.to_multiset(),
            ).insert(first));
            assert(o.to_multiset().add(s.to_multiset()).insert("--"@).insert(first) =~= o.to_multiset().add(
                s.to_multiset(),
            ).insert(first).insert("--"@));
        }
    }
}

/// The kept and the forwarded arguments stand in the order they were given.
pub proof fn theorem_split_keeps_order(args: Seq<Seq<char>>)
    ensures
        subsequence(routed(args).0, args),
        subsequence(routed(args).1, args),
    decreases args.len(),
{
    if args.len() > 0 {
        let first = args[0];
        let rest = args.skip(1);
        let none = Seq::<Seq<char>>::empty();
        assert(args =~= seq![first] + rest);
        lemma_subsequence_reflexive(rest);
        if first == "--"@ {
            lemma_subsequence_prepend(first, rest, rest);
        } else if !owned_alone(first) && value_flag(first) {
            if args.len() == 1 {
                lemma_subsequence_reflexive(args);
            } else {
                let second = args[1];
                let tail = args.skip(2);
                theorem_split_keeps_order(tail);
                assert(rest =~= seq![second] + tail);
                let (o, s) = routed(tail);
                lemma_subsequence_prepend(second, o, tail);
                lemma_subsequence_prepend(first, seq![second] + o, rest);
                assert(args.take(2) + o =~= seq![first] + (seq![second] + o));
                lemma_subsequence_prepend(second, s, tail);
                lemma_subsequence_prepend(first, s, rest);
            }
        } else {
            theorem_split_keeps_order(rest);
            lemma_subsequence_prepend(first, routed(rest).0, rest);
            lemma_subsequence_prepend(first, routed(rest).1, rest);
        }
    }
}

/// A leading `--` forwards everything after it.
pub proof fn theorem_double_dash_forwards_everything(rest: Seq<Seq<char>>)
    ensures
        split_of(seq!["--"@] + rest) == (seq!["rstest"@], rest),
{
    let args = seq!["--"@] + rest;
    assert(args[0] == "--"@);
    assert(args.skip(1) =~= rest);
    reveal_strlit("--");
    reveal_strlit("try");
    reveal_strlit("verify-vendor");
    reveal_strlit("migrate-check");
    reveal_strlit("cache-compact");
    assert("--"@.len() == 2);
    assert(seq!["rstest"@] + Seq::empty() =~= seq!["rstest"@]);
}

/// Flags of the runner with a value of their own.
proof fn lemma_value_flags_stand_alone_not(flag: Seq<char>)
    requires
        value_flag(flag),
    ensures
        !owned_alone(flag),
        flag != "--"@,
{
    reveal_strlit("-n");
    reveal_strlit("--numprocesses");
    reveal_strlit("--python");
    reveal_strlit("--report-json");
    reveal_strlit("--output");
    reveal_strlit("--cache-remote");
    reveal_strlit("--migrate-check-json");
    reveal_strlit("--migrate-allow");
    reveal_strlit("--durations-regress");
    reveal_strlit("--only-rerun");
    reveal_strlit("--cov-diff-fail-under");
    reveal_strlit("--cov-diff-json");
    reveal_strlit("--worker-timeout");
    reveal_strlit("--timeout");
    reveal_strlit("--reruns");
    reveal_strlit("--doctor-json");
    reveal_strlit("--quarantine");
    reveal_strlit("--doctor-md");
    reveal_strlit("--doctor-fail-on");
    reveal_strlit("--junitxml");
    reveal_strlit("--html");
    reveal_strlit("--dist");
    reveal_strlit("--shard");
    reveal_strlit("--collect");
    reveal_strlit("--keep-last");
    reveal_strlit("--max-age");
    reveal_strlit("--cache-compact-threshold");
    reveal_strlit("--stream-json");
    reveal_strlit("--doctor");
    reveal_strlit("--watch");
    reveal_strlit("--fail-on-leak");
    reveal_strlit("--reruns-only-known-flaky");
    reveal_strlit("--since-green");
    reveal_strlit("--incremental");
    reveal_strlit("--cache-pull");
    reveal_strlit("--cache-push");
    reveal_strlit("--require-baseline");
    reveal_strlit("--changed-strict");
    reveal_strlit("-h");
    reveal_strlit("--help");
    reveal_strlit("-V");
    reveal_strlit("--version");
    reveal_strlit("--changed");
    reveal_strlit("--shuffle");
    reveal_strlit("--debug");
    reveal_strlit("--");
    assert("-n"@.len() == 2);
    assert("--numprocesses"@.len() == 14);
    assert("--python"@.len() == 8);
    assert("--report-json"@.len() == 13);
    assert("--output"@.len() == 8);
    assert("--cache-remote"@.len() == 14);
    assert("--migrate-check-json"@.len() == 20);
    assert("--migrate-allow"@.len() == 15);
    assert("--durations-regress"@.len() == 19);
    assert("--only-rerun"@.len() == 12);
    assert("--cov-diff-fail-under"@.len() == 21);
    assert("--cov-diff-json"@.len() == 15);
    assert("--worker-timeout"@.len() == 16);
    assert("--timeout"@.len() == 9);
    assert("--reruns"@.len() == 8);
    assert("--doctor-json"@.len() == 13);
    assert("--quarantine"@.len() == 12);
    assert("--doctor-md"@.len() == 11);
    assert("--doctor-fail-on"@.len() == 16);
    assert("--junitxml"@.len() == 10);
    assert("--html"@.len() == 6);
    assert("--dist"@.len() == 6);
    assert("--shard"@.len() == 7);
    assert("--collect"@.len() == 9);
    assert("--keep-last"@.len() == 11);
    assert("--max-age"@.len() == 9);
    assert("--cache-compact-threshold"@.len() == 25);
    assert("--stream-json"@.len() == 13);
    assert("--doctor"@.len() == 8);
    assert("--watch"@.len() == 7);
    assert("--fail-on-leak"@.len() == 14);
    assert("--reruns-only-known-flaky"@.len() == 25);
    assert("--since-green"@.len() == 13);
    assert("--incremental"@.len() == 13);
    assert("--cache-pull"@.len() == 12);
    assert("--cache-push"@.len() == 12);
    assert("--require-baseline"@.len() == 18);
    assert("--changed-strict"@.len() == 16);
    assert("-h"@.len() == 2);
    assert("--help"@.len() == 6);
    assert("-V"@.len() == 2);
    assert("--version"@.len() == 9);
    assert("--changed"@.len() == 9);
    assert("--shuffle"@.len() == 9);
    assert("--debug"@.len() == 7);
    assert("--"@.len() == 2);
    assert("-n"@[1] == 'n');
    assert("-h"@[1] == 'h');
    assert("-V"@[1] == 'V');
    assert("--"@[1] == '-');
    assert("--numprocesses"@[2] == 'n');
    assert("--fail-on-leak"@[2] == 'f');
    assert("--python"@[2] == 'p');
    assert("--doctor"@[2] == 'd');
    assert("--report-json"@[2] == 'r');
    assert("--since-green"@[2] == 's');
    assert("--incremental"@[2] == 'i');
    assert("--output"@[2] == 'o');
    assert("--cache-remote"@[2] == 'c');
    assert("--only-rerun"@[2] == 'o');
    assert("--cache-pull"@[2] == 'c');
    assert("--cache-push"@[2] == 'c');
    assert("--worker-timeout"@[2] == 'w');
    assert("--changed-strict"@[2] == 'c');
    assert("--timeout"@[2] == 't');
    assert("--version"@[2] == 'v');
    assert("--changed"@[2] == 'c');
    assert("--shuffle"@[2] == 's');
    assert("--reruns"@[2] == 'r');
    assert("--doctor-json"@[2] == 'd');
    assert("--quarantine"@[2] == 'q');
    assert("--doctor-fail-on"@[2] == 'd');
    assert("--html"@[3] == 't');
    assert("--help"@[3] == 'e');
    assert("--dist"@[2] == 'd');
    assert("--help"@[2] == 'h');
    assert("--shard"@[2] == 's');
    assert("--watch"@[2] == 'w');
    assert("--debug"@[2] == 'd');
    assert("--collect"@[2] == 'c');
    assert("--collect"@[3] == 'o');
    assert("--changed"@[3] == 'h');
    assert("--max-age"@[2] == 'm');
    assert("--cache-compact-threshold"@[2] == 'c');
    assert("--reruns-only-known-flaky"@[2] == 'r');
    assert("--stream-json"@[3] == 't');
    assert("--since-green"@[3] == 'i');
    assert("--stream-json"@[2] == 's');
    reveal_strlit("-n");
    lemma_no_equals(flag);
    crate::text::lemma_pos_is(flag, '=', flag.len() as int);
    if starts(flag, "-n"@) && flag != "-n"@ {
        assert(flag.subrange(0, 2)[1] == flag[1]);
        assert("-n"@[1] == 'n');
        assert("--numprocesses"@[1] == '-');
        assert("--python"@[1] == '-');
        assert("--report-json"@[1] == '-');
        assert("--output"@[1] == '-');
        assert("--cache-remote"@[1] == '-');
        assert("--migrate-check-json"@[1] == '-');
        assert("--migrate-allow"@[1] == '-');
        assert("--durations-regress"@[1] == '-');
        assert("--only-rerun"@[1] == '-');
        assert("--cov-diff-fail-under"@[1] == '-');
        assert("--cov-diff-json"@[1] == '-');
        assert("--worker-timeout"@[1] == '-');
        assert("--timeout"@[1] == '-');
        assert("--reruns"@[1] == '-');
        assert("--doctor-json"@[1] == '-');
        assert("--quarantine"@[1] == '-');
        assert("--doctor-md"@[1] == '-');
        assert("--doctor-fail-on"@[1] == '-');
        assert("--junitxml"@[1] == '-');
        assert("--html"@[1] == '-');
        assert("--dist"@[1] == '-');
        assert("--shard"@[1] == '-');
        assert("--collect"@[1] == '-');
        assert("--keep-last"@[1] == '-');
        assert("--max-age"@[1] == '-');
        assert("--cache-compact-threshold"@[1] == '-');
        assert("--stream-json"@[1] == '-');
    }
}

proof fn lemma_no_equals(flag: Seq<char>)
    requires
        value_flag(flag),
    ensures
        forall|i: int| 0 <= i < flag.len() ==> flag[i] != '=',
{
    if flag == "-n"@ {
        reveal_strlit("-n");
        assert forall|i: int| 0 <= i < flag.len() implies flag[i] != '=' by {
            assert(flag[0] == '-');
            assert(flag[1] == 'n');
        }
    }
    if flag == "--numprocesses"@ {
        reveal_strlit("--numprocesses");
        assert forall|i: int| 0 <= i < flag.len() implies flag[i] != '=' by {
            assert(flag[0] == '-');
            assert(flag[1] == '-');
            assert(flag[2] == 'n');
            assert(flag[3] == 'u');
            assert(flag[4] == 'm');
            assert(flag[5] == 'p');
            assert(flag[6] == 'r');
            assert(flag[7] == 'o');
            assert(flag[8] == 'c');
            assert(flag[9] == 'e');
            assert(flag[10] == 's');
            assert(flag[11] == 's');
            assert(flag[12] == 'e');
            assert(flag[13] == 's');
        }
    }
    if flag == "--python"@ {
        reveal_strlit("--python");
        assert forall|i: int| 0 <= i < flag.len() implies flag[i] != '=' by {
            assert(flag[0] == '-');
            assert(flag[1] == '-');
            assert(flag[2] == 'p');
            assert(flag[3] == 'y');
            assert(flag[4] == 't');
            assert(flag[5] == 'h');
            assert(flag[6] == 'o');
            assert(flag[7] == 'n');
        }
    }
    if flag == "--report-json"@ {
        reveal_strlit("--report-json");
        assert forall|i: int| 0 <= i < flag.len() implies flag[i] != '=' by {
            assert(flag[0] == '-');
            assert(flag[1] == '-');
            assert(flag[2] == 'r');
            assert(flag[3] == 'e');
            assert(flag[4] == 'p');
            assert(flag[5] == 'o');
            assert(flag[6] == 'r');
            assert(flag[7] == 't');
            assert(flag[8] == '-');
            assert(flag[9] == 'j');
            assert(flag[10] == 's');
            assert(flag[11] == 'o');
            assert(flag[12] == 'n');
        }
    }
    if flag == "--output"@ {
        reveal_strlit("--output");
        assert forall|i: int| 0 <= i < flag.len() implies flag[i] != '=' by {
            assert(flag[0] == '-');
            assert(flag[1] == '-');
            assert(flag[2] == 'o');
            assert(flag[3] == 'u');
            assert(flag[4] == 't');
            assert(flag[5] == 'p');
            assert(flag[6] == 'u');
            assert(flag[7] == 't');
        }
    }
    if flag == "--cache-remote"@ {
        reveal_strlit("--cache-remote");
        assert forall|i: int| 0 <= i < flag.len() implies flag[i] != '=' by {
            assert(flag[0] == '-');
            assert(flag[1] == '-');
            assert(flag[2] == 'c');
            assert(flag[3] == 'a');
            assert(flag[4] == 'c');
            assert(flag[5] == 'h');
            assert(flag[6] == 'e');
            assert(flag[7] == '-');
            assert(flag[8] == 'r');
            assert(flag[9] == 'e');
            assert(flag[10] == 'm');
            assert(flag[11] == 'o');
            assert(flag[12] == 't');
            assert(flag[13] == 'e');
        }
    }
    if flag == "--migrate-check-json"@ {
        reveal_strlit("--migrate-check-json");
        assert forall|i: int| 0 <= i < flag.len() implies flag[i] != '=' by {
            assert(flag[0] == '-');
            assert(flag[1] == '-');
            assert(flag[2] == 'm');
            assert(flag[3] == 'i');
            assert(flag[4] == 'g');
            assert(flag[5] == 'r');
            assert(flag[6] == 'a');
            assert(flag[7] == 't');
            assert(flag[8] == 'e');
            assert(flag[9] == '-');
            assert(flag[10] == 'c');
            assert(flag[11] == 'h');
            assert(flag[12] == 'e');
            assert(flag[13] == 'c');
            assert(flag[14] == 'k');
            assert(flag[15] == '-');
            assert(flag[16] == 'j');
            assert(flag[17] == 's');
            assert(flag[18] == 'o');
            assert(flag[19] == 'n');
        }
    }
    if flag == "--migrate-allow"@ {
        reveal_strlit("--migrate-allow");
        assert forall|i: int| 0 <= i < flag.len() implies flag[i] != '=' by {
            assert(flag[0] == '-');
            assert(flag[1] == '-');
            assert(flag[2] == 'm');
            assert(flag[3] == 'i');
            assert(flag[4] == 'g');
            assert(flag[5] == 'r');
            assert(flag[6] == 'a');
            assert(flag[7] == 't');
            assert(flag[8] == 'e');
            assert(flag[9] == '-');
            assert(flag[10] == 'a');
            assert(flag[11] == 'l');
            assert(flag[12] == 'l');
            assert(flag[13] == 'o');
            assert(flag[14] == 'w');
        }
    }
    if flag == "--durations-regress"@ {
        reveal_strlit("--durations-regress");
        assert forall|i: int| 0 <= i < flag.len() implies flag[i] != '=' by {
            assert(flag[0] == '-');
            assert(flag[1] == '-');
            assert(flag[2] == 'd');
            assert(flag[3] == 'u');
            assert(flag[4] == 'r');
            assert(flag[5] == 'a');
            assert(flag[6] == 't');
            assert(flag[7] == 'i');
            assert(flag[8] == 'o');
            assert(flag[9] == 'n');
            assert(flag[10] == 's');
            assert(flag[11] == '-');
            assert(flag[12] == 'r');
            assert(flag[13] == 'e');
            assert(flag[14] == 'g');
            assert(flag[15] == 'r');
            assert(flag[16] == 'e');
            assert(flag[17] == 's');
            assert(flag[18] == 's');
        }
    }
    if flag == "--only-rerun"@ {
        reveal_strlit("--only-rerun");
        assert forall|i: int| 0 <= i < flag.len() implies flag[i] != '=' by {
            assert(flag[0] == '-');
            assert(flag[1] == '-');
            assert(flag[2] == 'o');
            assert(flag[3] == 'n');
            assert(flag[4] == 'l');
            assert(flag[5] == 'y');
            assert(flag[6] == '-');
            assert(flag[7] == 'r');
            assert(flag[8] == 'e');
            assert(flag[9] == 'r');
            assert(flag[10] == 'u');
            assert(flag[11] == 'n');
        }
    }
    if flag == "--cov-diff-fail-under"@ {
        reveal_strlit("--cov-diff-fail-under");
        assert forall|i: int| 0 <= i < flag.len() implies flag[i] != '=' by {
            assert(flag[0] == '-');
            assert(flag[1] == '-');
            assert(flag[2] == 'c');
            assert(flag[3] == 'o');
            assert(flag[4] == 'v');
            assert(flag[5] == '-');
            assert(flag[6] == 'd');
            assert(flag[7] == 'i');
            assert(flag[8] == 'f');
            assert(flag[9] == 'f');
            assert(flag[10] == '-');
            assert(flag[11] == 'f');
            assert(flag[12] == 'a');
            assert(flag[13] == 'i');
            assert(flag[14] == 'l');
            assert(flag[15] == '-');
            assert(flag[16] == 'u');
            assert(flag[17] == 'n');
            assert(flag[18] == 'd');
            assert(flag[19] == 'e');
            assert(flag[20] == 'r');
        }
    }
    if flag == "--cov-diff-json"@ {
        reveal_strlit("--cov-diff-json");
        assert forall|i: int| 0 <= i < flag.len() implies flag[i] != '=' by {
            assert(flag[0] == '-');
            assert(flag[1] == '-');
            assert(flag[2] == 'c');
            assert(flag[3] == 'o');
            assert(flag[4] == 'v');
            assert(flag[5] == '-');
            assert(flag[6] == 'd');
            assert(flag[7] == 'i');
            assert(flag[8] == 'f');
            assert(flag[9] == 'f');
            assert(flag[10] == '-');
            assert(flag[11] == 'j');
            assert(flag[12] == 's');
            assert(flag[13] == 'o');
            assert(flag[14] == 'n');
        }
    }
    if flag == "--worker-timeout"@ {
        reveal_strlit("--worker-timeout");
        assert forall|i: int| 0 <= i < flag.len() implies flag[i] != '=' by {
            assert(flag[0] == '-');
            assert(flag[1] == '-');
            assert(flag[2] == 'w');
            assert(flag[3] == 'o');
            assert(flag[4] == 'r');
            assert(flag[5] == 'k');
            assert(flag[6] == 'e');
            assert(flag[7] == 'r');
            assert(flag[8] == '-');
            assert(flag[9] == 't');
            assert(flag[10] == 'i');
            assert(flag[11] == 'm');
            assert(flag[12] == 'e');
            assert(flag[13] == 'o');
            assert(flag[14] == 'u');
            assert(flag[15] == 't');
        }
    }
    if flag == "--timeout"@ {
        reveal_strlit("--timeout");
        assert forall|i: int| 0 <= i < flag.len() implies flag[i] != '=' by {
            assert(flag[0] == '-');
            assert(flag[1] == '-');
            assert(flag[2] == 't');
            assert(flag[3] == 'i');
            assert(flag[4] == 'm');
            assert(flag[5] == 'e');
            assert(flag[6] == 'o');
            assert(flag[7] == 'u');
            assert(flag[8] == 't');
        }
    }
    if flag == "--reruns"@ {
        reveal_strlit("--reruns");
        assert forall|i: int| 0 <= i < flag.len() implies flag[i] != '=' by {
            assert(flag[0] == '-');
            assert(flag[1] == '-');
            assert(flag[2] == 'r');
            assert(flag[3] == 'e');
            assert(flag[4] == 'r');
            assert(flag[5] == 'u');
            assert(flag[6] == 'n');
            assert(flag[7] == 's');
        }
    }
    if flag == "--doctor-json"@ {
        reveal_strlit("--doctor-json");
        assert forall|i: int| 0 <= i < flag.len() implies flag[i] != '=' by {
            assert(flag[0] == '-');
            assert(flag[1] == '-');
            assert(flag[2] == 'd');
            assert(flag[3] == 'o');
            assert(flag[4] == 'c');
            assert(flag[5] == 't');
            assert(flag[6] == 'o');
            assert(flag[7] == 'r');
            assert(flag[8] == '-');
            assert(flag[9] == 'j');
            assert(flag[10] == 's');
            assert(flag[11] == 'o');
            assert(flag[12] == 'n');
        }
    }
    if flag == "--quarantine"@ {
        reveal_strlit("--quarantine");
        assert forall|i: int| 0 <= i < flag.len() implies flag[i] != '=' by {
            assert(flag[0] == '-');
            assert(flag[1] == '-');
            assert(flag[2] == 'q');
            assert(flag[3] == 'u');
            assert(flag[4] == 'a');
            assert(flag[5] == 'r');
            assert(flag[6] == 'a');
            assert(flag[7] == 'n');
            assert(flag[8] == 't');
            assert(flag[9] == 'i');
            assert(flag[10] == 'n');
            assert(flag[11] == 'e');
        }
    }
    if flag == "--doctor-md"@ {
        reveal_strlit("--doctor-md");
        assert forall|i: int| 0 <= i < flag.len() implies flag[i] != '=' by {
            assert(flag[0] == '-');
            assert(flag[1] == '-');
            assert(flag[2] == 'd');
            assert(flag[3] == 'o');
            assert(flag[4] == 'c');
            assert(flag[5] == 't');
            assert(flag[6] == 'o');
            assert(flag[7] == 'r');
            assert(flag[8] == '-');
            assert(flag[9] == 'm');
            assert(flag[10] == 'd');
        }
    }
    if flag == "--doctor-fail-on"@ {
        reveal_strlit("--doctor-fail-on");
        assert forall|i: int| 0 <= i < flag.len() implies flag[i] != '=' by {
            assert(flag[0] == '-');
            assert(flag[1] == '-');
            assert(flag[2] == 'd');
            assert(flag[3] == 'o');
            assert(flag[4] == 'c');
            assert(flag[5] == 't');
            assert(flag[6] == 'o');
            assert(flag[7] == 'r');
            assert(flag[8] == '-');
            assert(flag[9] == 'f');
            assert(flag[10] == 'a');
            assert(flag[11] == 'i');
            assert(flag[12] == 'l');
            assert(flag[13] == '-');
            assert(flag[14] == 'o');
            assert(flag[15] == 'n');
        }
    }
    if flag == "--junitxml"@ {
        reveal_strlit("--junitxml");
        assert forall|i: int| 0 <= i < flag.len() implies flag[i] != '=' by {
            assert(flag[0] == '-');
            assert(flag[1] == '-');
            assert(flag[2] == 'j');
            assert(flag[3] == 'u');
            assert(flag[4] == 'n');
            assert(flag[5] == 'i');
            assert(flag[6] == 't');
            assert(flag[7] == 'x');
            assert(flag[8] == 'm');
            assert(flag[9] == 'l');
        }
    }
    if flag == "--html"@ {
        reveal_strlit("--html");
        assert forall|i: int| 0 <= i < flag.len() implies flag[i] != '=' by {
            assert(flag[0] == '-');
            assert(flag[1] == '-');
            assert(flag[2] == 'h');
            assert(flag[3] == 't');
            assert(flag[4] == 'm');
            assert(flag[5] == 'l');
        }
    }
    if flag == "--dist"@ {
        reveal_strlit("--dist");
        assert forall|i: int| 0 <= i < flag.len() implies flag[i] != '=' by {
            assert(flag[0] == '-');
            assert(flag[1] == '-');
            assert(flag[2] == 'd');
            assert(flag[3] == 'i');
            assert(flag[4] == 's');
            assert(flag[5] == 't');
        }
    }
    if flag == "--shard"@ {
        reveal_strlit("--shard");
        assert forall|i: int| 0 <= i < flag.len() implies flag[i] != '=' by {
            assert(flag[0] == '-');
            assert(flag[1] == '-');
            assert(flag[2] == 's');
            assert(flag[3] == 'h');
            assert(flag[4] == 'a');
            assert(flag[5] == 'r');
            assert(flag[6] == 'd');
        }
    }
    if flag == "--collect"@ {
        reveal_strlit("--collect");
        assert forall|i: int| 0 <= i < flag.len() implies flag[i] != '=' by {
            assert(flag[0] == '-');
            assert(flag[1] == '-');
            assert(flag[2] == 'c');
            assert(flag[3] == 'o');
            assert(flag[4] == 'l');
            assert(flag[5] == 'l');
            assert(flag[6] == 'e');
            assert(flag[7] == 'c');
            assert(flag[8] == 't');
        }
    }
    if flag == "--keep-last"@ {
        reveal_strlit("--keep-last");
        assert forall|i: int| 0 <= i < flag.len() implies flag[i] != '=' by {
            assert(flag[0] == '-');
            assert(flag[1] == '-');
            assert(flag[2] == 'k');
            assert(flag[3] == 'e');
            assert(flag[4] == 'e');
            assert(flag[5] == 'p');
            assert(flag[6] == '-');
            assert(flag[7] == 'l');
            assert(flag[8] == 'a');
            assert(flag[9] == 's');
            assert(flag[10] == 't');
        }
    }
    if flag == "--max-age"@ {
        reveal_strlit("--max-age");
        assert forall|i: int| 0 <= i < flag.len() implies flag[i] != '=' by {
            assert(flag[0] == '-');
            assert(flag[1] == '-');
            assert(flag[2] == 'm');
            assert(flag[3] == 'a');
            assert(flag[4] == 'x');
            assert(flag[5] == '-');
            assert(flag[6] == 'a');
            assert(flag[7] == 'g');
            assert(flag[8] == 'e');
        }
    }
    if flag == "--cache-compact-threshold"@ {
        reveal_strlit("--cache-compact-threshold");
        assert forall|i: int| 0 <= i < flag.len() implies flag[i] != '=' by {
            assert(flag[0] == '-');
            assert(flag[1] == '-');
            assert(flag[2] == 'c');
            assert(flag[3] == 'a');
            assert(flag[4] == 'c');
            assert(flag[5] == 'h');
            assert(flag[6] == 'e');
            assert(flag[7] == '-');
            assert(flag[8] == 'c');
            assert(flag[9] == 'o');
            assert(flag[10] == 'm');
            assert(flag[11] == 'p');
            assert(flag[12] == 'a');
            assert(flag[13] == 'c');
            assert(flag[14] == 't');
            assert(flag[15] == '-');
            assert(flag[16] == 't');
            assert(flag[17] == 'h');
            assert(flag[18] == 'r');
            assert(flag[19] == 'e');
            assert(flag[20] == 's');
            assert(flag[21] == 'h');
            assert(flag[22] == 'o');
            assert(flag[23] == 'l');
            assert(flag[24] == 'd');
        }
    }
    if flag == "--stream-json"@ {
        reveal_strlit("--stream-json");
        assert forall|i: int| 0 <= i < flag.len() implies flag[i] != '=' by {
            assert(flag[0] == '-');
            assert(flag[1] == '-');
            assert(flag[2] == 's');
            assert(flag[3] == 't');
            assert(flag[4] == 'r');
            assert(flag[5] == 'e');
            assert(flag[6] == 'a');
            assert(flag[7] == 'm');
            assert(flag[8] == '-');
            assert(flag[9] == 'j');
            assert(flag[10] == 's');
            assert(flag[11] == 'o');
            assert(flag[12] == 'n');
        }
    }
}

/// A switch of the runner is kept, and what follows goes where it would go without it.
pub proof fn theorem_switches_are_kept(flag: Seq<char>, rest: Seq<Seq<char>>)
    requires
        ({
            ||| flag == "--doctor"@
            ||| flag == "--watch"@
            ||| flag == "--fail-on-leak"@
            ||| flag == "--reruns-only-known-flaky"@
            ||| flag == "--since-green"@
            ||| flag == "--incremental"@
            ||| flag == "--cache-pull"@
            ||| flag == "--cache-push"@
            ||| flag == "--require-baseline"@
            ||| flag == "--changed-strict"@
            ||| flag == "-h"@
            ||| flag == "--help"@
            ||| flag == "-V"@
            ||| flag == "--version"@
            ||| flag == "--changed"@
            ||| flag == "--shuffle"@
            ||| flag == "--debug"@
        }),
    ensures
        routed(seq![flag] + rest) == (seq![flag] + routed(rest).0, routed(rest).1),
{
    let args = seq![flag] + rest;
    assert(args[0] == flag);
    assert(args.skip(1) =~= rest);
    assert(flag != "--"@) by {
        reveal_strlit("--doctor");
        reveal_strlit("--watch");
        reveal_strlit("--fail-on-leak");
        reveal_strlit("--reruns-only-known-flaky");
        reveal_strlit("--since-green");
        reveal_strlit("--incremental");
        reveal_strlit("--cache-pull");
        reveal_strlit("--cache-push");
        reveal_strlit("--require-baseline");
        reveal_strlit("--changed-strict");
        reveal_strlit("-h");
        reveal_strlit("--help");
        reveal_strlit("-V");
        reveal_strlit("--version");
        reveal_strlit("--changed");
        reveal_strlit("--shuffle");
        reveal_strlit("--debug");
        reveal_strlit("--");
        assert("--doctor"@.len() == 8);
        assert("--watch"@.len() == 7);
        assert("--fail-on-leak"@.len() == 14);
        assert("--reruns-only-known-flaky"@.len() == 25);
        assert("--since-green"@.len() == 13);
        assert("--incremental"@.len() == 13);
        assert("--cache-pull"@.len() == 12);
        assert("--cache-push"@.len() == 12);
        assert("--require-baseline"@.len() == 18);
        assert("--changed-strict"@.len() == 16);
        assert("-h"@.len() == 2);
        assert("--help"@.len() == 6);
        assert("-V"@.len() == 2);
        assert("--version"@.len() == 9);
        assert("--changed"@.len() == 9);
        assert("--shuffle"@.len() == 9);
        assert("--debug"@.len() == 7);
        assert("--"@.len() == 2);
        assert("-h"@[1] == 'h');
        assert("--"@[1] == '-');
        assert("-V"@[1] == 'V');
    }
}

/// A flag of the runner that takes a value is kept with the argument behind it, whatever
/// that looks like, and what follows goes where it would go without them.
pub proof fn theorem_values_stay_with_their_flag(
    flag: Seq<char>,
    value: Seq<char>,
    rest: Seq<Seq<char>>,
)
    requires
        ({
            ||| flag == "-n"@
            ||| flag == "--numprocesses"@
            ||| flag == "--python"@
            ||| flag == "--report-json"@
            ||| flag == "--output"@
            ||| flag == "--cache-remote"@
            ||| flag == "--migrate-check-json"@
            ||| flag == "--migrate-allow"@
            ||| flag == "--durations-regress"@
            ||| flag == "--only-rerun"@
            ||| flag == "--cov-diff-fail-under"@
            ||| flag == "--cov-diff-json"@
            ||| flag == "--worker-timeout"@
            ||| flag == "--timeout"@
            ||| flag == "--reruns"@
            ||| flag == "--doctor-json"@
            ||| flag == "--quarantine"@
            ||| flag == "--doctor-md"@
            ||| flag == "--doctor-fail-on"@
            ||| flag == "--junitxml"@
            ||| flag == "--html"@
            ||| flag == "--dist"@
            ||| flag == "--shard"@
            ||| flag == "--collect"@
            ||| flag == "--keep-last"@
            ||| flag == "--max-age"@
            ||| flag == "--cache-compact-threshold"@
            ||| flag == "--stream-json"@
        }),
    ensures
        routed(seq![flag, value] + rest) == (seq![flag, value] + routed(rest).0, routed(rest).1),
        routed(seq![flag]) == (seq![flag], Seq::<Seq<char>>::empty()),
{
    lemma_value_flags_stand_alone_not(flag);
    let args = seq![flag, value] + rest;
    assert(args[0] == flag);
    assert(args.skip(2) =~= rest);
    assert(args.take(2) =~= seq![flag, value]);
    assert(seq![flag][0] == flag);
}

/// A value may also be joined to its flag: a flag of the runner with `=` and a value is
/// one argument that is kept.
pub proof fn theorem_joined_values_are_kept(
    flag: Seq<char>,
    value: Seq<char>,
    rest: Seq<Seq<char>>,
)
    requires
        ({
            ||| flag == "-n"@
            ||| flag == "--numprocesses"@
            ||| flag == "--python"@
            ||| flag == "--report-json"@
            ||| flag == "--output"@
            ||| flag == "--cache-remote"@
            ||| flag == "--migrate-check-json"@
            ||| flag == "--migrate-allow"@
            ||| flag == "--durations-regress"@
            ||| flag == "--only-rerun"@
            ||| flag == "--cov-diff-fail-under"@
            ||| flag == "--cov-diff-json"@
            ||| flag == "--worker-timeout"@
            ||| flag == "--timeout"@
            ||| flag == "--reruns"@
            ||| flag == "--doctor-json"@
            ||| flag == "--quarantine"@
            ||| flag == "--doctor-md"@
            ||| flag == "--doctor-fail-on"@
            ||| flag == "--junitxml"@
            ||| flag == "--html"@
            ||| flag == "--dist"@
            ||| flag == "--shard"@
            ||| flag == "--collect"@
            ||| flag == "--keep-last"@
            ||| flag == "--max-age"@
            ||| flag == "--cache-compact-threshold"@
            ||| flag == "--stream-json"@
            ||| flag == "--changed"@
            ||| flag == "--shuffle"@
            ||| flag == "--debug"@
        }),
    ensures
        routed(seq![flag + "="@ + value] + rest) == (
            seq![flag + "="@ + value] + routed(rest).0,
            routed(rest).1,
        ),
{
    let one = flag + "="@ + value;
    let args = seq![one] + rest;
    assert(args[0] == one);
    assert(args.skip(1) =~= rest);
    reveal_strlit("=");
    reveal_strlit("--");
    if flag == "--changed"@ {
        reveal_strlit("--changed");
        assert forall|i: int| 0 <= i < flag.len() implies flag[i] != '=' by {
            assert(flag[0] == '-');
            assert(flag[1] == '-');
            assert(flag[2] == 'c');
            assert(flag[3] == 'h');
            assert(flag[4] == 'a');
            assert(flag[5] == 'n');
            assert(flag[6] == 'g');
            assert(flag[7] == 'e');
            assert(flag[8] == 'd');
        }
    }
    if flag == "--shuffle"@ {
        reveal_strlit("--shuffle");
        assert forall|i: int| 0 <= i < flag.len() implies flag[i] != '=' by {
            assert(flag[0] == '-');
            assert(flag[1] == '-');
            assert(flag[2] == 's');
            assert(flag[3] == 'h');
            assert(flag[4] == 'u');
            assert(flag[5] == 'f');
            assert(flag[6] == 'f');
            assert(flag[7] == 'l');
            assert(flag[8] == 'e');
        }
    }
    if flag == "--debug"@ {
        reveal_strlit("--debug");
        assert forall|i: int| 0 <= i < flag.len() implies flag[i] != '=' by {
            assert(flag[0] == '-');
            assert(flag[1] == '-');
            assert(flag[2] == 'd');
            assert(flag[3] == 'e');
            assert(flag[4] == 'b');
            assert(flag[5] == 'u');
            assert(flag[6] == 'g');
        }
    }
    if value_flag(flag) {
        lemma_no_equals(flag);
    }
    let n = flag.len() as int;
    assert(one[n] == '=');
    assert forall|i: int| 0 <= i < n implies one[i] != '=' by {
        assert(one[i] == flag[i]);
    }
    crate::text::lemma_pos_is(one, '=', n);
    assert(one.take(n) =~= flag);
    assert(one != "--"@) by {
        if one == "--"@ {
            assert("--"@[n] == '-');
        }
    }
}

/// What is no flag goes to the session, and so does every flag that is not one of the
/// runner's.
pub proof fn theorem_everything_else_is_forwarded(a: Seq<char>, rest: Seq<Seq<char>>)
    requires
        a.len() > 0,
        a[0] != '-' || !({
            ||| a == "--"@
            ||| a == "--doctor"@
            ||| a == "--watch"@
            ||| a == "--fail-on-leak"@
            ||| a == "--reruns-only-known-flaky"@
            ||| a == "--since-green"@
            ||| a == "--incremental"@
            ||| a == "--cache-pull"@
            ||| a == "--cache-push"@
            ||| a == "--require-baseline"@
            ||| a == "--changed-strict"@
            ||| a == "-h"@
            ||| a == "--help"@
            ||| a == "-V"@
            ||| a == "--version"@
            ||| a == "--changed"@
            ||| a == "--shuffle"@
            ||| a == "--debug"@
            ||| a == "-n"@
            ||| a == "--numprocesses"@
            ||| a == "--python"@
            ||| a == "--report-json"@
            ||| a == "--output"@
            ||| a == "--cache-remote"@
            ||| a == "--migrate-check-json"@
            ||| a == "--migrate-allow"@
            ||| a == "--durations-regress"@
            ||| a == "--only-rerun"@
            ||| a == "--cov-diff-fail-under"@
            ||| a == "--cov-diff-json"@
            ||| a == "--worker-timeout"@
            ||| a == "--timeout"@
            ||| a == "--reruns"@
            ||| a == "--doctor-json"@
            ||| a == "--quarantine"@
            ||| a == "--doctor-md"@
            ||| a == "--doctor-fail-on"@
            ||| a == "--junitxml"@
            ||| a == "--html"@
            ||| a == "--dist"@
            ||| a == "--shard"@
            ||| a == "--collect"@
            ||| a == "--keep-last"@
            ||| a == "--max-age"@
            ||| a == "--cache-compact-threshold"@
            ||| a == "--stream-json"@
        }) && !a.contains('=') && !starts(a, "-n"@),
    ensures
        routed(seq![a] + rest) == (routed(rest).0, seq![a] + routed(rest).1),
{
    let args = seq![a] + rest;
    assert(args[0] == a);
    assert(args.skip(1) =~= rest);
    if a[0] != '-' {
        reveal_strlit("--");
        reveal_strlit("--doctor");
        reveal_strlit("--watch");
        reveal_strlit("--fail-on-leak");
        reveal_strlit("--reruns-only-known-flaky");
        reveal_strlit("--since-green");
        reveal_strlit("--incremental");
        reveal_strlit("--cache-pull");
        reveal_strlit("--cache-push");
        reveal_strlit("--require-baseline");
        reveal_strlit("--changed-strict");
        reveal_strlit("-h");
        reveal_strlit("--help");
        reveal_strlit("-V");
        reveal_strlit("--version");
        reveal_strlit("--changed");
        reveal_strlit("--shuffle");
        reveal_strlit("--debug");
        reveal_strlit("-n");
        reveal_strlit("--numprocesses");
        reveal_strlit("--python");
        reveal_strlit("--report-json");
        reveal_strlit("--output");
        reveal_strlit("--cache-remote");
        reveal_strlit("--migrate-check-json");
        reveal_strlit("--migrate-allow");
        reveal_strlit("--durations-regress");
        reveal_strlit("--only-rerun");
        reveal_strlit("--cov-diff-fail-under");
        reveal_strlit("--cov-diff-json");
        reveal_strlit("--worker-timeout");
        reveal_strlit("--timeout");
        reveal_strlit("--reruns");
        reveal_strlit("--doctor-json");
        reveal_strlit("--quarantine");
        reveal_strlit("--doctor-md");
        reveal_strlit("--doctor-fail-on");
        reveal_strlit("--junitxml");
        reveal_strlit("--html");
        reveal_strlit("--dist");
        reveal_strlit("--shard");
        reveal_strlit("--collect");
        reveal_strlit("--keep-last");
        reveal_strlit("--max-age");
        reveal_strlit("--cache-compact-threshold");
        reveal_strlit("--stream-json");
        assert("--"@[0] == '-');
        assert("--doctor"@[0] == '-');
        assert("--watch"@[0] == '-');
        assert("--fail-on-leak"@[0] == '-');
        assert("--reruns-only-known-flaky"@[0] == '-');
        assert("--since-green"@[0] == '-');
        assert("--incremental"@[0] == '-');
        assert("--cache-pull"@[0] == '-');
        assert("--cache-push"@[0] == '-');
        assert("--require-baseline"@[0] == '-');
        assert("--changed-strict"@[0] == '-');
        assert("-h"@[0] == '-');
        assert("--help"@[0] == '-');
        assert("-V"@[0] == '-');
        assert("--version"@[0] == '-');
        assert("--changed"@[0] == '-');
        assert("--shuffle"@[0] == '-');
        assert("--debug"@[0] == '-');
        assert("-n"@[0] == '-');
        assert("--numprocesses"@[0] == '-');
        assert("--python"@[0] == '-');
        assert("--report-json"@[0] == '-');
        assert("--output"@[0] == '-');
        assert("--cache-remote"@[0] == '-');
        assert("--migrate-check-json"@[0] == '-');
        assert("--migrate-allow"@[0] == '-');
        assert("--durations-regress"@[0] == '-');
        assert("--only-rerun"@[0] == '-');
        assert("--cov-diff-fail-under"@[0] == '-');
        assert("--cov-diff-json"@[0] == '-');
        assert("--worker-timeout"@[0] == '-');
        assert("--timeout"@[0] == '-');
        assert("--reruns"@[0] == '-');
        assert("--doctor-json"@[0] == '-');
        assert("--quarantine"@[0] == '-');
        assert("--doctor-md"@[0] == '-');
        assert("--doctor-fail-on"@[0] == '-');
        assert("--junitxml"@[0] == '-');
        assert("--html"@[0] == '-');
        assert("--dist"@[0] == '-');
        assert("--shard"@[0] == '-');
        assert("--collect"@[0] == '-');
        assert("--keep-last"@[0] == '-');
        assert("--max-age"@[0] == '-');
        assert("--cache-compact-threshold"@[0] == '-');
        assert("--stream-json"@[0] == '-');
        if starts(a, "-n"@) {
            assert(a.subrange(0, 2)[0] == a[0]);
        }
        crate::text::lemma_pos(a, '=');
        if let Some((head, tail)) = cut_at(a, '=') {
            if head.len() > 0 {
                assert(head[0] == a[0]);
            }
        }
    } else {
        crate::text::lemma_pos(a, '=');
        if crate::text::pos(a, '=') < a.len() {
            assert(a.contains(a[crate::text::pos(a, '=')]));
        }
    }
}

/// A subcommand is one only as the first argument: there it is kept.
pub proof fn theorem_subcommand_comes_first(sub: Seq<char>, rest: Seq<Seq<char>>)
    requires
        sub == "verify-vendor"@ || sub == "try"@ || sub == "migrate-check"@ || sub
            == "cache-compact"@,
    ensures
        split_of(seq![sub] + rest) == (seq!["rstest"@, sub] + routed(rest).0, routed(rest).1),
        routed(seq![sub] + rest) == (routed(rest).0, seq![sub] + routed(rest).1),
        split_of(rest).1 == routed(rest).1 || rest.len() > 0 && split_of(rest).1 == routed(
            rest.skip(1),
        ).1,
{
    let args = seq![sub] + rest;
    assert(args[0] == sub);
    assert(args.skip(1) =~= rest);
    reveal_strlit("verify-vendor");
    reveal_strlit("try");
    reveal_strlit("migrate-check");
    reveal_strlit("cache-compact");
    assert("verify-vendor"@[0] == 'v');
    assert("try"@[0] == 't');
    assert("migrate-check"@[0] == 'm');
    assert("cache-compact"@[0] == 'c');
    theorem_everything_else_is_forwarded(sub, rest);
}

/// The limit on failures is the last one that is given: one for `-x` and `--exitfirst`,
/// and a number for `--maxfail`, joined to it or behind it.
pub proof fn theorem_last_limit_counts(args: Seq<Seq<char>>, n: nat)
    requires
        n <= u64::MAX,
    ensures
        limit_after(args.push("-x"@), (args.len() + 1) as int) == Some(1nat),
        limit_after(args.push("--exitfirst"@), (args.len() + 1) as int) == Some(1nat),
        limit_after(args.push("--maxfail="@ + decimal(n)), (args.len() + 1) as int) == Some(n),
        limit_after(args.push("--maxfail"@).push(decimal(n)), (args.len() + 2) as int) == Some(n),
{
    reveal_strlit("-x");
    reveal_strlit("--exitfirst");
    reveal_strlit("--maxfail");
    reveal_strlit("--maxfail=");
    theorem_only_digits_are_a_number(decimal(n), u64::MAX as nat);
    theorem_decimal_reads_back(n);
    let d = decimal(n);
    let j = "--maxfail="@ + d;
    assert("-x"@.len() == 2 && "--maxfail"@.len() == 9 && "--exitfirst"@.len() == 11);
    assert(j[2] == 'm' && "--exitfirst"@[2] == 'e');
    assert(j.skip(10) =~= d);
    assert(j.subrange(0, 10) =~= "--maxfail="@);
    assert(j.len() > 10);
    assert(crate::text::is_digit(d[0]));
    assert("-x"@[0] == '-' && "--exitfirst"@[0] == '-' && "--maxfail"@[0] == '-'
        && "--maxfail="@[0] == '-');
    let two = args.push("--maxfail"@).push(d);
    assert(two[two.len() - 1] == d);
    assert(two[two.len() - 2] == "--maxfail"@);
    if starts(d, "--maxfail="@) {
        assert(d.subrange(0, 10)[0] == d[0]);
    }
    reveal_with_fuel(limit_after, 3);
}

/// Arguments that are none of these give no limit.
pub proof fn theorem_no_limit_is_given(args: Seq<Seq<char>>, i: int)
    requires
        0 <= i <= args.len(),
        forall|k: int|
            0 <= k < i ==> (#[trigger] args[k]) != "-x"@ && args[k] != "--exitfirst"@ && !starts(
                args[k],
                "--maxfail"@,
            ),
    ensures
        limit_after(args, i) is None,
    decreases i,
{
    if i > 0 {
        theorem_no_limit_is_given(args, i - 1);
        let a = args[i - 1];
        reveal_strlit("--maxfail");
        reveal_strlit("--maxfail=");
        if a == "--maxfail"@ {
            assert(a.subrange(0, 9) =~= "--maxfail"@);
        }
        if starts(a, "--maxfail="@) {
            assert(a.subrange(0, 9) =~= a.subrange(0, 10).take(9));
            assert("--maxfail="@.take(9) =~= "--maxfail"@);
        }
    }
}

/// How many slowest tests are shown is the last number that `--durations` is given, joined
/// to it or behind it, and the times given with `--durations-min` are all kept in order.
pub proof fn theorem_durations_are_read(args: Seq<Seq<char>>, n: nat, min: Seq<char>)
    requires
        n <= usize::MAX,
    ensures
        count_after(args.push("--durations="@ + decimal(n)), (args.len() + 1) as int) == Some(n),
        count_after(args.push("--durations"@).push(decimal(n)), (args.len() + 2) as int) == Some(n),
        minima_after(args.push("--durations-min="@ + min), (args.len() + 1) as int).last() == min,
        minima_after(args.push("--durations-min="@ + min), (args.len() + 1) as int).len() > 0,
{
    reveal_strlit("--durations");
    reveal_strlit("--durations=");
    reveal_strlit("--durations-min");
    reveal_strlit("--durations-min=");
    theorem_only_digits_are_a_number(decimal(n), usize::MAX as nat);
    theorem_decimal_reads_back(n);
    let d = decimal(n);
    let j = "--durations="@ + d;
    assert("--durations"@.len() == 11 && "--durations-min"@.len() == 15);
    assert(j.skip(12) =~= d);
    assert(j.subrange(0, 12) =~= "--durations="@);
    assert(j[11] == '=' && "--durations-min"@[11] == '-');
    assert(crate::text::is_digit(d[0]));
    assert("--durations"@[0] == '-' && "--durations-min"@[0] == '-' && "--durations="@[0] == '-');
    let two = args.push("--durations"@).push(d);
    assert(two[two.len() - 1] == d);
    assert(two[two.len() - 2] == "--durations"@);
    if starts(d, "--durations="@) {
        assert(d.subrange(0, 12)[0] == d[0]);
    }
    reveal_with_fuel(count_after, 3);
    let m = "--durations-min="@ + min;
    assert(m.subrange(0, 16) =~= "--durations-min="@);
    assert(m.skip(16) =~= min);
    assert(m.len() >= 16);
}

/// Without a time that reads as a number, times from five thousandths of a second on are
/// shown; else the last that reads.
pub proof fn theorem_shortest_time_shown<F: Fn(&str) -> Option<Double>>(
    number: F,
    given: Seq<Seq<char>>,
    min: Double,
)
    requires
        shortest_given(number, given, min),
    ensures
        given.len() == 0 ==> min.bits == 0x3F747AE147AE147B,
        min.bits != 0x3F747AE147AE147B ==> exists|i: int|
            0 <= i < given.len() && reads_as(number, #[trigger] given[i], Some(min)) && forall|j: int|
                i < j < given.len() ==> reads_as(number, #[trigger] given[j], None),
    decreases given.len(),
{
    if given.len() > 0 && min.bits != 0x3F747AE147AE147B {
        let n = given.len() - 1;
        assert(given[n] == given.last());
        if !reads_as(number, given.last(), Some(min)) {
            let init = given.drop_last();
            theorem_shortest_time_shown(number, init, min);
            let i = choose|i: int|
                0 <= i < init.len() && reads_as(number, #[trigger] init[i], Some(min)) && forall|j: int|
                    i < j < init.len() ==> reads_as(number, #[trigger] init[j], None);
            assert(given[i] == init[i]);
            assert forall|j: int| i < j < given.len() implies reads_as(
                number,
                #[trigger] given[j],
                None,
            ) by {
                if j < n {
                    assert(given[j] == init[j]);
                }
            }
        }
    }
}

/// A session that is asked to show or to ask for something gets the terminal, whatever else
/// is asked.
pub proof fn theorem_interactive_sessions_get_the_terminal(args: Seq<Seq<char>>, i: int)
    requires
        0 <= i < args.len(),
        ({
            ||| args[i] == "--collect-only"@
            ||| args[i] == "--co"@
            ||| args[i] == "-s"@
            ||| args[i] == "--capture=no"@
            ||| args[i] == "--pdb"@
            ||| args[i] == "--trace"@
            ||| args[i] == "--sw"@
            ||| args[i] == "--stepwise"@
            ||| args[i] == "--sw-skip"@
            ||| args[i] == "--stepwise-skip"@
            ||| args[i] == "--sw-reset"@
            ||| args[i] == "--stepwise-reset"@
            ||| starts(args[i], "--capture="@)
        }),
    ensures
        needs_terminal(args),
{
}

/// Without any such flag it does not get it.
pub proof fn theorem_other_sessions_do_not_get_the_terminal(args: Seq<Seq<char>>)
    requires
        forall|i: int|
            0 <= i < args.len() ==> !({
                ||| #[trigger] args[i] == "--collect-only"@
                ||| args[i] == "--co"@
                ||| args[i] == "-s"@
                ||| args[i] == "--capture=no"@
                ||| args[i] == "--pdb"@
                ||| args[i] == "--trace"@
                ||| args[i] == "--sw"@
                ||| args[i] == "--stepwise"@
                ||| args[i] == "--sw-skip"@
                ||| args[i] == "--stepwise-skip"@
                ||| args[i] == "--sw-reset"@
                ||| args[i] == "--stepwise-reset"@
                ||| starts(args[i], "--capture="@)
            }),
    ensures
        !needs_terminal(args),
{
}

/// Whether `res` is the limit on failures that was given last.
pub open spec fn is_limit(res: Option<u64>, given: Option<nat>) -> bool {
    match given {
        Some(n) => if n > 0 {
            res == Some(n as u64) && n <= u64::MAX
        } else {
            res is None
        },
        None => res is None,
    }
}

/// Whether tests are only collected.
pub open spec fn only_collects(args: Seq<Seq<char>>) -> bool {
    args.contains("--collect-only"@) || args.contains("--co"@)
}

/// A limit of zero is none, and any other limit counts as given.
pub proof fn theorem_zero_is_no_limit(res: Option<u64>, n: nat)
    ensures
        is_limit(res, Some(0)) ==> res is None,
        is_limit(res, None) ==> res is None,
        n >= 1 && is_limit(res, Some(n)) ==> (res matches Some(m) && m == n),
{
}

/// Tests are only collected where either name of the flag is among the arguments.
pub proof fn theorem_only_collecting(args: Seq<Seq<char>>)
    ensures
        only_collects(args) <==> exists|i: int|
            0 <= i < args.len() && (#[trigger] args[i] == "--collect-only"@ || args[i] == "--co"@),
{
    if exists|i: int|
        0 <= i < args.len() && (#[trigger] args[i] == "--collect-only"@ || args[i] == "--co"@) {
        let i = choose|i: int|
            0 <= i < args.len() && (#[trigger] args[i] == "--collect-only"@ || args[i] == "--co"@);
        assert(args.contains(args[i]));
    }
}

} // verus!
