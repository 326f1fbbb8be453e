//! What a run is asked for, by its arguments and its settings.

use crate::cli::{needs_passthrough_io, needs_terminal};
use crate::config::RstestSettings;
use crate::numbers::{dec_len, decimal, number_up_to, parse_u64, parse_usize};
use crate::patterns::{regex_search, search};
use crate::text::{
    contains_str, contains_sub, opt_text, starts, starts_with, str_eq, texts, to_chars,
};
use vstd::prelude::*;

verus! {

broadcast use {crate::text::lemma_texts_push, crate::text::lemma_texts_add};

/// How tests are handed out to workers.
#[derive(Clone, Copy, Debug, PartialEq, Eq, Structural)]
pub enum Dist {
    Load,
    Loadfile,
    Loadscope,
    Loadgroup,
    Each,
}

/// The way of handing out tests that has a name.
pub open spec fn dist_named(name: Seq<char>) -> Option<Dist> {
    if name == "load"@ {
        Some(Dist::Load)
    } else if name == "loadfile"@ {
        Some(Dist::Loadfile)
    } else if name == "loadscope"@ {
        Some(Dist::Loadscope)
    } else if name == "loadgroup"@ {
        Some(Dist::Loadgroup)
    } else if name == "each"@ {
        Some(Dist::Each)
    } else {
        None
    }
}

impl Dist {
    /// The name of a way of handing out tests.
    pub open spec fn named(self) -> Seq<char> {
        match self {
            Dist::Load => "load"@,
            Dist::Loadfile => "loadfile"@,
            Dist::Loadscope => "loadscope"@,
            Dist::Loadgroup => "loadgroup"@,
            Dist::Each => "each"@,
        }
    }

    /// Names a way of handing out tests.
    pub fn name(self) -> (res: String)
        ensures
            res@ == self.named(),
    {
        match self {
            Dist::Load => "load".to_owned(),
            Dist::Loadfile => "loadfile".to_owned(),
            Dist::Loadscope => "loadscope".to_owned(),
            Dist::Loadgroup => "loadgroup".to_owned(),
            Dist::Each => "each".to_owned(),
        }
    }
}

/// Finds the way of handing out tests that has a name.
pub fn dist_of(name: &str) -> (res: Option<Dist>)
    ensures
        res == dist_named(name@),
{
    if str_eq(name, "load") {
        Some(Dist::Load)
    } else if str_eq(name, "loadfile") {
        Some(Dist::Loadfile)
    } else if str_eq(name, "loadscope") {
        Some(Dist::Loadscope)
    } else if str_eq(name, "loadgroup") {
        Some(Dist::Loadgroup)
    } else if str_eq(name, "each") {
        Some(Dist::Each)
    } else {
        None
    }
}

/// A way of handing out tests is found under its name.
pub proof fn theorem_dist_by_name(d: Dist)
    ensures
        dist_named(d.named()) == Some(d),
{
    reveal_strlit("load");
    reveal_strlit("loadfile");
    reveal_strlit("loadscope");
    reveal_strlit("loadgroup");
    reveal_strlit("each");
    assert("load"@.len() == 4);
    assert("loadfile"@.len() == 8);
    assert("loadscope"@.len() == 9);
    assert("loadgroup"@.len() == 9);
    assert("each"@.len() == 4);
    assert("loadscope"@[4] == 's');
    assert("loadgroup"@[4] == 'g');
    assert("load"@[0] == 'l');
    assert("each"@[0] == 'e');
}

/// What was asked for on the command line, else in the settings, else by default.
pub open spec fn preferred(
    cli: Option<Seq<char>>,
    settings: Option<Seq<char>>,
    default: Seq<char>,
) -> Seq<char> {
    match cli {
        Some(c) => c,
        None => match settings {
            Some(s) => s,
            None => default,
        },
    }
}

fn prefer(cli: &Option<String>, settings: &Option<String>, default: &str) -> (res: String)
    ensures
        res@ == preferred(opt_text(*cli), opt_text(*settings), default@),
{
    match cli {
        Some(c) => c.clone(),
        None => match settings {
            Some(s) => s.clone(),
            None => default.to_owned(),
        },
    }
}

/// What is said of an unknown way of handing out tests.
pub open spec fn unknown_dist_text(name: Seq<char>) -> Seq<char> {
    "unknown --dist mode: "@ + name + " (use load|loadfile|loadscope|loadgroup|each)"@
}

/// How many workers are asked for, given how many there are by default.
pub open spec fn workers_in(value: Seq<char>, auto: nat) -> Option<nat> {
    if value == "auto"@ {
        Some(auto)
    } else {
        number_up_to(value, usize::MAX as nat)
    }
}

/// Reads how many workers are asked for; nothing comes back for what is no number.
pub fn parse_numprocesses(value: &str, auto: usize) -> (res: Option<usize>)
    ensures
        match res {
            Some(n) => workers_in(value@, auto as nat) == Some(n as nat),
            None => workers_in(value@, auto as nat) is None,
        },
{
    if str_eq(value, "auto") {
        Some(auto)
    } else {
        parse_usize(value)
    }
}

/// The smaller of two numbers.
pub open spec fn least(a: int, b: int) -> int {
    if a < b {
        a
    } else {
        b
    }
}

/// How many workers there are by default: one for each core, but no more than there
/// are test files, and no more than the time of the tests is worth; at least one.
pub open spec fn auto_count(cores: int, files: Option<usize>, by_time: Option<usize>) -> int {
    let n = match files {
        Some(f) => if f > 0 {
            least(cores, f as int)
        } else {
            cores
        },
        None => cores,
    };
    let m = match by_time {
        Some(t) => least(
            n,
            if t < 1 {
                1
            } else {
                t as int
            },
        ),
        None => n,
    };
    if m < 1 {
        1
    } else {
        m
    }
}

/// Decides how many workers there are by default.
pub fn auto_workers(cores: usize, files: Option<usize>, by_time: Option<usize>) -> (res: usize)
    ensures
        res == auto_count(cores as int, files, by_time),
{
    let mut n = cores;
    if let Some(f) = files {
        if f > 0 && f <= n {
            n = f;
        }
    }
    if let Some(t) = by_time {
        let t: usize = if t < 1 { 1 } else { t };
        if t < n {
            n = t;
        }
    }
    if n < 1 {
        1
    } else {
        n
    }
}

/// There is always a worker, and never more than cores, where there is a core.
pub proof fn theorem_auto_is_bounded(cores: int, files: Option<usize>, by_time: Option<usize>)
    requires
        cores >= 1,
    ensures
        1 <= auto_count(cores, files, by_time) <= cores,
{
}

/// Whether an argument is a run of `v` after a dash.
pub open spec fn v_flag(a: Seq<char>, prefix: Seq<char>) -> bool {
    starts(a, prefix) && forall|i: int| 1 <= i < a.len() ==> #[trigger] a[i] == 'v'
}

fn is_v_flag(a: &str, prefix: &str) -> (res: bool)
    ensures
        res == v_flag(a@, prefix@),
{
    if !starts_with(a, prefix) {
        return false;
    }
    let v = to_chars(a);
    let mut i: usize = 1;
    while i < v.len()
        invariant
            1 <= i,
            v@ == a@,
            forall|j: int| 1 <= j < i && j < v.len() ==> #[trigger] v@[j] == 'v',
        decreases v.len() - i,
    {
        if v[i] != 'v' {
            assert(a@[i as int] != 'v');
            return false;
        }
        i += 1;
    }
    true
}

/// Whether a detailed report is asked for.
pub open spec fn verbose_in(args: Seq<Seq<char>>) -> bool {
    exists|i: int|
        0 <= i < args.len() && ((#[trigger] args[i]) == "--verbose"@ || v_flag(args[i], "-v"@))
}

/// How many arguments are `--verbose`.
pub open spec fn verbose_count(args: Seq<Seq<char>>) -> nat
    decreases args.len(),
{
    if args.len() == 0 {
        0
    } else {
        verbose_count(args.drop_last()) + (if args.last() == "--verbose"@ {
            1nat
        } else {
            0
        })
    }
}

/// Whether a very detailed report is asked for.
pub open spec fn very_verbose_in(args: Seq<Seq<char>>) -> bool {
    verbose_count(args) >= 2 || exists|i: int|
        0 <= i < args.len() && v_flag(#[trigger] args[i], "-vv"@)
}

/// Decides whether a detailed and whether a very detailed report is asked for.
pub fn verbosity(args: &[String]) -> (res: (bool, bool))
    ensures
        res.0 == verbose_in(texts(args@)),
        res.1 == very_verbose_in(texts(args@)),
{
    let ghost all = texts(args@);
    let mut verbose = false;
    let mut run = false;
    let mut count: usize = 0;
    let mut i: usize = 0;
    assert(all.take(0) =~= Seq::empty());
    while i < args.len()
        invariant
            i <= args.len(),
            all == texts(args@),
            verbose == exists|j: int|
                0 <= j < i && ((#[trigger] all[j]) == "--verbose"@ || v_flag(all[j], "-v"@)),
            run == exists|j: int| 0 <= j < i && v_flag(#[trigger] all[j], "-vv"@),
            count == verbose_count(all.take(i as int)),
            count <= i,
        decreases args.len() - i,
    {
        let a = args[i].as_str();
        proof {
            assert(all[i as int] == a@);
            assert(all.take(i + 1).drop_last() =~= all.take(i as int));
            assert(all.take(i + 1).last() == a@);
        }
        if str_eq(a, "--verbose") {
            verbose = true;
            count += 1;
        }
        if is_v_flag(a, "-v") {
            verbose = true;
        }
        if is_v_flag(a, "-vv") {
            run = true;
        }
        i += 1;
    }
    assert(all.take(args.len() as int) =~= all);
    (verbose, count >= 2 || run)
}

/// What the report looks like.
#[derive(Clone, Copy, Debug, PartialEq, Eq, Structural)]
pub enum Mode {
    Bar,
    Verbose,
    Dots,
    Github,
    Json,
    Tap,
    Teamcity,
    Gitlab,
    Buildkite,
    Azure,
}

/// The look of the report that has a name.
pub open spec fn mode_named(name: Seq<char>) -> Option<Mode> {
    if name == "bar"@ {
        Some(Mode::Bar)
    } else if name == "verbose"@ {
        Some(Mode::Verbose)
    } else if name == "dots"@ {
        Some(Mode::Dots)
    } else if name == "github"@ {
        Some(Mode::Github)
    } else if name == "json"@ {
        Some(Mode::Json)
    } else if name == "tap"@ {
        Some(Mode::Tap)
    } else if name == "teamcity"@ {
        Some(Mode::Teamcity)
    } else if name == "gitlab"@ {
        Some(Mode::Gitlab)
    } else if name == "buildkite"@ {
        Some(Mode::Buildkite)
    } else if name == "azure"@ {
        Some(Mode::Azure)
    } else {
        None
    }
}

fn mode_of(name: &str) -> (res: Option<Mode>)
    ensures
        res == mode_named(name@),
{
    if str_eq(name, "bar") {
        Some(Mode::Bar)
    } else if str_eq(name, "verbose") {
        Some(Mode::Verbose)
    } else if str_eq(name, "dots") {
        Some(Mode::Dots)
    } else if str_eq(name, "github") {
        Some(Mode::Github)
    } else if str_eq(name, "json") {
        Some(Mode::Json)
    } else if str_eq(name, "tap") {
        Some(Mode::Tap)
    } else if str_eq(name, "teamcity") {
        Some(Mode::Teamcity)
    } else if str_eq(name, "gitlab") {
        Some(Mode::Gitlab)
    } else if str_eq(name, "buildkite") {
        Some(Mode::Buildkite)
    } else if str_eq(name, "azure") {
        Some(Mode::Azure)
    } else {
        None
    }
}

/// What is said of an unknown look of the report.
pub open spec fn unknown_output_text(name: Seq<char>) -> Seq<char> {
    "rstest: unknown --output '"@ + name
        + "' (use dots|verbose|bar|github|gitlab|buildkite|teamcity|azure|tap|json); using dots"@
}

/// What the report looks like, and what is said of an unknown look. Without a
/// choice, it depends on how detailed it shall be and on whether a terminal shows it.
pub open spec fn mode_for(
    asked: Option<Seq<char>>,
    verbose: bool,
    terminal: bool,
) -> (Mode, Option<Seq<char>>) {
    match asked {
        Some(name) => match mode_named(name) {
            Some(m) => (m, None),
            None => (Mode::Dots, Some(unknown_output_text(name))),
        },
        None => (
            if verbose {
                Mode::Verbose
            } else if terminal {
                Mode::Bar
            } else {
                Mode::Dots
            },
            None,
        ),
    }
}

/// The first of two that is there.
pub open spec fn either(a: Option<Seq<char>>, b: Option<Seq<char>>) -> Option<Seq<char>> {
    match a {
        Some(s) => Some(s),
        None => b,
    }
}

/// Decides what the report looks like.
pub fn choose_mode(
    cli: &Option<String>,
    settings: &Option<String>,
    verbose: bool,
    terminal: bool,
) -> (res: (Mode, Option<String>))
    ensures
        (res.0, opt_text(res.1)) == mode_for(
            either(opt_text(*cli), opt_text(*settings)),
            verbose,
            terminal,
        ),
{
    let asked = match cli {
        Some(s) => Some(s),
        None => match settings {
            Some(s) => Some(s),
            None => None,
        },
    };
    match asked {
        Some(name) => match mode_of(name.as_str()) {
            Some(m) => (m, None),
            None => {
                let mut note = String::from_str("rstest: unknown --output '");
                note.append(name.as_str());
                note.append(
                    "' (use dots|verbose|bar|github|gitlab|buildkite|teamcity|azure|tap|json); using dots",
                );
                (Mode::Dots, Some(note))
            },
        },
        None => (
            if verbose {
                Mode::Verbose
            } else if terminal {
                Mode::Bar
            } else {
                Mode::Dots
            },
            None,
        ),
    }
}

/// What is asked for on the command line.
pub struct Choices {
    pub numprocesses: Option<String>,
    pub dist: Option<String>,
    pub reruns: Option<u32>,
    /// Whether only tests that were flaky before run again.
    pub reruns_only_known_flaky: bool,
    pub worker_timeout: Option<u64>,
    pub collect: Option<String>,
}

/// How a run goes.
pub struct Plan {
    /// How many workers were asked for.
    pub numprocesses: String,
    pub workers: usize,
    pub dist: Dist,
    pub reruns: u32,
    /// Whether only tests that were flaky before run again.
    pub only_known_flaky: bool,
    pub worker_timeout: Option<u64>,
    /// Whether the session owns the terminal.
    pub passthrough: bool,
    /// Whether one worker runs tests again.
    pub rerun_pool: bool,
}

/// Why a run does not begin.
pub enum PlanError {
    /// What is said of the way of handing out tests.
    Dist(String),
    /// How many workers were asked for, where that is no number.
    Workers(String),
}

/// How often tests run again.
pub open spec fn reruns_in(cli: Option<u32>, settings: Option<u32>) -> u32 {
    match cli {
        Some(n) => n,
        None => match settings {
            Some(n) => n,
            None => 0,
        },
    }
}

/// Whether a plan is what is asked for, given how many workers there are by default.
pub open spec fn planned(
    p: Plan,
    c: Choices,
    s: RstestSettings,
    args: Seq<Seq<char>>,
    auto: nat,
) -> bool {
    let n = workers_in(p.numprocesses@, auto);
    &&& p.numprocesses@ == preferred(opt_text(c.numprocesses), opt_text(s.numprocesses), "auto"@)
    &&& dist_named(preferred(opt_text(c.dist), opt_text(s.dist), "load"@)) == Some(p.dist)
    &&& p.reruns == reruns_in(c.reruns, s.reruns)
    &&& p.only_known_flaky == (p.reruns > 0 && (c.reruns_only_known_flaky
        || s.reruns_only_known_flaky == Some(true)))
    &&& p.worker_timeout == (if c.worker_timeout is Some {
        c.worker_timeout
    } else {
        s.worker_timeout
    })
    &&& p.passthrough == needs_terminal(args)
    &&& n is Some
    &&& p.rerun_pool == (p.reruns > 0 && n->0 <= 1 && !p.passthrough)
    &&& p.workers == (if p.rerun_pool {
        1
    } else {
        n->0
    })
}

/// Plans a run, given how many workers there are by default.
pub fn plan(c: &Choices, s: &RstestSettings, args: &[String], auto: usize) -> (res: Result<
    Plan,
    PlanError,
>)
    ensures
        match res {
            Ok(p) => planned(p, *c, *s, texts(args@), auto as nat),
            Err(PlanError::Dist(t)) => {
                let name = preferred(opt_text(c.dist), opt_text(s.dist), "load"@);
                dist_named(name) is None && t@ == unknown_dist_text(name)
            },
            Err(PlanError::Workers(t)) => {
                let name = preferred(opt_text(c.dist), opt_text(s.dist), "load"@);
                let asked = preferred(
                    opt_text(c.numprocesses),
                    opt_text(s.numprocesses),
                    "auto"@,
                );
                dist_named(name) is Some && workers_in(asked, auto as nat) is None && t@ == asked
            },
        },
{
    let dist_name = prefer(&c.dist, &s.dist, "load");
    let dist = match dist_of(dist_name.as_str()) {
        Some(d) => d,
        None => {
            let mut text = String::from_str("unknown --dist mode: ");
            text.append(dist_name.as_str());
            text.append(" (use load|loadfile|loadscope|loadgroup|each)");
            return Err(PlanError::Dist(text));
        },
    };
    let reruns: u32 = match c.reruns {
        Some(n) => n,
        None => match s.reruns {
            Some(n) => n,
            None => 0,
        },
    };
    let by_settings = match s.reruns_only_known_flaky {
        Some(b) => b,
        None => false,
    };
    let numprocesses = prefer(&c.numprocesses, &s.numprocesses, "auto");
    let n = match parse_numprocesses(numprocesses.as_str(), auto) {
        Some(n) => n,
        None => {
            return Err(PlanError::Workers(numprocesses));
        },
    };
    let passthrough = needs_passthrough_io(args);
    let rerun_pool = reruns > 0 && n <= 1 && !passthrough;
    Ok(
        Plan {
            numprocesses,
            workers: if rerun_pool {
                1
            } else {
                n
            },
            dist,
            reruns,
            only_known_flaky: reruns > 0 && (c.reruns_only_known_flaky || by_settings),
            worker_timeout: match c.worker_timeout {
                Some(t) => Some(t),
                None => s.worker_timeout,
            },
            passthrough,
            rerun_pool,
        },
    )
}

/// What is said of a way of handing out tests that needs all of them at once.
pub open spec fn lazy_dist_text(d: Dist) -> Seq<char> {
    "--collect lazy is file-affine and cannot honor --dist "@ + d.named()
        + " (loadscope/loadgroup need a global id list; use --collect full)"@
}

/// What is said of an unknown way of collecting.
pub open spec fn unknown_collect_text(name: Seq<char>) -> Seq<char> {
    "unknown --collect mode: "@ + name + " (use full|lazy)"@
}

/// Whether an argument selects tests that are not found file by file.
pub open spec fn selects_by_id(args: Seq<Seq<char>>) -> bool {
    exists|i: int|
        0 <= i < args.len() && (contains_sub(#[trigger] args[i], "::"@) || args[i] == "--pyargs"@)
}

fn has_id(args: &[String]) -> (res: bool)
    ensures
        res == selects_by_id(texts(args@)),
{
    let ghost all = texts(args@);
    let mut i: usize = 0;
    while i < args.len()
        invariant
            i <= args.len(),
            all == texts(args@),
            forall|j: int|
                0 <= j < i ==> !(contains_sub(#[trigger] all[j], "::"@) || all[j] == "--pyargs"@),
        decreases args.len() - i,
    {
        assert(all[i as int] == args@[i as int]@);
        if contains_str(args[i].as_str(), "::") || str_eq(args[i].as_str(), "--pyargs") {
            return true;
        }
        i += 1;
    }
    false
}

/// How tests are collected.
#[derive(Clone, Copy, Debug, PartialEq, Eq, Structural)]
pub enum Collection {
    /// By every worker, all of them.
    Full,
    /// File by file, when a worker gets to it.
    Lazy,
    /// By every worker, though it was asked for file by file.
    FallBack,
}

/// A result whose error is told in characters.
pub open spec fn told<T>(res: Result<T, String>) -> Result<T, Seq<char>> {
    match res {
        Ok(v) => Ok(v),
        Err(e) => Err(e@),
    }
}

/// How tests are collected, or what is said where that is refused.
pub open spec fn collection_for(
    name: Seq<char>,
    dist: Dist,
    args: Seq<Seq<char>>,
) -> Result<Collection, Seq<char>> {
    if name == "full"@ {
        Ok(Collection::Full)
    } else if name == "lazy"@ {
        if dist != Dist::Load && dist != Dist::Loadfile {
            Err(lazy_dist_text(dist))
        } else if selects_by_id(args) {
            Ok(Collection::FallBack)
        } else {
            Ok(Collection::Lazy)
        }
    } else {
        Err(unknown_collect_text(name))
    }
}

/// Decides how tests are collected.
pub fn collect_lazy(
    cli: &Option<String>,
    settings: &Option<String>,
    dist: Dist,
    args: &[String],
) -> (res: Result<Collection, String>)
    ensures
        told(res) == collection_for(
            preferred(opt_text(*cli), opt_text(*settings), "full"@),
            dist,
            texts(args@),
        ),
{
    proof {
        reveal_strlit("full");
        reveal_strlit("lazy");
        assert("full"@[0] == 'f');
        assert("lazy"@[0] == 'l');
    }
    let name = prefer(cli, settings, "full");
    if str_eq(name.as_str(), "full") {
        return Ok(Collection::Full);
    }
    if str_eq(name.as_str(), "lazy") {
        if dist != Dist::Load && dist != Dist::Loadfile {
            let mut text = String::from_str(
                "--collect lazy is file-affine and cannot honor --dist ",
            );
            text.append(dist.name().as_str());
            text.append(" (loadscope/loadgroup need a global id list; use --collect full)");
            return Err(text);
        }
        if has_id(args) {
            return Ok(Collection::FallBack);
        }
        return Ok(Collection::Lazy);
    }
    let mut text = String::from_str("unknown --collect mode: ");
    text.append(name.as_str());
    text.append(" (use full|lazy)");
    Err(text)
}

/// What is said where tests are asked for in random order and cannot be.
pub open spec fn shuffle_refusal(
    p: Plan,
    collection: Result<Collection, Seq<char>>,
) -> Option<Seq<char>> {
    if p.workers <= 1 || p.passthrough {
        if p.rerun_pool {
            Some(
                "--shuffle is not supported by the one-worker rerun pool (--reruns at -n <= 1); raise -n to 2+ to combine shuffle with reruns"@,
            )
        } else {
            Some(
                "--shuffle needs the parallel pool (-n >= 2); in single-worker mode the session owns its own order (use pytest-randomly there)"@,
            )
        }
    } else {
        match collection {
            Err(t) => Some(t),
            Ok(c) => if c == Collection::Lazy {
                Some("--shuffle is not supported with --collect lazy"@)
            } else if p.dist == Dist::Each {
                Some(
                    "--shuffle is not supported with --dist each (workers run the full suite in session order)"@,
                )
            } else {
                None
            },
        }
    }
}

/// What is said of a seed that is no number.
pub open spec fn seed_text(v: Seq<char>) -> Seq<char> {
    "--shuffle seed must be an unsigned integer, got '"@ + v + "'"@
}

/// The seed of the random order, where one is asked for; what is said where that is
/// refused.
pub open spec fn seed_for(
    asked: Option<Seq<char>>,
    p: Plan,
    collection: Result<Collection, Seq<char>>,
    random: u64,
) -> Result<Option<nat>, Seq<char>> {
    match asked {
        None => Ok(None),
        Some(v) => match shuffle_refusal(p, collection) {
            Some(t) => Err(t),
            None => if v == "random"@ {
                Ok(Some(random as nat))
            } else {
                match number_up_to(v, u64::MAX as nat) {
                    Some(n) => Ok(Some(n)),
                    None => Err(seed_text(v)),
                }
            },
        },
    }
}

/// A seed as a mathematical number.
pub open spec fn seed_told(res: Result<Option<u64>, String>) -> Result<Option<nat>, Seq<char>> {
    match res {
        Ok(Some(n)) => Ok(Some(n as nat)),
        Ok(None) => Ok(None),
        Err(e) => Err(e@),
    }
}

/// Decides on the seed of the random order, given one that was drawn.
pub fn shuffle_seed(
    asked: &Option<String>,
    p: &Plan,
    collection: &Result<Collection, String>,
    random: u64,
) -> (res: Result<Option<u64>, String>)
    ensures
        seed_told(res) == seed_for(opt_text(*asked), *p, told(*collection), random),
{
    let v = match asked {
        None => {
            return Ok(None);
        },
        Some(v) => v,
    };
    if p.workers <= 1 || p.passthrough {
        if p.rerun_pool {
            return Err(
                "--shuffle is not supported by the one-worker rerun pool (--reruns at -n <= 1); raise -n to 2+ to combine shuffle with reruns".to_owned(),
            );
        }
        return Err(
            "--shuffle needs the parallel pool (-n >= 2); in single-worker mode the session owns its own order (use pytest-randomly there)".to_owned(),
        );
    }
    match collection {
        Err(t) => {
            return Err(t.clone());
        },
        Ok(c) => {
            if *c == Collection::Lazy {
                return Err("--shuffle is not supported with --collect lazy".to_owned());
            }
        },
    }
    if p.dist == Dist::Each {
        return Err(
            "--shuffle is not supported with --dist each (workers run the full suite in session order)".to_owned(),
        );
    }
    if str_eq(v.as_str(), "random") {
        return Ok(Some(random));
    }
    match parse_u64(v.as_str()) {
        Some(n) => Ok(Some(n)),
        None => {
            let mut text = String::from_str("--shuffle seed must be an unsigned integer, got '");
            text.append(v.as_str());
            text.append("'");
            Err(text)
        },
    }
}

/// What is said where a part of the suite is asked for and cannot be told.
pub open spec fn shard_refusal(p: Plan, shuffled: bool) -> Option<Seq<char>> {
    if p.workers <= 1 || p.passthrough {
        if p.rerun_pool {
            Some(
                "--shard is not supported by the one-worker rerun pool (--reruns at -n <= 1); raise -n to 2+ to combine shard with reruns"@,
            )
        } else {
            Some(
                "--shard needs the parallel pool (-n >= 2); the single-worker path runs the session's own full suite with no dispatch filter"@,
            )
        }
    } else if shuffled {
        Some(
            "--shard is not supported with --shuffle: shards must partition the suite identically on every machine, which a per-run shuffle defeats (shuffle within a shard is fine to add later)"@,
        )
    } else if p.dist == Dist::Each {
        Some(
            "--shard is not supported with --dist each (every worker runs the full suite; there is no dispatch queue to partition)"@,
        )
    } else {
        None
    }
}

/// The part of the suite that is run, where one is asked for: the whole suite as its
/// only part is none.
pub open spec fn shard_for(
    asked: Option<(usize, usize)>,
    p: Plan,
    shuffled: bool,
) -> Result<Option<(usize, usize)>, Seq<char>> {
    match asked {
        None => Ok(None),
        Some((k, total)) => if total == 1 {
            Ok(None)
        } else {
            match shard_refusal(p, shuffled) {
                Some(t) => Err(t),
                None => Ok(Some((k, total))),
            }
        },
    }
}

/// Decides on the part of the suite that is run.
pub fn shard_of(asked: Option<(usize, usize)>, p: &Plan, shuffled: bool) -> (res: Result<
    Option<(usize, usize)>,
    String,
>)
    ensures
        told(res) == shard_for(asked, *p, shuffled),
{
    let (k, total) = match asked {
        None => {
            return Ok(None);
        },
        Some(kt) => kt,
    };
    if total == 1 {
        return Ok(None);
    }
    if p.workers <= 1 || p.passthrough {
        if p.rerun_pool {
            return Err(
                "--shard is not supported by the one-worker rerun pool (--reruns at -n <= 1); raise -n to 2+ to combine shard with reruns".to_owned(),
            );
        }
        return Err(
            "--shard needs the parallel pool (-n >= 2); the single-worker path runs the session's own full suite with no dispatch filter".to_owned(),
        );
    }
    if shuffled {
        return Err(
            "--shard is not supported with --shuffle: shards must partition the suite identically on every machine, which a per-run shuffle defeats (shuffle within a shard is fine to add later)".to_owned(),
        );
    }
    if p.dist == Dist::Each {
        return Err(
            "--shard is not supported with --dist each (every worker runs the full suite; there is no dispatch queue to partition)".to_owned(),
        );
    }
    Ok(Some((k, total)))
}

/// Who runs the tests.
#[derive(Clone, Copy, Debug, PartialEq, Eq, Structural)]
pub enum Route {
    /// One session, with the terminal handed through or not.
    Session(bool),
    /// Workers that collect file by file.
    Lazy,
    /// Workers that collect all tests.
    Pool,
}

/// Who runs the tests, or what is said where that is refused.
pub open spec fn route_for(
    p: Plan,
    collection: Result<Collection, Seq<char>>,
) -> Result<Route, Seq<char>> {
    if p.passthrough || (p.workers <= 1 && !p.rerun_pool) {
        Ok(Route::Session(p.passthrough))
    } else {
        match collection {
            Err(t) => Err(t),
            Ok(c) => if c == Collection::Lazy {
                Ok(Route::Lazy)
            } else if p.dist == Dist::Each && p.reruns > 0 {
                Err(
                    "--reruns is not supported with --dist each (every worker runs the full suite; rerun-on-another-worker semantics do not apply)"@,
                )
            } else {
                Ok(Route::Pool)
            },
        }
    }
}

/// Decides who runs the tests.
pub fn route(p: &Plan, collection: &Result<Collection, String>) -> (res: Result<Route, String>)
    ensures
        told(res) == route_for(*p, told(*collection)),
{
    if p.passthrough || (p.workers <= 1 && !p.rerun_pool) {
        return Ok(Route::Session(p.passthrough));
    }
    match collection {
        Err(t) => Err(t.clone()),
        Ok(c) => if *c == Collection::Lazy {
            Ok(Route::Lazy)
        } else if p.dist == Dist::Each && p.reruns > 0 {
            Err(
                "--reruns is not supported with --dist each (every worker runs the full suite; rerun-on-another-worker semantics do not apply)".to_owned(),
            )
        } else {
            Ok(Route::Pool)
        },
    }
}

/// A random order or a part of the suite is granted only where workers share one
/// list of all tests, or, for a part, of all files.
pub proof fn theorem_filters_need_the_pool(
    p: Plan,
    collection: Result<Collection, Seq<char>>,
    asked: Option<Seq<char>>,
    random: u64,
    part: Option<(usize, usize)>,
)
    ensures
        seed_for(asked, p, collection, random) matches Ok(Some(_)) ==> route_for(p, collection)
            != Ok::<Route, Seq<char>>(Route::Lazy) && !(route_for(p, collection) matches Ok(
            Route::Session(_),
        )) && p.dist != Dist::Each,
        forall|shuffled: bool| #[trigger]
            shard_for(part, p, shuffled) matches Ok(Some(_)) ==> !shuffled && !(route_for(
                p,
                collection,
            ) matches Ok(Route::Session(_))) && p.dist != Dist::Each,
{
}

/// One worker or none, asked to run nothing again, means one session, whatever else is
/// asked for.
pub proof fn theorem_no_workers_is_one_session(
    p: Plan,
    c: Choices,
    s: RstestSettings,
    args: Seq<Seq<char>>,
    auto: nat,
    collection: Result<Collection, Seq<char>>,
)
    requires
        planned(p, c, s, args, auto),
        reruns_in(c.reruns, s.reruns) == 0,
        workers_in(preferred(opt_text(c.numprocesses), opt_text(s.numprocesses), "auto"@), auto)
            matches Some(n) && n <= 1,
    ensures
        route_for(p, collection) == Ok::<Route, Seq<char>>(Route::Session(needs_terminal(args))),
{
}

/// Where nothing is said of workers, there are as many as by default.
pub proof fn theorem_parallel_by_default(
    p: Plan,
    c: Choices,
    s: RstestSettings,
    args: Seq<Seq<char>>,
    auto: nat,
)
    requires
        planned(p, c, s, args, auto),
        c.numprocesses is None,
        s.numprocesses is None,
        auto >= 1,
    ensures
        p.workers == auto,
{
}

/// How many workers collect file by file.
pub fn lazy_workers(workers: usize, files: usize) -> (res: usize)
    ensures
        res == workers_for_files(workers as int, files as int),
{
    let f: usize = if files < 1 { 1 } else { files };
    if workers < f {
        workers
    } else {
        f
    }
}

/// Whether workers take over files from one another: only where that was asked for.
pub fn steals(cli: &Option<String>, settings: &Option<String>) -> (res: bool)
    ensures
        res == is_stealing(opt_text(*cli), opt_text(*settings)),
{
    let a = match cli {
        Some(s) => str_eq(s.as_str(), "load"),
        None => false,
    };
    let b = match settings {
        Some(s) => str_eq(s.as_str(), "load"),
        None => false,
    };
    a || b
}

/// What a run is called on its first line.
pub open spec fn workers_text(p: Plan) -> Seq<char> {
    if p.rerun_pool {
        "single worker (rerun pool; not byte-exact)"@
    } else if p.workers <= 1 {
        "single worker (pytest-exact mode)"@
    } else {
        decimal(p.workers as nat) + " workers (parallel by default; -n 0 for single-worker mode)"@
    }
}

/// The first line of a report, where it has one.
pub open spec fn first_line(p: Plan, mode: Mode, version: Seq<char>) -> Option<Seq<char>> {
    if p.passthrough || mode == Mode::Json {
        None
    } else if mode == Mode::Tap {
        Some("TAP version 13"@)
    } else {
        Some("rstest "@ + version + " — "@ + workers_text(p))
    }
}

/// Writes the first line of a report, where it has one.
pub fn banner(p: &Plan, mode: Mode, version: &str) -> (res: Option<String>)
    ensures
        opt_text(res) == first_line(*p, mode, version@),
{
    if p.passthrough || mode == Mode::Json {
        return None;
    }
    if mode == Mode::Tap {
        return Some("TAP version 13".to_owned());
    }
    let desc = if p.rerun_pool {
        "single worker (rerun pool; not byte-exact)".to_owned()
    } else if p.workers <= 1 {
        "single worker (pytest-exact mode)".to_owned()
    } else {
        let mut d = dec_len(p.workers);
        d.append(" workers (parallel by default; -n 0 for single-worker mode)");
        d
    };
    let mut out = String::from_str("rstest ");
    out.append(version);
    out.append(" — ");
    out.append(desc.as_str());
    Some(out)
}

/// What is said of running tests again before a run begins.
pub open spec fn rerun_notes(p: Plan) -> Seq<Seq<char>> {
    if p.reruns > 0 && p.passthrough {
        seq![
            "rstest: --reruns is ignored under -s/--pdb/--co (interactive single session); drop those flags to enable reruns"@,
        ]
    } else if p.rerun_pool {
        seq![
            "rstest: --reruns at -n "@ + p.numprocesses@
                + " runs a one-worker rerun pool (not byte-exact); use -n 0/1 without --reruns for the byte-exact session"@,
        ]
    } else {
        Seq::empty()
    }
}

/// Says what becomes of running tests again.
pub fn notes(p: &Plan) -> (res: Vec<String>)
    ensures
        texts(res@) == rerun_notes(*p),
{
    let mut out: Vec<String> = Vec::new();
    if p.reruns > 0 && p.passthrough {
        out.push(
            "rstest: --reruns is ignored under -s/--pdb/--co (interactive single session); drop those flags to enable reruns".to_owned(),
        );
    } else if p.rerun_pool {
        let mut line = String::from_str("rstest: --reruns at -n ");
        line.append(p.numprocesses.as_str());
        line.append(
            " runs a one-worker rerun pool (not byte-exact); use -n 0/1 without --reruns for the byte-exact session",
        );
        out.push(line);
    }
    assert(texts(out@) =~= rerun_notes(*p));
    out
}

/// Finds the first pattern of errors to run again on that is no regular expression.
pub fn bad_rerun_pattern(patterns: &[String]) -> (res: Option<usize>)
    ensures
        first_unreadable(res, texts(patterns@)),
{
    let mut i: usize = 0;
    while i < patterns.len()
        invariant
            i <= patterns.len(),
            forall|j: int| 0 <= j < i ==> regex_search((#[trigger] patterns@[j])@, ""@) is Some,
        decreases patterns.len() - i,
    {
        if search(patterns[i].as_str(), "").is_none() {
            return Some(i);
        }
        i += 1;
    }
    None
}

/// What is given on the command line goes before what the settings say, and that before
/// what holds where neither says anything: for the number of reruns, the time that a
/// worker may be silent, the number of workers, and the way of handing out tests.
pub proof fn theorem_command_line_goes_first(
    p: Plan,
    c: Choices,
    s: RstestSettings,
    args: Seq<Seq<char>>,
    auto: nat,
)
    requires
        planned(p, c, s, args, auto),
    ensures
        c.reruns matches Some(n) ==> p.reruns == n,
        c.reruns is None ==> (s.reruns matches Some(n) ==> p.reruns == n),
        c.reruns is None && s.reruns is None ==> p.reruns == 0,
        c.worker_timeout matches Some(t) ==> p.worker_timeout == Some(t),
        c.worker_timeout is None ==> p.worker_timeout == s.worker_timeout,
        c.numprocesses matches Some(n) ==> p.numprocesses@ == n@,
        c.numprocesses is None ==> (s.numprocesses matches Some(n) ==> p.numprocesses@ == n@),
        c.numprocesses is None && s.numprocesses is None ==> p.numprocesses@ == "auto"@,
        c.dist matches Some(d) ==> dist_named(d@) == Some(p.dist),
        c.dist is None ==> (s.dist matches Some(d) ==> dist_named(d@) == Some(p.dist)),
        c.dist is None && s.dist is None ==> p.dist == Dist::Load,
{
    theorem_dist_names();
}

/// The ways of handing out tests have their names, and there are no others.
pub proof fn theorem_dist_names()
    ensures
        dist_named("load"@) == Some(Dist::Load),
        dist_named("loadfile"@) == Some(Dist::Loadfile),
        dist_named("loadscope"@) == Some(Dist::Loadscope),
        dist_named("loadgroup"@) == Some(Dist::Loadgroup),
        dist_named("each"@) == Some(Dist::Each),
        forall|name: Seq<char>| #[trigger]
            dist_named(name) is Some ==> name == "load"@ || name == "loadfile"@ || name
                == "loadscope"@ || name == "loadgroup"@ || name == "each"@,
{
    reveal_strlit("load");
    reveal_strlit("loadfile");
    reveal_strlit("loadscope");
    reveal_strlit("loadgroup");
    reveal_strlit("each");
    assert("load"@.len() == 4);
    assert("loadfile"@.len() == 8);
    assert("loadscope"@.len() == 9);
    assert("loadgroup"@.len() == 9);
    assert("each"@.len() == 4);
    assert("load"@[0] == 'l');
    assert("each"@[0] == 'e');
    assert("loadscope"@[4] == 's');
    assert("loadgroup"@[4] == 'g');
}

/// As many workers run as were asked for, written as a number, or as many as by default
/// for `auto`. Only where tests may run again does a single worker become a pool of one.
pub proof fn theorem_workers_are_as_many_as_asked(
    p: Plan,
    c: Choices,
    s: RstestSettings,
    args: Seq<Seq<char>>,
    auto: nat,
    n: nat,
)
    requires
        planned(p, c, s, args, auto),
        n <= usize::MAX,
    ensures
        p.numprocesses@ == decimal(n) && (p.reruns == 0 || n > 1) ==> p.workers == n,
        p.numprocesses@ == decimal(n) && n <= 1 && p.reruns > 0 && !p.passthrough ==> p.workers
            == 1 && p.rerun_pool,
        p.numprocesses@ == "auto"@ && auto >= 1 ==> p.workers == auto,
        p.rerun_pool ==> p.workers == 1 && p.reruns > 0 && !p.passthrough,
        p.reruns == 0 || p.passthrough ==> !p.rerun_pool,
{
    crate::numbers::theorem_only_digits_are_a_number(decimal(n), usize::MAX as nat);
    crate::numbers::theorem_decimal_reads_back(n);
    reveal_strlit("auto");
    assert("auto"@[0] == 'a');
    assert(crate::text::is_digit(decimal(n)[0]));
}

/// Only tests that were flaky before run again where that is asked for, on the command
/// line or in the settings, and where tests run again at all.
pub proof fn theorem_known_flaky_only_where_asked(
    p: Plan,
    c: Choices,
    s: RstestSettings,
    args: Seq<Seq<char>>,
    auto: nat,
)
    requires
        planned(p, c, s, args, auto),
    ensures
        p.only_known_flaky ==> p.reruns > 0,
        p.reruns > 0 && c.reruns_only_known_flaky ==> p.only_known_flaky,
        p.reruns > 0 && s.reruns_only_known_flaky == Some(true) ==> p.only_known_flaky,
        !c.reruns_only_known_flaky && s.reruns_only_known_flaky != Some(true)
            ==> !p.only_known_flaky,
{
}

/// By default there are as many workers as every bound allows: the cores, the files where
/// there are any, and what the recorded times are worth, but one at least.
pub proof fn theorem_default_workers_are_the_most_allowed(
    cores: int,
    files: Option<usize>,
    by_time: Option<usize>,
    n: int,
)
    requires
        n > 1,
    ensures
        n <= auto_count(cores, files, by_time) <==> n <= cores && (files matches Some(f) ==> f
            == 0 || n <= f) && (by_time matches Some(t) ==> n <= t),
        auto_count(cores, files, by_time) >= 1,
{
}

/// The report has the style that is asked for by name. Where none is asked for, more is
/// shown on demand, a bar on a terminal, and dots elsewhere.
pub proof fn theorem_report_styles(verbose: bool, terminal: bool)
    ensures
        mode_for(Some("bar"@), verbose, terminal) == (Mode::Bar, None::<Seq<char>>),
        mode_for(Some("verbose"@), verbose, terminal) == (Mode::Verbose, None::<Seq<char>>),
        mode_for(Some("dots"@), verbose, terminal) == (Mode::Dots, None::<Seq<char>>),
        mode_for(Some("github"@), verbose, terminal) == (Mode::Github, None::<Seq<char>>),
        mode_for(Some("json"@), verbose, terminal) == (Mode::Json, None::<Seq<char>>),
        mode_for(Some("tap"@), verbose, terminal) == (Mode::Tap, None::<Seq<char>>),
        mode_for(Some("teamcity"@), verbose, terminal) == (Mode::Teamcity, None::<Seq<char>>),
        mode_for(Some("gitlab"@), verbose, terminal) == (Mode::Gitlab, None::<Seq<char>>),
        mode_for(Some("buildkite"@), verbose, terminal) == (Mode::Buildkite, None::<Seq<char>>),
        mode_for(Some("azure"@), verbose, terminal) == (Mode::Azure, None::<Seq<char>>),
        mode_for(None, true, terminal) == (Mode::Verbose, None::<Seq<char>>),
        mode_for(None, false, true) == (Mode::Bar, None::<Seq<char>>),
        mode_for(None, false, false) == (Mode::Dots, None::<Seq<char>>),
{
    reveal_strlit("bar");
    reveal_strlit("verbose");
    reveal_strlit("dots");
    reveal_strlit("github");
    reveal_strlit("json");
    reveal_strlit("tap");
    reveal_strlit("teamcity");
    reveal_strlit("gitlab");
    reveal_strlit("buildkite");
    reveal_strlit("azure");
    assert("bar"@.len() == 3);
    assert("verbose"@.len() == 7);
    assert("dots"@.len() == 4);
    assert("github"@.len() == 6);
    assert("json"@.len() == 4);
    assert("tap"@.len() == 3);
    assert("teamcity"@.len() == 8);
    assert("gitlab"@.len() == 6);
    assert("buildkite"@.len() == 9);
    assert("azure"@.len() == 5);
    assert("bar"@[0] == 'b');
    assert("tap"@[0] == 't');
    assert("dots"@[0] == 'd');
    assert("json"@[0] == 'j');
    assert("github"@[3] == 'h');
    assert("gitlab"@[3] == 'l');
}

/// A style of an unknown name is complained of, and dots are shown. The command line goes
/// before the settings.
pub proof fn theorem_unknown_styles_show_dots(
    name: Seq<char>,
    verbose: bool,
    terminal: bool,
    other: Option<Seq<char>>,
)
    requires
        name != "bar"@,
        name != "verbose"@,
        name != "dots"@,
        name != "github"@,
        name != "json"@,
        name != "tap"@,
        name != "teamcity"@,
        name != "gitlab"@,
        name != "buildkite"@,
        name != "azure"@,
    ensures
        mode_for(Some(name), verbose, terminal).0 == Mode::Dots,
        mode_for(Some(name), verbose, terminal).1 is Some,
        contains_sub(mode_for(Some(name), verbose, terminal).1->0, name),
        either(Some(name), other) == Some(name),
        either(None, other) == other,
{
    let t = unknown_output_text(name);
    let n = "rstest: unknown --output '"@.len() as int;
    assert(t.subrange(n, n + name.len()) =~= name);
    assert(crate::text::occurs_at(t, name, n));
}

/// A dash with one `v` or more, and the word written out, ask for more; two of either ask
/// for all. Nothing else does.
pub proof fn theorem_verbosity_is_asked_for(args: Seq<Seq<char>>, i: int, a: Seq<char>)
    requires
        0 <= i < args.len(),
        args[i] == a,
    ensures
        a == "--verbose"@ ==> verbose_in(args),
        a.len() >= 2 && a[0] == '-' && (forall|k: int| 1 <= k < a.len() ==> #[trigger] a[k] == 'v')
            ==> verbose_in(args),
        a.len() >= 3 && a[0] == '-' && (forall|k: int| 1 <= k < a.len() ==> #[trigger] a[k] == 'v')
            ==> very_verbose_in(args),
        verbose_in(args) ==> exists|j: int|
            0 <= j < args.len() && ((#[trigger] args[j]) == "--verbose"@ || args[j].len() >= 2
                && args[j][0] == '-' && args[j][1] == 'v' && args[j].last() == 'v'),
{
    reveal_strlit("-v");
    reveal_strlit("-vv");
    if a.len() >= 2 && a[0] == '-' && (forall|k: int| 1 <= k < a.len() ==> #[trigger] a[k] == 'v') {
        assert(a.subrange(0, 2) =~= "-v"@);
        if a.len() >= 3 {
            assert(a.subrange(0, 3) =~= "-vv"@);
        }
    }
    if verbose_in(args) {
        let j = choose|j: int|
            0 <= j < args.len() && ((#[trigger] args[j]) == "--verbose"@ || v_flag(args[j], "-v"@));
        if args[j] != "--verbose"@ {
            let b = args[j];
            assert(b.subrange(0, 2)[0] == b[0]);
            assert(b[1] == 'v');
            assert(b[b.len() - 1] == 'v');
        }
    }
}

/// The word written out twice asks for all, once does not.
pub proof fn theorem_verbose_counts(args: Seq<Seq<char>>, i: int, j: int)
    requires
        0 <= i < j < args.len(),
        args[i] == "--verbose"@,
        args[j] == "--verbose"@,
    ensures
        very_verbose_in(args),
{
    lemma_verbose_count(args, i, j);
}

proof fn lemma_verbose_count(args: Seq<Seq<char>>, i: int, j: int)
    requires
        -1 <= i < j < args.len(),
        i >= 0 ==> args[i] == "--verbose"@,
        args[j] == "--verbose"@,
    ensures
        verbose_count(args) >= (if i >= 0 {
            2int
        } else {
            1
        }),
    decreases args.len(),
{
    let init = args.drop_last();
    if j < args.len() - 1 {
        assert(init[j] == args[j]);
        if i >= 0 {
            assert(init[i] == args[i]);
        }
        lemma_verbose_count(init, i, j);
    } else if i >= 0 {
        assert(init[i] == args[i]);
        lemma_verbose_count(init, -1, i);
    }
}

/// Tests are collected by all workers or file by file, as the name says. File by file is
/// refused where tests are handed out by scope, by group or to every worker, and given up
/// where single tests are named. Every other name is refused.
pub proof fn theorem_collection_by_name(name: Seq<char>, dist: Dist, args: Seq<Seq<char>>)
    ensures
        collection_for("full"@, dist, args) == Ok::<Collection, Seq<char>>(Collection::Full),
        collection_for("lazy"@, Dist::Loadscope, args) is Err,
        collection_for("lazy"@, Dist::Loadgroup, args) is Err,
        collection_for("lazy"@, Dist::Each, args) is Err,
        (dist == Dist::Load || dist == Dist::Loadfile) ==> collection_for("lazy"@, dist, args) is Ok,
        (dist == Dist::Load || dist == Dist::Loadfile) ==> (collection_for("lazy"@, dist, args)
            == Ok::<Collection, Seq<char>>(Collection::FallBack) <==> exists|i: int|
            0 <= i < args.len() && (contains_sub(#[trigger] args[i], "::"@) || args[i]
                == "--pyargs"@)),
        collection_for("lazy"@, dist, args) != Ok::<Collection, Seq<char>>(Collection::Full),
        name != "full"@ && name != "lazy"@ ==> collection_for(name, dist, args) is Err,
{
    reveal_strlit("full");
    reveal_strlit("lazy");
    assert("full"@.len() == 4);
    assert("lazy"@.len() == 4);
    assert("full"@[0] == 'f');
    assert("lazy"@[0] == 'l');
}

/// Tests are shuffled just where that is asked for, and then by the number that is given,
/// or by a random one. It is refused for a single worker, where the session has the
/// terminal, file by file, and where every worker runs all tests.
pub proof fn theorem_shuffling(
    p: Plan,
    collection: Result<Collection, Seq<char>>,
    random: u64,
    n: nat,
)
    requires
        n <= u64::MAX,
    ensures
        seed_for(None, p, collection, random) == Ok::<Option<nat>, Seq<char>>(None),
        p.workers > 1 && !p.passthrough && p.dist != Dist::Each && (collection matches Ok(c) && c
            != Collection::Lazy) ==> {
            &&& seed_for(Some(decimal(n)), p, collection, random) == Ok::<Option<nat>, Seq<char>>(
                Some(n),
            )
            &&& seed_for(Some("random"@), p, collection, random) == Ok::<Option<nat>, Seq<char>>(
                Some(random as nat),
            )
        },
        forall|v: Seq<char>|
            #![trigger seed_for(Some(v), p, collection, random)]
            p.workers <= 1 || p.passthrough || p.dist == Dist::Each || collection is Err
                || collection == Ok::<Collection, Seq<char>>(Collection::Lazy) ==> seed_for(
                Some(v),
                p,
                collection,
                random,
            ) is Err,
        forall|v: Seq<char>|
            #![trigger seed_for(Some(v), p, collection, random)]
            v != "random"@ && number_up_to(v, u64::MAX as nat) is None ==> seed_for(
                Some(v),
                p,
                collection,
                random,
            ) is Err,
{
    crate::numbers::theorem_only_digits_are_a_number(decimal(n), u64::MAX as nat);
    crate::numbers::theorem_decimal_reads_back(n);
    reveal_strlit("random");
    assert("random"@[0] == 'r');
    assert(crate::text::is_digit(decimal(n)[0]));
}

/// One part of a suite runs just where that is asked for, and it is the part that was
/// asked for. A single part is the whole. It is refused for a single worker, where the
/// session has the terminal, for shuffled tests, and where every worker runs all tests.
pub proof fn theorem_sharding(p: Plan, k: usize, total: usize, shuffled: bool)
    ensures
        shard_for(None, p, shuffled) == Ok::<Option<(usize, usize)>, Seq<char>>(None),
        shard_for(Some((k, 1usize)), p, shuffled) == Ok::<Option<(usize, usize)>, Seq<char>>(None),
        total != 1 && p.workers > 1 && !p.passthrough && !shuffled && p.dist != Dist::Each
            ==> shard_for(Some((k, total)), p, shuffled) == Ok::<
            Option<(usize, usize)>,
            Seq<char>,
        >(Some((k, total))),
        total != 1 && (p.workers <= 1 || p.passthrough || shuffled || p.dist == Dist::Each)
            ==> shard_for(Some((k, total)), p, shuffled) is Err,
{
}

/// More than one worker means a pool, and so does one that runs tests again; a session
/// that has the terminal, and a single worker that runs nothing again, are one session.
/// What is refused of the collection is refused of a pool only.
pub proof fn theorem_ways_to_run(p: Plan, collection: Result<Collection, Seq<char>>)
    ensures
        p.passthrough ==> route_for(p, collection) == Ok::<Route, Seq<char>>(Route::Session(true)),
        !p.passthrough && p.workers <= 1 && !p.rerun_pool ==> route_for(p, collection) == Ok::<
            Route,
            Seq<char>,
        >(Route::Session(false)),
        !p.passthrough && (p.workers > 1 || p.rerun_pool) ==> match collection {
            Err(t) => route_for(p, collection) == Err::<Route, Seq<char>>(t),
            Ok(Collection::Lazy) => route_for(p, collection) == Ok::<Route, Seq<char>>(
                Route::Lazy,
            ),
            Ok(_) => if p.dist == Dist::Each && p.reruns > 0 {
                route_for(p, collection) is Err
            } else {
                route_for(p, collection) == Ok::<Route, Seq<char>>(Route::Pool)
            },
        },
{
}

/// A run says how many workers it has, and which of the three ways it takes; a stream of
/// results begins with its own first line, or with none.
pub proof fn theorem_first_line_says_how(p: Plan, mode: Mode, version: Seq<char>)
    ensures
        p.passthrough || mode == Mode::Json <==> first_line(p, mode, version) is None,
        !p.passthrough && mode == Mode::Tap ==> first_line(p, mode, version) == Some(
            "TAP version 13"@,
        ),
        !p.passthrough && mode != Mode::Json && mode != Mode::Tap ==> first_line(p, mode, version)
            == Some("rstest "@ + version + " — "@ + workers_text(p)),
        p.rerun_pool ==> contains_sub(workers_text(p), "rerun pool"@),
        !p.rerun_pool && p.workers <= 1 ==> contains_sub(workers_text(p), "pytest-exact"@),
        !p.rerun_pool && p.workers > 1 ==> crate::text::starts(
            workers_text(p),
            decimal(p.workers as nat) + " workers"@,
        ),
{
    reveal_strlit("rerun pool");
    reveal_strlit("pytest-exact");
    reveal_strlit(" workers");
    reveal_strlit("single worker (rerun pool; not byte-exact)");
    reveal_strlit("single worker (pytest-exact mode)");
    reveal_strlit(" workers (parallel by default; -n 0 for single-worker mode)");
    let a = "single worker (rerun pool; not byte-exact)"@;
    assert(a.subrange(15, 25) =~= "rerun pool"@);
    assert(crate::text::occurs_at(a, "rerun pool"@, 15));
    let b = "single worker (pytest-exact mode)"@;
    assert(b.subrange(15, 27) =~= "pytest-exact"@);
    assert(crate::text::occurs_at(b, "pytest-exact"@, 15));
    let d = decimal(p.workers as nat);
    let w = d + " workers (parallel by default; -n 0 for single-worker mode)"@;
    let head = d + " workers"@;
    assert(w.subrange(0, head.len() as int) =~= head);
}

/// How many workers there are where files are handed out.
pub open spec fn workers_for_files(workers: int, files: int) -> int {
    least(
        workers,
        if files < 1 {
            1
        } else {
            files
        },
    )
}

/// Whether workers take tests from each other.
pub open spec fn is_stealing(cli: Option<Seq<char>>, settings: Option<Seq<char>>) -> bool {
    cli == Some("load"@) || settings == Some("load"@)
}

/// Whether `res` is the first pattern that cannot be read.
pub open spec fn first_unreadable(res: Option<usize>, patterns: Seq<Seq<char>>) -> bool {
    match res {
        Some(i) => i < patterns.len() && regex_search(patterns[i as int], ""@) is None && forall|j: int|
            0 <= j < i ==> regex_search(#[trigger] patterns[j], ""@) is Some,
        None => forall|j: int|
            0 <= j < patterns.len() ==> regex_search(#[trigger] patterns[j], ""@) is Some,
    }
}

/// No worker is without a file, and there is one at least.
pub proof fn theorem_no_worker_without_a_file(workers: int, files: int)
    requires
        workers >= 1,
    ensures
        workers_for_files(workers, files) >= 1,
        files >= 1 ==> workers_for_files(workers, files) <= files,
        workers_for_files(workers, files) <= workers,
        files >= workers ==> workers_for_files(workers, files) == workers,
        1 <= files <= workers ==> workers_for_files(workers, files) == files,
{
}

/// Workers take tests from each other only where handing them out one by one is asked for by
/// name.
pub proof fn theorem_taking_is_asked_for(name: Seq<char>, other: Option<Seq<char>>)
    ensures
        is_stealing(Some("load"@), other) && is_stealing(other, Some("load"@)),
        !is_stealing(None, None),
        name != "load"@ ==> !is_stealing(Some(name), None) && !is_stealing(None, Some(name)),
{
}

/// A pattern that cannot be read is found where there is one.
pub proof fn theorem_unreadable_patterns_are_found(
    res: Option<usize>,
    patterns: Seq<Seq<char>>,
    k: int,
)
    requires
        first_unreadable(res, patterns),
        0 <= k < patterns.len(),
        regex_search(patterns[k], ""@) is None,
    ensures
        res matches Some(i) && i <= k,
{
}

/// Why tests cannot be shuffled or split: one worker, or a session that has the terminal, has
/// its own order; workers that run all tests have no queue; and files are not collected before
/// they are handed out.
pub proof fn theorem_why_tests_are_not_shuffled(
    p: Plan,
    collection: Result<Collection, Seq<char>>,
    shuffled: bool,
)
    ensures
        shuffle_refusal(p, collection) is None <==> p.workers >= 2 && !p.passthrough && (
        collection matches Ok(c) && c != Collection::Lazy) && p.dist != Dist::Each,
        p.workers >= 2 && !p.passthrough ==> (collection matches Err(t) ==> shuffle_refusal(
            p,
            collection,
        ) == Some(t)),
        shard_refusal(p, shuffled) is None <==> p.workers >= 2 && !p.passthrough && !shuffled
            && p.dist != Dist::Each,
{
}

/// Running tests again is said to be left out where the session has the terminal.
pub proof fn theorem_what_is_said_of_reruns(p: Plan)
    ensures
        p.reruns > 0 && p.passthrough ==> rerun_notes(p).len() == 1,
        p.reruns == 0 && !p.rerun_pool ==> rerun_notes(p).len() == 0,
{
}

} // verus!
