//! Where a project's cached files are, and how they are written safely.

use crate::numbers::{dec, decimal, hex, hexadecimal};
use crate::paths::{joined_path, lemma_joined_name, path_join, plain_name};
use vstd::prelude::*;

verus! {

/// The cache directory of a project.
pub open spec fn dir_name() -> Seq<char> {
    ".rstest_cache"@
}

/// The cache directory: the one that is set, or the default one.
pub open spec fn cache_dir(set: Option<Seq<char>>) -> Seq<char> {
    match set {
        Some(p) => p,
        None => dir_name(),
    }
}

/// The cache directory, given what is set.
pub open spec fn dir_given(set: Option<&str>) -> Seq<char> {
    cache_dir(
        match set {
            Some(p) => Some(p@),
            None => None,
        },
    )
}

/// The cache directory, given what `RSTEST_CACHE` is set to.
pub fn dir(set: Option<&str>) -> (res: String)
    ensures
        res@ == dir_given(set),
{
    match set {
        Some(p) => p.to_owned(),
        None => ".rstest_cache".to_owned(),
    }
}

/// A file in the cache directory, given what `RSTEST_CACHE` is set to.
pub fn file(set: Option<&str>, name: &str, windows: bool) -> (res: String)
    ensures
        res@ == cached_file(dir_given(set), name@, windows),
{
    path_join(windows, dir(set).as_str(), name)
}

/// A file in the cache directory of one project, whatever is set.
pub fn file_in(project: &str, name: &str, windows: bool) -> (res: String)
    ensures
        res@ == cached_file(joined_path(windows, project@, dir_name()), name@, windows),
{
    path_join(windows, path_join(windows, project, ".rstest_cache").as_str(), name)
}

/// The cache directory that is handed to one of several projects: its own
/// directory under the one that is set, and none where none is set.
pub fn mono_override(root: &str, slug: &str, set: Option<&str>, windows: bool) -> (res: Option<
    String,
>)
    ensures
        match set {
            Some(base) => res is Some && res.unwrap()@ == project_cache(
                root@,
                base@,
                slug@,
                windows,
            ),
            None => res is None,
        },
{
    match set {
        Some(base) => Some(path_join(windows, path_join(windows, root, base).as_str(), slug)),
        None => None,
    }
}

/// Runs `f` while a lock on `dir` is held: it is handed what `acquire` gave, which is
/// let go only when `f` is done. Where no lock can be had, whatever `acquire` gave,
/// `f` runs all the same.
pub fn with_lock_in<T, G, A: FnOnce(&str) -> G, F: FnOnce(&G) -> T>(
    dir: &str,
    acquire: A,
    f: F,
) -> (res: T)
    requires
        call_requires(acquire, (dir,)),
        forall|g: G| #[trigger] call_ensures(acquire, (dir,), g) ==> call_requires(f, (&g,)),
    ensures
        exists|g: G| #[trigger]
            call_ensures(acquire, (dir,), g) && call_ensures(f, (&g,), res),
{
    let guard = acquire(dir);
    f(&guard)
}

/// Runs `f` while a lock on the cache directory is held, given what
/// `RSTEST_CACHE` is set to.
pub fn with_lock<T, G, A: FnOnce(&str) -> G, F: FnOnce(&G) -> T>(
    set: Option<&str>,
    acquire: A,
    f: F,
) -> (res: T)
    requires
        forall|d: &str| d@ == dir_given(set) ==> #[trigger] call_requires(acquire, (d,)),
        forall|d: &str, g: G|
            d@ == dir_given(set) && #[trigger] call_ensures(acquire, (d,), g) ==> call_requires(
                f,
                (&g,),
            ),
    ensures
        exists|d: &str, g: G|
            d@ == dir_given(set) && #[trigger] call_ensures(acquire, (d,), g) && call_ensures(
                f,
                (&g,),
                res,
            ),
{
    let d = dir(set);
    with_lock_in(d.as_str(), acquire, f)
}

/// The name of the temporary file that is renamed over the file `name`.
pub open spec fn temporary(name: Seq<char>, pid: u32, nanos: u128, seq: u64) -> Seq<char> {
    "."@ + name + "."@ + decimal(pid as nat) + "."@ + hexadecimal(nanos as nat) + "."@
        + hexadecimal(seq as nat) + ".tmp"@
}

/// Names the temporary file that is renamed over a file: by the process, the
/// time, and a number counted up within the process.
pub fn temporary_name(name: &str, pid: u32, nanos: u128, seq: u64) -> (res: String)
    ensures
        res@ == temporary(name@, pid, nanos, seq),
{
    let mut out = String::from_str(".");
    out.append(name);
    out.append(".");
    out.append(dec(pid as u64).as_str());
    out.append(".");
    out.append(hex(nanos).as_str());
    out.append(".");
    out.append(hex(seq as u128).as_str());
    out.append(".tmp");
    out
}

/// Two pairs of texts that are the same with a dot between them are the same,
/// where there is no dot in the first ones.
proof fn lemma_cut_at_dot(a: Seq<char>, x: Seq<char>, b: Seq<char>, y: Seq<char>)
    requires
        !a.contains('.'),
        !b.contains('.'),
        a + "."@ + x == b + "."@ + y,
    ensures
        a == b,
        x == y,
{
    reveal_strlit(".");
    let s = a + "."@ + x;
    let t = b + "."@ + y;
    assert(s[a.len() as int] == '.');
    assert(t[b.len() as int] == '.');
    if a.len() < b.len() {
        assert(t[a.len() as int] == b[a.len() as int]);
    } else if b.len() < a.len() {
        assert(s[b.len() as int] == a[b.len() as int]);
    }
    assert(a =~= s.take(a.len() as int));
    assert(b =~= t.take(b.len() as int));
    assert(x =~= s.skip(a.len() as int + 1));
    assert(y =~= t.skip(b.len() as int + 1));
}

/// Two writers of a file never use the same temporary file, unless process, time
/// and number are all the same.
pub proof fn theorem_temporaries_differ(
    name: Seq<char>,
    pid: u32,
    nanos: u128,
    seq: u64,
    pid2: u32,
    nanos2: u128,
    seq2: u64,
)
    requires
        temporary(name, pid, nanos, seq) == temporary(name, pid2, nanos2, seq2),
    ensures
        pid == pid2,
        nanos == nanos2,
        seq == seq2,
{
    reveal_strlit(".");
    reveal_strlit(".tmp");
    let head = "."@ + name + "."@;
    let p = decimal(pid as nat);
    let q = decimal(pid2 as nat);
    let h = hexadecimal(nanos as nat);
    let k = hexadecimal(nanos2 as nat);
    let u = hexadecimal(seq as nat);
    let v = hexadecimal(seq2 as nat);
    crate::numbers::theorem_decimal_reads_back(pid as nat);
    crate::numbers::theorem_decimal_reads_back(pid2 as nat);
    crate::numbers::theorem_hexadecimal_is_injective(nanos as nat, nanos2 as nat);
    crate::numbers::theorem_hexadecimal_is_injective(nanos2 as nat, nanos as nat);
    crate::numbers::theorem_hexadecimal_is_injective(seq as nat, seq2 as nat);
    let a3 = u + ".tmp"@;
    let b3 = v + ".tmp"@;
    let a2 = h + "."@ + a3;
    let b2 = k + "."@ + b3;
    let a1 = p + "."@ + a2;
    let b1 = q + "."@ + b2;
    assert(temporary(name, pid, nanos, seq) =~= head + a1);
    assert(temporary(name, pid2, nanos2, seq2) =~= head + b1);
    assert(a1 =~= (head + a1).skip(head.len() as int));
    assert(b1 =~= (head + b1).skip(head.len() as int));
    lemma_cut_at_dot(p, a2, q, b2);
    lemma_cut_at_dot(h, a3, k, b3);
    assert(u =~= a3.take(a3.len() - 4));
    assert(v =~= b3.take(b3.len() - 4));
}

/// Projects with different names do not share a cache: below the directory that is
/// set, different names give different directories.
pub proof fn theorem_projects_do_not_share(
    windows: bool,
    root: Seq<char>,
    set: Seq<char>,
    a: Seq<char>,
    b: Seq<char>,
)
    requires
        a != b,
        windows ==> plain_name(a) && plain_name(b),
        a.len() == 0 || a[0] != '/',
        b.len() == 0 || b[0] != '/',
    ensures
        joined_path(windows, joined_path(windows, root, set), a) != joined_path(
            windows,
            joined_path(windows, root, set),
            b,
        ),
{
    let base = joined_path(windows, root, set);
    let x = joined_path(windows, base, a);
    let y = joined_path(windows, base, b);
    if windows {
        lemma_joined_name(windows, base, a);
        lemma_joined_name(windows, base, b);
    }
    if x == y {
        let n = x.len() - a.len();
        assert(x.skip(n) =~= a);
        assert(y.skip(n) =~= b);
    }
}

/// What is remembered lies below the directory that is set, and else in a directory of the
/// project's own.
pub proof fn theorem_where_things_are_remembered(p: Seq<char>)
    ensures
        cache_dir(Some(p)) == p,
        cache_dir(None) == ".rstest_cache"@,
{
}

/// Where a file of a cache lies.
pub open spec fn cached_file(dir: Seq<char>, name: Seq<char>, windows: bool) -> Seq<char> {
    joined_path(windows, dir, name)
}

/// Where the cache of a project lies, below the directory that is set.
pub open spec fn project_cache(
    root: Seq<char>,
    set: Seq<char>,
    slug: Seq<char>,
    windows: bool,
) -> Seq<char> {
    joined_path(windows, joined_path(windows, root, set), slug)
}

/// A file lies in the cache by its name, and the cache of a project below what is set, by the
/// name of the project: different names do not meet.
pub proof fn theorem_names_do_not_meet(
    root: Seq<char>,
    set: Seq<char>,
    a: Seq<char>,
    b: Seq<char>,
)
    requires
        a != b,
        a.len() == 0 || a[0] != '/',
        b.len() == 0 || b[0] != '/',
        root.len() > 0 && root.last() != '/',
        set.len() > 0 && set[0] != '/' && set.last() != '/',
    ensures
        project_cache(root, set, a, false) == root + seq!['/'] + set + seq!['/'] + a,
        project_cache(root, set, a, false) != project_cache(root, set, b, false),
        cached_file(root, a, false) == root + seq!['/'] + a,
        cached_file(root, a, false) != cached_file(root, b, false),
{
    theorem_projects_do_not_share(false, root, set, a, b);
    crate::paths::theorem_paths_below_a_base(root, set);
    let base = root + seq!['/'] + set;
    assert(base.last() == set.last());
    crate::paths::theorem_paths_below_a_base(base, a);
    crate::paths::theorem_paths_below_a_base(root, a);
    crate::paths::theorem_paths_below_a_base(root, b);
    let x = root + seq!['/'] + a;
    let y = root + seq!['/'] + b;
    assert(x.skip(root.len() as int + 1) =~= a);
    assert(y.skip(root.len() as int + 1) =~= b);
}

} // verus!
