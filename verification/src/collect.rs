//! Which files hold tests.

use crate::config::ProjectConfig;
use crate::order::text_lt;
use crate::ordered_map::{OrderedKey, OrderedMap};
use crate::paths::{
    components, components_of, file_name, file_name_of, has_prefix, is_prefixed, joined_path,
    path_join, prefix_key, root_part, write_prefix_key,
};
use crate::text::{concat_all, concat_texts, ends, ends_with, str_eq, texts, to_chars};
use vstd::prelude::*;

verus! {

broadcast use crate::text::lemma_texts_push;

/// Whether a pattern matches a whole name: `*` stands for any run of
/// characters, `?` for any one, and everything else for itself.
pub open spec fn glob(p: Seq<char>, n: Seq<char>) -> bool
    decreases p.len() + n.len(),
{
    if p.len() == 0 {
        n.len() == 0
    } else if p[0] == '*' {
        glob(p.skip(1), n) || (n.len() > 0 && glob(p, n.skip(1)))
    } else {
        n.len() > 0 && (p[0] == '?' || p[0] == n[0]) && glob(p.skip(1), n.skip(1))
    }
}

/// A leading `*` matches just when the rest of the pattern matches what is left
/// after some run of characters.
pub proof fn theorem_star_matches_any_run(p: Seq<char>, n: Seq<char>)
    requires
        p.len() > 0,
        p[0] == '*',
    ensures
        glob(p, n) == exists|k: int| 0 <= k <= n.len() && #[trigger] glob(p.skip(1), n.skip(k)),
    decreases n.len(),
{
    assert(n.skip(0) =~= n);
    if n.len() > 0 {
        theorem_star_matches_any_run(p, n.skip(1));
        if glob(p, n.skip(1)) {
            let k = choose|k: int|
                0 <= k <= n.skip(1).len() && #[trigger] glob(p.skip(1), n.skip(1).skip(k));
            assert(n.skip(1).skip(k) =~= n.skip(k + 1));
            assert(glob(p.skip(1), n.skip(k + 1)));
        }
        if exists|k: int| 0 <= k <= n.len() && #[trigger] glob(p.skip(1), n.skip(k)) {
            let k = choose|k: int| 0 <= k <= n.len() && #[trigger] glob(p.skip(1), n.skip(k));
            if k > 0 {
                assert(n.skip(1).skip(k - 1) =~= n.skip(k));
                assert(glob(p.skip(1), n.skip(1).skip(k - 1)));
            }
        }
    }
    if glob(p.skip(1), n) {
        assert(glob(p.skip(1), n.skip(0)));
    }
}

/// Matches a pattern of `*`, `?` and plain characters against a whole name.
pub fn glob_match(pattern: &str, name: &str) -> (res: bool)
    ensures
        res == glob(pattern@, name@),
{
    let p = to_chars(pattern);
    let n = to_chars(name);
    proof {
        assert(p@.skip(0) =~= p@);
        assert(n@.skip(0) =~= n@);
    }
    glob_from(&p, 0, &n, 0)
}

fn glob_from(p: &Vec<char>, i: usize, n: &Vec<char>, j: usize) -> (res: bool)
    requires
        i <= p.len(),
        j <= n.len(),
    ensures
        res == glob(p@.skip(i as int), n@.skip(j as int)),
    decreases (p.len() - i) + (n.len() - j),
{
    let ghost ps = p@.skip(i as int);
    let ghost ns = n@.skip(j as int);
    if i == p.len() {
        return j == n.len();
    }
    proof {
        assert(ps.skip(1) =~= p@.skip(i + 1));
        if j < n.len() {
            assert(ns.skip(1) =~= n@.skip(j + 1));
        }
    }
    if p[i] == '*' {
        glob_from(p, i + 1, n, j) || (j < n.len() && glob_from(p, i, n, j + 1))
    } else {
        j < n.len() && (p[i] == '?' || p[i] == n[j]) && glob_from(p, i + 1, n, j + 1)
    }
}

/// Whether a path names a Python file that one of the patterns matches.
pub open spec fn test_file(windows: bool, path: Seq<char>, patterns: Seq<Seq<char>>) -> bool {
    match file_name_of(windows, path) {
        Some(name) => ends(name, ".py"@) && exists|i: int|
            0 <= i < patterns.len() && glob(#[trigger] patterns[i], name),
        None => false,
    }
}

/// Whether a path is a test file of the project.
#[verifier::loop_isolation(false)]
pub fn is_test_file(path: &str, cfg: &ProjectConfig, windows: bool) -> (res: bool)
    ensures
        res == test_file(windows, path@, texts(cfg.python_files@)),
{
    let name = match file_name(windows, path) {
        Some(name) => name,
        None => {
            return false;
        },
    };
    if !ends_with(name.as_str(), ".py") {
        return false;
    }
    let ghost patterns = texts(cfg.python_files@);
    let mut i: usize = 0;
    while i < cfg.python_files.len()
        invariant
            i <= cfg.python_files.len(),
            patterns == texts(cfg.python_files@),
            forall|j: int| 0 <= j < i ==> !glob(#[trigger] patterns[j], name@),
        decreases cfg.python_files.len() - i,
    {
        assert(patterns[i as int] == cfg.python_files@[i as int]@);
        if glob_match(cfg.python_files[i].as_str(), name.as_str()) {
            return true;
        }
        i += 1;
    }
    false
}

/// Where collection begins: the given paths, else the project's test paths
/// below its root, else the root.
pub open spec fn roots_of(
    windows: bool,
    paths: Seq<Seq<char>>,
    rootdir: Seq<char>,
    testpaths: Seq<Seq<char>>,
) -> Seq<Seq<char>> {
    if paths.len() > 0 {
        paths
    } else if testpaths.len() > 0 {
        Seq::new(testpaths.len(), |i: int| joined_path(windows, rootdir, testpaths[i]))
    } else {
        seq![rootdir]
    }
}

/// Where collection begins.
pub fn collection_roots(paths: &[String], cfg: &ProjectConfig, windows: bool) -> (res: Vec<String>)
    ensures
        texts(res@) == roots_of(windows, texts(paths@), cfg.rootdir@, texts(cfg.testpaths@)),
{
    if paths.len() > 0 {
        let out = crate::text::clone_texts(paths);
        return out;
    }
    let mut out: Vec<String> = Vec::new();
    if cfg.testpaths.len() == 0 {
        out.push(cfg.rootdir.clone());
        assert(texts(out@) =~= seq![cfg.rootdir@]);
        return out;
    }
    let ghost want = roots_of(windows, texts(paths@), cfg.rootdir@, texts(cfg.testpaths@));
    let mut i: usize = 0;
    while i < cfg.testpaths.len()
        invariant
            i <= cfg.testpaths.len(),
            want == Seq::new(
                cfg.testpaths@.len(),
                |j: int| joined_path(windows, cfg.rootdir@, texts(cfg.testpaths@)[j]),
            ),
            texts(out@) == want.take(i as int),
        decreases cfg.testpaths.len() - i,
    {
        out.push(path_join(windows, cfg.rootdir.as_str(), cfg.testpaths[i].as_str()));
        i += 1;
        assert(texts(out@) =~= want.take(i as int));
    }
    assert(want.take(i as int) =~= want);
    out
}

/// A directory named so is never searched for tests.
pub open spec fn pruned_dir(name: Seq<char>) -> bool {
    name == "__pycache__"@
}

/// Whether the walk goes into an entry: not into bytecode caches, and not into
/// virtual environments.
pub fn walks_into(name: &str, is_virtualenv: bool) -> (res: bool)
    ensures
        res == walked(name@, is_virtualenv),
{
    !crate::text::str_eq(name, "__pycache__") && !is_virtualenv
}

/// How a component of a path is ordered among others: the root first, then the
/// directory itself, then the one above, then names.
pub open spec fn component_rank(windows: bool, c: Seq<char>) -> Seq<char> {
    if c == root_part(windows) {
        "\u{1}"@
    } else if c == "."@ {
        "\u{2}"@
    } else if c == ".."@ {
        "\u{3}"@
    } else {
        "\u{4}"@
    }
}

/// What a component of a path is ordered by: it ends below all characters of names.
pub open spec fn component_key(windows: bool, c: Seq<char>) -> Seq<char> {
    component_rank(windows, c) + c + "\0"@
}

/// What a path is ordered by: its components one after the other. Two paths with
/// the same components are one.
pub open spec fn path_key(windows: bool, path: Seq<char>) -> Seq<char> {
    let c = components_of(windows, path);
    concat_all(
        Seq::new(
            c.len(),
            |i: int|
                if i == 0 && has_prefix(windows, path) {
                    prefix_key(c[i])
                } else {
                    component_key(windows, c[i])
                },
        ),
    )
}

/// Writes what a path is ordered by.
pub fn write_key(windows: bool, path: &str) -> (res: String)
    ensures
        res@ == path_key(windows, path@),
{
    let c = components(windows, path);
    let prefixed = is_prefixed(windows, path);
    let root = if windows { "\\" } else { "/" };
    let ghost want = Seq::new(
        components_of(windows, path@).len(),
        |i: int|
            if i == 0 && has_prefix(windows, path@) {
                prefix_key(components_of(windows, path@)[i])
            } else {
                component_key(windows, components_of(windows, path@)[i])
            },
    );
    let mut keys: Vec<String> = Vec::new();
    let mut i: usize = 0;
    while i < c.len()
        invariant
            i <= c.len(),
            texts(c@) == components_of(windows, path@),
            prefixed == has_prefix(windows, path@),
            root@ == root_part(windows),
            want.len() == c@.len(),
            forall|j: int|
                0 <= j < want.len() ==> #[trigger] want[j] == (if j == 0 && has_prefix(
                    windows,
                    path@,
                ) {
                    prefix_key(components_of(windows, path@)[j])
                } else {
                    component_key(windows, components_of(windows, path@)[j])
                }),
            keys.len() == i,
            forall|j: int| 0 <= j < i ==> (#[trigger] keys@[j])@ == want[j],
        decreases c.len() - i,
    {
        let name = c[i].as_str();
        assert(components_of(windows, path@)[i as int] == name@);
        if i == 0 && prefixed {
            keys.push(write_prefix_key(name));
        } else {
            let mut key = if str_eq(name, root) {
                String::from_str("\u{1}")
            } else if str_eq(name, ".") {
                String::from_str("\u{2}")
            } else if str_eq(name, "..") {
                String::from_str("\u{3}")
            } else {
                String::from_str("\u{4}")
            };
            key.append(name);
            key.append("\0");
            keys.push(key);
        }
        i += 1;
    }
    assert(texts(keys@) =~= want);
    concat_texts(keys.as_slice())
}

/// Whether the file at a position is the first test file with its components.
pub open spec fn first_of_its_kind(
    windows: bool,
    found: Seq<Seq<char>>,
    patterns: Seq<Seq<char>>,
    i: int,
) -> bool {
    &&& 0 <= i < found.len()
    &&& test_file(windows, found[i], patterns)
    &&& forall|j: int|
        0 <= j < i && test_file(windows, #[trigger] found[j], patterns) ==> path_key(windows, found[j]) != path_key(
            windows,
            found[i],
        )
}

/// Whether a map holds the test files among the first `n` that were found, each once.
spec fn holds_files(
    windows: bool,
    m: Map<Seq<char>, String>,
    found: Seq<Seq<char>>,
    patterns: Seq<Seq<char>>,
    n: int,
) -> bool {
    &&& forall|i: int|
        0 <= i < n && #[trigger] first_of_its_kind(windows, found, patterns, i) ==> m.contains_key(
            path_key(windows, found[i]),
        ) && m[path_key(windows, found[i])]@ == found[i]
    &&& forall|k: Seq<char>| #[trigger]
        m.contains_key(k) ==> exists|i: int|
            i < n && #[trigger] first_of_its_kind(windows, found, patterns, i) && path_key(windows, found[i]) == k
}

/// Whether paths are in the order of their components, none twice.
pub open spec fn paths_ascend(windows: bool, v: Seq<Seq<char>>) -> bool {
    forall|i: int, j: int|
        0 <= i < j < v.len() ==> text_lt(path_key(windows, #[trigger] v[i]), path_key(windows, #[trigger] v[j]))
}

/// Whether a file is in a list.
pub open spec fn file_listed(v: Seq<Seq<char>>, f: Seq<char>) -> bool {
    exists|i: int| 0 <= i < v.len() && #[trigger] v[i] == f
}

/// Whether a file is one of the test files that were found.
pub open spec fn picked_from(
    windows: bool,
    found: Seq<Seq<char>>,
    patterns: Seq<Seq<char>>,
    f: Seq<char>,
) -> bool {
    exists|i: int| #[trigger] first_of_its_kind(windows, found, patterns, i) && found[i] == f
}

/// Picks the test files among the files that were found, in the order of their
/// components, each once.
pub fn pick_test_files(found: &[String], cfg: &ProjectConfig, windows: bool) -> (res: Vec<String>)
    ensures
        paths_ascend(windows, texts(res@)),
        forall|i: int| #[trigger]
            first_of_its_kind(windows, texts(found@), texts(cfg.python_files@), i) ==> file_listed(
                texts(res@),
                texts(found@)[i],
            ),
        forall|k: int|
            0 <= k < res@.len() ==> picked_from(
                windows,
                texts(found@),
                texts(cfg.python_files@),
                #[trigger] texts(res@)[k],
            ),
{
    let ghost all = texts(found@);
    let ghost patterns = texts(cfg.python_files@);
    let mut map: OrderedMap<String, String> = OrderedMap::new();
    let mut i: usize = 0;
    while i < found.len()
        invariant
            i <= found.len(),
            all == texts(found@),
            patterns == texts(cfg.python_files@),
            holds_files(windows, map@, all, patterns, i as int),
        decreases found.len() - i,
    {
        let ghost before = map@;
        assert(all[i as int] == found@[i as int]@);
        if is_test_file(found[i].as_str(), cfg, windows) {
            let key = write_key(windows, found[i].as_str());
            let ghost k = key@;
            if !map.contains_key(&key) {
                proof {
                    assert forall|j: int|
                        0 <= j < i && test_file(windows, #[trigger] all[j], patterns) implies path_key(windows, all[j])
                        != path_key(windows, all[i as int]) by {
                        if path_key(windows, all[j]) == k {
                            lemma_first_exists(windows, all, patterns, j);
                            let f = choose|f: int|
                                f <= j && #[trigger] first_of_its_kind(windows, all, patterns, f)
                                    && path_key(windows, all[f]) == path_key(windows, all[j]);
                            assert(map@.contains_key(path_key(windows, all[f])));
                        }
                    }
                    assert(first_of_its_kind(windows, all, patterns, i as int));
                }
                map.insert(key, found[i].clone());
                proof {
                    assert forall|x: Seq<char>| #[trigger] map@.contains_key(x) implies exists|j: int|
                        j < i + 1 && #[trigger] first_of_its_kind(windows, all, patterns, j) && path_key(
                            windows,
                            all[j],
                        ) == x by {
                        if x != k {
                            assert(before.contains_key(x));
                            let j = choose|j: int|
                                j < i && #[trigger] first_of_its_kind(windows, all, patterns, j) && path_key(
                                    windows,
                                    all[j],
                                ) == x;
                            assert(j < i + 1 && first_of_its_kind(windows, all, patterns, j));
                        }
                    }
                    assert forall|j: int|
                        0 <= j < i + 1 && #[trigger] first_of_its_kind(windows, all, patterns, j) implies
                        map@.contains_key(path_key(windows, all[j])) && map@[path_key(windows, all[j])]@ == all[j] by {
                        if j < i {
                            assert(before.contains_key(path_key(windows, all[j])));
                        }
                    }
                }
            } else {
                proof {
                    let f = choose|f: int|
                        f < i && #[trigger] first_of_its_kind(windows, all, patterns, f) && path_key(windows, all[f])
                            == k;
                    assert(!first_of_its_kind(windows, all, patterns, i as int)) by {
                        assert(test_file(windows, all[f], patterns));
                    }
                    assert forall|x: Seq<char>| #[trigger] map@.contains_key(x) implies exists|j: int|
                        j < i + 1 && #[trigger] first_of_its_kind(windows, all, patterns, j) && path_key(
                            windows,
                            all[j],
                        ) == x by {
                        let j = choose|j: int|
                            j < i && #[trigger] first_of_its_kind(windows, all, patterns, j) && path_key(
                                windows,
                                all[j],
                            ) == x;
                        assert(j < i + 1 && first_of_its_kind(windows, all, patterns, j));
                    }
                }
            }
        } else {
            proof {
                assert(!first_of_its_kind(windows, all, patterns, i as int));
                assert forall|x: Seq<char>| #[trigger] map@.contains_key(x) implies exists|j: int|
                    j < i + 1 && #[trigger] first_of_its_kind(windows, all, patterns, j) && path_key(windows, all[j])
                        == x by {
                    let j = choose|j: int|
                        j < i && #[trigger] first_of_its_kind(windows, all, patterns, j) && path_key(windows, all[j])
                            == x;
                    assert(j < i + 1 && first_of_its_kind(windows, all, patterns, j));
                }
            }
        }
        i += 1;
    }
    let n = map.len();
    let ghost list = map.list();
    let mut out: Vec<String> = Vec::new();
    let mut k: usize = 0;
    while k < n
        invariant
            k <= n,
            n == list.len(),
            list == map.list(),
            out.len() == k,
            forall|j: int| 0 <= j < k ==> (#[trigger] out@[j])@ == list[j].1@,
        decreases n - k,
    {
        out.push(map.at(k).1.clone());
        k += 1;
    }
    proof {
        let res = texts(out@);
        assert forall|a: int| 0 <= a < n implies picked_from(windows, all, patterns, #[trigger] res[a])
            && path_key(windows, res[a]) == list[a].0@ by {
            assert(map@.contains_key(list[a].0.model()));
            assert(map@[list[a].0.model()] == list[a].1);
            let i = choose|i: int|
                i < found.len() && #[trigger] first_of_its_kind(windows, all, patterns, i) && path_key(windows, all[i])
                    == list[a].0@;
            assert(map@[path_key(windows, all[i])]@ == all[i]);
            assert(res[a] == out@[a]@);
        }
        assert forall|a: int, b: int| 0 <= a < b < res.len() implies text_lt(
            path_key(windows, #[trigger] res[a]),
            path_key(windows, #[trigger] res[b]),
        ) by {
            assert(<String as OrderedKey>::before(list[a].0.model(), list[b].0.model()));
        }
        assert forall|i: int| #[trigger] first_of_its_kind(windows, all, patterns, i) implies file_listed(
            res,
            all[i],
        ) by {
            let key = path_key(windows, all[i]);
            assert(map@.contains_key(key));
            let a = choose|a: int| #[trigger] crate::ordered_map::key_at(list, a, key);
            assert(map@[list[a].0.model()] == list[a].1);
            assert(res[a] == out@[a]@);
        }
    }
    out
}

proof fn lemma_first_exists(windows: bool, found: Seq<Seq<char>>, patterns: Seq<Seq<char>>, j: int)
    requires
        0 <= j < found.len(),
        test_file(windows, found[j], patterns),
    ensures
        exists|f: int|
            f <= j && #[trigger] first_of_its_kind(windows, found, patterns, f) && path_key(windows, found[f])
                == path_key(windows, found[j]),
    decreases j,
{
    if !first_of_its_kind(windows, found, patterns, j) {
        let i = choose|i: int|
            0 <= i < j && test_file(windows, #[trigger] found[i], patterns) && path_key(windows, found[i])
                == path_key(windows, found[j]);
        lemma_first_exists(windows, found, patterns, i);
        let f = choose|f: int|
            f <= i && #[trigger] first_of_its_kind(windows, found, patterns, f) && path_key(windows, found[f])
                == path_key(windows, found[i]);
        assert(f <= j && first_of_its_kind(windows, found, patterns, f));
    } else {
        assert(j <= j && first_of_its_kind(windows, found, patterns, j));
    }
}

/// Whether the walk goes into a directory.
pub open spec fn walked(name: Seq<char>, is_virtualenv: bool) -> bool {
    !pruned_dir(name) && !is_virtualenv
}

/// The walk goes into every directory but caches of bytecode and virtual environments.
pub proof fn theorem_where_the_walk_goes(name: Seq<char>, is_virtualenv: bool)
    ensures
        walked(name, is_virtualenv) <==> name != "__pycache__"@ && !is_virtualenv,
{
}

/// A pattern without wildcards matches itself and nothing else; a question mark matches any
/// one character.
pub proof fn theorem_plain_patterns(p: Seq<char>, n: Seq<char>)
    ensures
        (forall|i: int| 0 <= i < p.len() ==> #[trigger] p[i] != '*' && p[i] != '?') ==> (glob(p, n)
            <==> p == n),
        glob(seq!['?'] + p, n) <==> n.len() > 0 && glob(p, n.skip(1)),
    decreases p.len(),
{
    let q = seq!['?'] + p;
    assert(q.skip(1) =~= p);
    if forall|i: int| 0 <= i < p.len() ==> #[trigger] p[i] != '*' && p[i] != '?' {
        if p.len() > 0 {
            let t = p.skip(1);
            assert forall|i: int| 0 <= i < t.len() implies #[trigger] t[i] != '*' && t[i] != '?' by {
                assert(t[i] == p[i + 1]);
            }
            assert(p[0] != '*' && p[0] != '?');
            if n.len() > 0 {
                theorem_plain_patterns(t, n.skip(1));
                if p[0] == n[0] && t == n.skip(1) {
                    assert forall|i: int| 0 <= i < p.len() implies p[i] == n[i] by {
                        if i > 0 {
                            assert(t[i - 1] == n.skip(1)[i - 1]);
                        }
                    }
                    assert(p =~= n);
                }
            }
        } else if n.len() == 0 {
            assert(p =~= n);
        }
    }
}

/// Plain text before a pattern matches itself.
pub proof fn theorem_plain_beginnings(a: Seq<char>, p: Seq<char>, n: Seq<char>)
    requires
        forall|i: int| 0 <= i < a.len() ==> #[trigger] a[i] != '*' && a[i] != '?',
    ensures
        glob(a + p, a + n) <==> glob(p, n),
        glob(a + p, n) ==> crate::text::starts(n, a),
    decreases a.len(),
{
    if a.len() == 0 {
        assert(a + p =~= p);
        assert(a + n =~= n);
        assert(n.subrange(0, 0) =~= a);
    } else {
        let t = a.skip(1);
        assert forall|i: int| 0 <= i < t.len() implies #[trigger] t[i] != '*' && t[i] != '?' by {
            assert(t[i] == a[i + 1]);
        }
        assert(a[0] != '*' && a[0] != '?');
        assert((a + p).skip(1) =~= t + p);
        assert((a + n).skip(1) =~= t + n);
        theorem_plain_beginnings(t, p, n);
        if glob(a + p, n) {
            theorem_plain_beginnings(t, p, n.skip(1));
            assert(n.skip(1).subrange(0, t.len() as int) == t);
            assert forall|i: int| 0 <= i < a.len() implies n[i] == a[i] by {
                if i > 0 {
                    assert(n.skip(1).subrange(0, t.len() as int)[i - 1] == t[i - 1]);
                }
            }
            assert(n.subrange(0, a.len() as int) =~= a);
        }
    }
}

/// A star with plain text after it matches what ends in that text.
pub proof fn theorem_plain_endings(x: Seq<char>, b: Seq<char>)
    requires
        forall|i: int| 0 <= i < b.len() ==> #[trigger] b[i] != '*' && b[i] != '?',
    ensures
        glob(seq!['*'] + b, x) <==> ends(x, b),
{
    let p = seq!['*'] + b;
    assert(p.skip(1) =~= b);
    theorem_star_matches_any_run(p, x);
    if glob(p, x) {
        let k = choose|k: int| 0 <= k <= x.len() && #[trigger] glob(p.skip(1), x.skip(k));
        theorem_plain_patterns(b, x.skip(k));
        assert(x.subrange(x.len() - b.len(), x.len() as int) =~= b);
    }
    if ends(x, b) {
        let k = x.len() - b.len();
        assert(x.skip(k) =~= x.subrange(k, k + b.len()));
        theorem_plain_patterns(b, x.skip(k));
        assert(glob(p.skip(1), x.skip(k)));
    }
}

/// Where nothing is configured, test files are those that begin with `test_` or end in
/// `_test`, each with the ending of a module; only those have it in any case.
pub proof fn theorem_test_files(windows: bool, path: Seq<char>, name: Seq<char>, x: Seq<char>)
    requires
        file_name_of(windows, path) == Some(name),
    ensures
        name == "test_"@ + x + ".py"@ ==> test_file(
            windows,
            path,
            crate::config::default_project().python_files,
        ),
        name == x + "_test.py"@ ==> test_file(
            windows,
            path,
            crate::config::default_project().python_files,
        ),
        test_file(windows, path, crate::config::default_project().python_files) ==> ends(
            name,
            ".py"@,
        ) && (crate::text::starts(name, "test_"@) || ends(name, "_test.py"@)),
{
    reveal_strlit("test_");
    reveal_strlit(".py");
    reveal_strlit("_test.py");
    reveal_strlit("test_*.py");
    reveal_strlit("*_test.py");
    reveal_strlit("*.py");
    let pats = crate::config::default_project().python_files;
    let star = seq!['*'] + ".py"@;
    assert("test_*.py"@ =~= "test_"@ + star);
    assert("*_test.py"@ =~= seq!['*'] + "_test.py"@);
    assert(pats[0] == "test_*.py"@ && pats[1] == "*_test.py"@);
    theorem_plain_endings(x + ".py"@, ".py"@);
    assert((x + ".py"@).subrange(x.len() as int, x.len() as int + 3) =~= ".py"@);
    theorem_plain_beginnings("test_"@, star, x + ".py"@);
    assert("test_"@ + (x + ".py"@) =~= "test_"@ + x + ".py"@);
    if name == "test_"@ + x + ".py"@ {
        assert(name.subrange(name.len() - 3, name.len() as int) =~= ".py"@);
        assert(glob(pats[0], name));
    }
    theorem_plain_endings(name, "_test.py"@);
    if name == x + "_test.py"@ {
        assert(name.subrange(name.len() - 8, name.len() as int) =~= "_test.py"@);
        assert(name.subrange(name.len() - 3, name.len() as int) =~= ".py"@);
        assert(glob(pats[1], name));
    }
    if test_file(windows, path, pats) {
        let i = choose|i: int| 0 <= i < pats.len() && glob(#[trigger] pats[i], name);
        if i == 0 {
            theorem_plain_beginnings("test_"@, star, name);
        }
    }
}

/// A file without a name is no test file.
pub proof fn theorem_a_test_file_has_a_name(windows: bool, path: Seq<char>, pats: Seq<Seq<char>>)
    ensures
        file_name_of(windows, path) is None ==> !test_file(windows, path, pats),
        pats.len() == 0 ==> !test_file(windows, path, pats),
{
}

/// Tests are collected from the paths that are given, else from those of the configuration,
/// below the root, and else from the root.
pub proof fn theorem_where_collection_begins(
    windows: bool,
    paths: Seq<Seq<char>>,
    rootdir: Seq<char>,
    testpaths: Seq<Seq<char>>,
    i: int,
)
    ensures
        paths.len() > 0 ==> roots_of(windows, paths, rootdir, testpaths) == paths,
        paths.len() == 0 && testpaths.len() == 0 ==> roots_of(windows, paths, rootdir, testpaths)
            == seq![rootdir],
        paths.len() == 0 && 0 <= i < testpaths.len() ==> roots_of(
            windows,
            paths,
            rootdir,
            testpaths,
        )[i] == joined_path(windows, rootdir, testpaths[i]),
        paths.len() == 0 && testpaths.len() > 0 ==> roots_of(
            windows,
            paths,
            rootdir,
            testpaths,
        ).len() == testpaths.len(),
{
}

/// Among the parts of a path the root comes first, then the directory itself, then the one
/// above it, then names.
pub proof fn theorem_order_of_parts(windows: bool, name: Seq<char>)
    requires
        name != root_part(windows),
        name != "."@,
        name != ".."@,
    ensures
        text_lt(component_rank(windows, root_part(windows)), component_rank(windows, "."@)),
        text_lt(component_rank(windows, "."@), component_rank(windows, ".."@)),
        text_lt(component_rank(windows, ".."@), component_rank(windows, name)),
{
    reveal_strlit(".");
    reveal_strlit("..");
    reveal_strlit("/");
    reveal_strlit("\\");
    assert("."@.len() == 1);
    assert(".."@.len() == 2);
    assert("/"@.len() == 1);
    assert("\\"@.len() == 1);
    assert("."@[0] == '.');
    assert("/"@[0] == '/');
    assert("\\"@[0] == '\\');
    reveal_strlit("\u{1}");
    reveal_strlit("\u{2}");
    reveal_strlit("\u{3}");
    reveal_strlit("\u{4}");
    assert("\u{1}"@[0] == '\u{1}' && "\u{2}"@[0] == '\u{2}' && "\u{3}"@[0] == '\u{3}'
        && "\u{4}"@[0] == '\u{4}');
    assert("\u{1}"@.len() == 1 && "\u{2}"@.len() == 1 && "\u{3}"@.len() == 1 && "\u{4}"@.len()
        == 1);
}

} // verus!
