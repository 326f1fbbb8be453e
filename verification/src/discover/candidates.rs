//! Where interpreters are looked for.

use crate::numbers::{number_up_to, parse_u8};
use crate::paths::{is_same_path, joined_path, path_join, same_path};
use crate::rank::{positions, rank, ranked, Down};
use crate::text::{
    is_space, is_whitespace, lines, lines_of, opt_text, split_char, split_on, texts,
    to_chars, trim, trimmed,
};
use vstd::prelude::*;

verus! {

broadcast use {crate::text::lemma_texts_push, crate::text::lemma_texts_add};

/// Whether one of some paths is this one, however it is written.
pub open spec fn holds_path(windows: bool, v: Seq<Seq<char>>, path: Seq<char>) -> bool {
    exists|i: int| 0 <= i < v.len() && same_path(windows, #[trigger] v[i], path)
}

fn has_path(windows: bool, v: &Vec<String>, path: &str) -> (res: bool)
    ensures
        res == holds_path(windows, texts(v@), path@),
{
    let mut i: usize = 0;
    while i < v.len()
        invariant
            i <= v.len(),
            forall|j: int| 0 <= j < i ==> !same_path(windows, #[trigger] texts(v@)[j], path@),
        decreases v.len() - i,
    {
        assert(texts(v@)[i as int] == v@[i as int]@);
        if is_same_path(windows, v[i].as_str(), path) {
            return true;
        }
        i += 1;
    }
    false
}

/// A list of paths without what occurs again: the first occurrence of each stays.
pub open spec fn deduplicated(windows: bool, v: Seq<Seq<char>>) -> Seq<Seq<char>>
    decreases v.len(),
{
    if v.len() == 0 {
        Seq::empty()
    } else {
        let before = deduplicated(windows, v.drop_last());
        if holds_path(windows, before, v.last()) {
            before
        } else {
            before.push(v.last())
        }
    }
}

fn deduplicate(windows: bool, v: &Vec<String>) -> (res: Vec<String>)
    ensures
        texts(res@) == deduplicated(windows, texts(v@)),
{
    let ghost all = texts(v@);
    let mut out: Vec<String> = Vec::new();
    let mut i: usize = 0;
    assert(texts(out@) =~= deduplicated(windows, all.take(0)));
    while i < v.len()
        invariant
            i <= v.len(),
            all == texts(v@),
            texts(out@) == deduplicated(windows, all.take(i as int)),
        decreases v.len() - i,
    {
        proof {
            assert(all.take(i + 1).drop_last() =~= all.take(i as int));
            assert(all.take(i + 1).last() == v@[i as int]@);
        }
        if !has_path(windows, &out, v[i].as_str()) {
            out.push(v[i].clone());
        }
        i += 1;
    }
    assert(all.take(v.len() as int) =~= all);
    out
}

/// Without repetitions a list holds the same paths, each once, in their order.
pub proof fn theorem_deduplicated(windows: bool, v: Seq<Seq<char>>)
    ensures
        forall|i: int, j: int|
            0 <= i < j < deduplicated(windows, v).len() ==> !same_path(
                windows,
                #[trigger] deduplicated(windows, v)[i],
                #[trigger] deduplicated(windows, v)[j],
            ),
        forall|x: Seq<char>|
            #![trigger holds_path(windows, v, x)]
            holds_path(windows, deduplicated(windows, v), x) == holds_path(windows, v, x),
        crate::sequences::subsequence(deduplicated(windows, v), v),
    decreases v.len(),
{
    let out = deduplicated(windows, v);
    if v.len() > 0 {
        let init = v.drop_last();
        let before = deduplicated(windows, init);
        theorem_deduplicated(windows, init);
        assert forall|x: Seq<char>|
            #![trigger holds_path(windows, v, x)]
            holds_path(windows, out, x) == holds_path(windows, v, x) by {
            assert(holds_path(windows, before, x) == holds_path(windows, init, x));
            if holds_path(windows, out, x) {
                let k = choose|k: int| 0 <= k < out.len() && same_path(windows, #[trigger] out[k], x);
                if k < before.len() {
                    assert(same_path(windows, before[k], x));
                    let j = choose|j: int|
                        0 <= j < init.len() && same_path(windows, #[trigger] init[j], x);
                    assert(same_path(windows, v[j], x));
                } else {
                    assert(same_path(windows, v[v.len() - 1], x));
                }
            }
            if holds_path(windows, v, x) {
                let j = choose|j: int| 0 <= j < v.len() && same_path(windows, #[trigger] v[j], x);
                if j < v.len() - 1 {
                    assert(same_path(windows, init[j], x));
                    let k = choose|k: int|
                        0 <= k < before.len() && same_path(windows, #[trigger] before[k], x);
                    assert(same_path(windows, out[k], x));
                } else if holds_path(windows, before, v.last()) {
                    let k = choose|k: int|
                        0 <= k < before.len() && same_path(windows, #[trigger] before[k], v.last());
                    assert(same_path(windows, out[k], x));
                } else {
                    assert(same_path(windows, out[out.len() - 1], x));
                }
            }
        }
        if !holds_path(windows, before, v.last()) {
            assert(out.drop_last() =~= before);
            assert forall|i: int, j: int| 0 <= i < j < out.len() implies !same_path(
                windows,
                #[trigger] out[i],
                #[trigger] out[j],
            ) by {
                assert(out[i] == before[i]);
                if j < before.len() {
                    assert(out[j] == before[j]);
                }
            }
        }
    }
}

/// A directory on the way up from the tests.
pub struct ScopeDir {
    /// The interpreter in its `.venv`, where there is one.
    pub venv_python: Option<String>,
    /// The content of its `.python-version`, where there is one.
    pub python_version: Option<String>,
    /// Whether it is the root of a repository.
    pub repo_root: bool,
}

/// How many directories are looked at: up to the root of the repository.
pub open spec fn reach(dirs: Seq<ScopeDir>) -> nat
    decreases dirs.len(),
{
    if dirs.len() == 0 {
        0
    } else if dirs[0].repo_root {
        1
    } else {
        1 + reach(dirs.skip(1))
    }
}

/// The interpreters of the first `n` directories.
pub open spec fn venvs(dirs: Seq<ScopeDir>, n: nat) -> Seq<Seq<char>>
    decreases n,
{
    if n == 0 {
        Seq::empty()
    } else {
        let before = venvs(dirs, (n - 1) as nat);
        match dirs[n - 1].venv_python {
            Some(p) => before.push(p@),
            None => before,
        }
    }
}

proof fn lemma_reach(dirs: Seq<ScopeDir>, n: int)
    requires
        0 <= n <= dirs.len(),
        forall|i: int| 0 <= i < n ==> !(#[trigger] dirs[i]).repo_root,
    ensures
        reach(dirs) == n + reach(dirs.skip(n)),
    decreases n,
{
    if n > 0 {
        assert(!dirs[0].repo_root);
        assert forall|i: int| 0 <= i < n - 1 implies !(#[trigger] dirs.skip(1)[i]).repo_root by {
            assert(dirs.skip(1)[i] == dirs[i + 1]);
        }
        lemma_reach(dirs.skip(1), n - 1);
        assert(dirs.skip(1).skip(n - 1) =~= dirs.skip(n));
    } else {
        assert(dirs.skip(0) =~= dirs);
    }
}

fn venv_walk(dirs: &[ScopeDir]) -> (res: Vec<String>)
    ensures
        texts(res@) == venvs(dirs@, reach(dirs@)),
{
    let mut out: Vec<String> = Vec::new();
    let mut i: usize = 0;
    assert(texts(out@) =~= venvs(dirs@, 0));
    while i < dirs.len()
        invariant
            i <= dirs.len(),
            forall|j: int| 0 <= j < i ==> !(#[trigger] dirs@[j]).repo_root,
            texts(out@) == venvs(dirs@, i as nat),
        decreases dirs.len() - i,
    {
        if let Some(p) = &dirs[i].venv_python {
            out.push(p.clone());
        }
        if dirs[i].repo_root {
            proof {
                lemma_reach(dirs@, i as int);
                assert(dirs@.skip(i as int)[0] == dirs@[i as int]);
            }
            return out;
        }
        i += 1;
    }
    proof {
        lemma_reach(dirs@, dirs.len() as int);
    }
    out
}

/// The first line of a file that is not blank, without the blanks around it.
pub open spec fn first_entry(ls: Seq<Seq<char>>) -> Option<Seq<char>>
    decreases ls.len(),
{
    if ls.len() == 0 {
        None
    } else if trimmed(ls[0]).len() > 0 {
        Some(trimmed(ls[0]))
    } else {
        first_entry(ls.skip(1))
    }
}

fn find_entry(raw: &str) -> (res: Option<String>)
    ensures
        opt_text(res) == first_entry(lines_of(raw@)),
{
    let ls = lines(raw);
    let ghost all = lines_of(raw@);
    let mut i: usize = 0;
    assert(all.skip(0) =~= all);
    while i < ls.len()
        invariant
            i <= ls.len(),
            all == texts(ls@),
            all == lines_of(raw@),
            first_entry(all.skip(i as int)) == first_entry(all),
        decreases ls.len() - i,
    {
        let t = trim(ls[i].as_str());
        assert(all.skip(i as int)[0] == ls@[i as int]@);
        if !t.as_str().is_empty() {
            return Some(t);
        }
        assert(all.skip(i as int).skip(1) =~= all.skip(i + 1));
        i += 1;
    }
    None
}

/// What the nearest `.python-version` asks for.
pub open spec fn pinned(dirs: Seq<ScopeDir>) -> Option<Seq<char>>
    decreases dirs.len(),
{
    if dirs.len() == 0 {
        None
    } else {
        let here = match dirs[0].python_version {
            Some(raw) => first_entry(lines_of(raw@)),
            None => None,
        };
        if here is Some {
            here
        } else if dirs[0].repo_root {
            None
        } else {
            pinned(dirs.skip(1))
        }
    }
}

/// Finds what the nearest `.python-version` asks for, up to the root of the
/// repository. A file without an entry is passed over.
pub fn python_version_arg(dirs: &[ScopeDir]) -> (res: Option<String>)
    ensures
        opt_text(res) == pinned(dirs@),
{
    let mut i: usize = 0;
    assert(dirs@.skip(0) =~= dirs@);
    while i < dirs.len()
        invariant
            i <= dirs.len(),
            pinned(dirs@.skip(i as int)) == pinned(dirs@),
        decreases dirs.len() - i,
    {
        assert(dirs@.skip(i as int)[0] == dirs@[i as int]);
        if let Some(raw) = &dirs[i].python_version {
            if let Some(entry) = find_entry(raw.as_str()) {
                return Some(entry);
            }
        }
        if dirs[i].repo_root {
            return None;
        }
        assert(dirs@.skip(i as int).skip(1) =~= dirs@.skip(i + 1));
        i += 1;
    }
    None
}

/// The names under which interpreters are looked for on the path, the newest
/// version first, and free-threaded builds and PyPy last.
pub open spec fn path_names(windows: bool) -> Seq<Seq<char>> {
    if windows {
        seq!["python.exe"@, "python3.exe"@, "python"@]
    } else {
        seq![
            "python3.14"@,
            "python3.13"@,
            "python3.12"@,
            "python3.11"@,
            "python3.10"@,
            "python3.9"@,
            "python3"@,
            "python"@,
            "python3.14t"@,
            "python3.13t"@,
            "pypy3"@,
            "pypy"@,
        ]
    }
}

/// Lists the names under which interpreters are looked for on the path.
pub fn path_python_names(windows: bool) -> (res: Vec<String>)
    ensures
        texts(res@) == path_names(windows),
{
    let mut out: Vec<String> = Vec::new();
    if windows {
        out.push("python.exe".to_owned());
        out.push("python3.exe".to_owned());
        out.push("python".to_owned());
    } else {
        out.push("python3.14".to_owned());
        out.push("python3.13".to_owned());
        out.push("python3.12".to_owned());
        out.push("python3.11".to_owned());
        out.push("python3.10".to_owned());
        out.push("python3.9".to_owned());
        out.push("python3".to_owned());
        out.push("python".to_owned());
        out.push("python3.14t".to_owned());
        out.push("python3.13t".to_owned());
        out.push("pypy3".to_owned());
        out.push("pypy".to_owned());
    }
    assert(texts(out@) =~= path_names(windows));
    out
}

/// A text in a list of its own, where there is one.
pub open spec fn listed(s: Option<String>) -> Seq<Seq<char>> {
    match s {
        Some(s) => seq![s@],
        None => Seq::empty(),
    }
}

/// The interpreters to try, in order: the active environment, those on the way up
/// from the tests, those on the path, those that the launcher knows, and managed
/// ones. None is tried twice.
pub fn discovery_candidates(
    active: &Option<String>,
    dirs: &[ScopeDir],
    windows: bool,
    launcher: &[String],
    managed: &[String],
) -> (res: Vec<String>)
    ensures
        texts(res@) == all_candidates(*active, dirs@, windows, texts(launcher@), texts(managed@)),
{
    let mut all: Vec<String> = Vec::new();
    match active {
        Some(p) => {
            all.push(p.clone());
        },
        None => {},
    }
    assert(texts(all@) =~= listed(*active));
    let mut more = venv_walk(dirs);
    all.append(&mut more);
    let mut more = path_python_names(windows);
    all.append(&mut more);
    let mut more = crate::text::clone_texts(launcher);
    all.append(&mut more);
    let mut more = crate::text::clone_texts(managed);
    all.append(&mut more);
    deduplicate(windows, &all)
}

/// A number up to 255, where a text is one.
pub open spec fn small(s: Seq<char>) -> Option<u8> {
    match number_up_to(s, 255) {
        Some(n) => Some(n as u8),
        None => None,
    }
}

/// The version in the name of a managed installation, such as
/// `cpython-3.12.4-linux`; zeros where there is none.
pub open spec fn dir_version(name: Seq<char>) -> (u8, u8, u8) {
    let fields = split_on(name, '-');
    if fields.len() < 2 {
        (0u8, 0u8, 0u8)
    } else {
        let parts = split_on(split_on(fields[1], '+')[0], '.');
        if parts.len() >= 2 && small(parts[0]) is Some && small(parts[1]) is Some {
            (
                small(parts[0]).unwrap(),
                small(parts[1]).unwrap(),
                if parts.len() >= 3 && small(parts[2]) is Some {
                    small(parts[2]).unwrap()
                } else {
                    0
                },
            )
        } else {
            (0u8, 0u8, 0u8)
        }
    }
}

/// Reads the version in the name of a managed installation.
pub fn parse_dir_version(name: &str) -> (res: (u8, u8, u8))
    ensures
        res == dir_version(name@),
{
    let fields = split_char(name, '-');
    if fields.len() < 2 {
        return (0, 0, 0);
    }
    assert(split_on(name@, '-')[1] == fields@[1]@);
    let version = split_char(fields[1].as_str(), '+');
    assert(split_on(fields@[1]@, '+')[0] == version@[0]@);
    let parts = split_char(version[0].as_str(), '.');
    let ghost all = split_on(version@[0]@, '.');
    if parts.len() < 2 {
        return (0, 0, 0);
    }
    assert(all[0] == parts@[0]@);
    assert(all[1] == parts@[1]@);
    match (parse_u8(parts[0].as_str()), parse_u8(parts[1].as_str())) {
        (Some(major), Some(minor)) => {
            let micro: u8 = if parts.len() >= 3 {
                assert(all[2] == parts@[2]@);
                match parse_u8(parts[2].as_str()) {
                    Some(m) => m,
                    None => 0,
                }
            } else {
                0
            };
            (major, minor, micro)
        },
        _ => (0, 0, 0),
    }
}

/// The interpreter of a managed installation, given which of its usual places exist.
pub fn managed_exe(install: &str, python3: bool, python: bool, exe: bool, windows: bool) -> (res:
    Option<String>)
    ensures
        opt_text(res) == installed_python(install@, python3, python, exe, windows),
{
    if python3 {
        Some(path_join(windows, install, "bin/python3"))
    } else if python {
        Some(path_join(windows, install, "bin/python"))
    } else if exe {
        Some(path_join(windows, install, "python.exe"))
    } else {
        None
    }
}

/// The interpreter of a virtual environment, given which of its usual places exist.
pub fn venv_python(venv: &str, python: bool, exe: bool, windows: bool) -> (res: Option<String>)
    ensures
        opt_text(res) == python_of_venv(venv@, python, exe, windows),
{
    if python {
        Some(path_join(windows, venv, "bin/python"))
    } else if exe {
        Some(path_join(windows, venv, "Scripts/python.exe"))
    } else {
        None
    }
}

/// A version as one number that orders as it does.
pub open spec fn version_key(v: (u8, u8, u8)) -> int {
    v.0 * 65536 + v.1 * 256 + v.2
}

/// The version keys of installations, given by name and interpreter.
pub open spec fn install_keys(installs: Seq<(String, String)>) -> Seq<int> {
    Seq::new(installs.len(), |i: int| version_key(dir_version(installs[i].0@)))
}

/// The interpreters of managed installations, given by name and interpreter, the
/// newest version first.
pub fn managed_in(installs: &[(String, String)]) -> (res: Vec<String>)
    ensures
        newest_first(texts(res@), installs@),
{
    let mut keys: Vec<Down> = Vec::new();
    let mut i: usize = 0;
    while i < installs.len()
        invariant
            i <= installs.len(),
            keys.len() == i,
            forall|j: int|
                0 <= j < i ==> (#[trigger] keys@[j]).key == version_key(
                    dir_version(installs@[j].0@),
                ),
        decreases installs.len() - i,
    {
        let v = parse_dir_version(installs[i].0.as_str());
        keys.push(Down { key: v.0 as i64 * 65536 + v.1 as i64 * 256 + v.2 as i64 });
        i += 1;
    }
    let order = rank(keys.as_slice());
    let ghost p = positions(order@);
    assert(crate::rank::models(keys@) =~= install_keys(installs@));
    let mut out: Vec<String> = Vec::new();
    let mut k: usize = 0;
    while k < order.len()
        invariant
            k <= order.len(),
            p == positions(order@),
            ranked::<Down>(p, install_keys(installs@)),
            out.len() == k,
            forall|j: int| 0 <= j < k ==> (#[trigger] out@[j])@ == installs@[p[j]].1@,
        decreases order.len() - k,
    {
        assert(0 <= p[k as int] < install_keys(installs@).len());
        out.push(installs[order[k]].1.clone());
        k += 1;
    }
    assert(texts(out@) =~= Seq::new(p.len(), |i: int| installs@[p[i]].1@));
    out
}

/// A newer version has a larger key.
pub proof fn theorem_version_key_orders(a: (u8, u8, u8), b: (u8, u8, u8))
    ensures
        super::request::older(a, b) <==> version_key(a) < version_key(b),
{
}

/// Where managed interpreters are installed, given what the environment says.
pub open spec fn uv_dir(
    install_dir: Option<Seq<char>>,
    windows: bool,
    appdata: Option<Seq<char>>,
    data_home: Option<Seq<char>>,
    home: Option<Seq<char>>,
) -> Option<Seq<char>> {
    match install_dir {
        Some(d) => Some(d),
        None => if windows {
            match appdata {
                Some(b) => Some(joined_path(windows, b, "uv/data/python"@)),
                None => None,
            }
        } else {
            match data_home {
                Some(b) => Some(joined_path(windows, b, "uv/python"@)),
                None => match home {
                    Some(h) => Some(joined_path(windows, joined_path(windows, h, ".local/share"@), "uv/python"@)),
                    None => None,
                },
            }
        },
    }
}

/// Finds out where managed interpreters are installed.
pub fn uv_python_dir(
    install_dir: Option<String>,
    windows: bool,
    appdata: Option<String>,
    data_home: Option<String>,
    home: Option<String>,
) -> (res: Option<String>)
    ensures
        opt_text(res) == uv_dir(
            opt_text(install_dir),
            windows,
            opt_text(appdata),
            opt_text(data_home),
            opt_text(home),
        ),
{
    match install_dir {
        Some(d) => Some(d),
        None => if windows {
            match appdata {
                Some(b) => Some(path_join(windows, b.as_str(), "uv/data/python")),
                None => None,
            }
        } else {
            match data_home {
                Some(b) => Some(path_join(windows, b.as_str(), "uv/python")),
                None => match home {
                    Some(h) => Some(
                        path_join(windows, path_join(windows, h.as_str(), ".local/share").as_str(), "uv/python"),
                    ),
                    None => None,
                },
            }
        },
    }
}

/// What follows the first white space in a text.
pub open spec fn after_space(s: Seq<char>) -> Option<Seq<char>>
    decreases s.len(),
{
    if s.len() == 0 {
        None
    } else if is_space(s[0]) {
        Some(s.skip(1))
    } else {
        after_space(s.skip(1))
    }
}

/// A text without one star before it, and without blanks.
pub open spec fn unstarred_front(s: Seq<char>) -> Seq<char> {
    if s.len() > 0 && s[0] == '*' {
        trimmed(s.skip(1))
    } else {
        trimmed(s)
    }
}

/// A text without one star behind it, and without blanks.
pub open spec fn unstarred_back(s: Seq<char>) -> Seq<char> {
    if s.len() > 0 && s.last() == '*' {
        trimmed(s.drop_last())
    } else {
        trimmed(s)
    }
}

/// The interpreter in a line of `py --list-paths`: what follows the tag, without
/// the star that marks the default.
pub open spec fn launcher_path(line: Seq<char>) -> Option<Seq<char>> {
    let l = trimmed(line);
    if l.len() > 0 && l[0] == '-' {
        match after_space(l) {
            Some(rest) => {
                let path = unstarred_back(unstarred_front(trimmed(rest)));
                if path.len() > 0 {
                    Some(path)
                } else {
                    None
                }
            },
            None => None,
        }
    } else {
        None
    }
}

/// The interpreters in some lines of `py --list-paths`.
pub open spec fn launcher_paths(ls: Seq<Seq<char>>) -> Seq<Seq<char>>
    decreases ls.len(),
{
    if ls.len() == 0 {
        Seq::empty()
    } else {
        let before = launcher_paths(ls.drop_last());
        match launcher_path(ls.last()) {
            Some(p) => before.push(p),
            None => before,
        }
    }
}

fn cut_tag(s: &str) -> (res: Option<String>)
    ensures
        opt_text(res) == after_space(s@),
{
    let v = to_chars(s);
    let n = v.len();
    let mut i: usize = 0;
    assert(s@.skip(0) =~= s@);
    while i < n
        invariant
            i <= n,
            n == v@.len(),
            v@ == s@,
            after_space(s@.skip(i as int)) == after_space(s@),
        decreases n - i,
    {
        assert(s@.skip(i as int).skip(1) =~= s@.skip(i + 1));
        if is_whitespace(v[i]) {
            let rest = crate::text::from_range(&v, i + 1, n);
            assert(rest@ =~= s@.skip(i + 1));
            return Some(rest);
        }
        i += 1;
    }
    None
}

fn strip_front_star(s: &str) -> (res: String)
    ensures
        res@ == unstarred_front(s@),
{
    let v = to_chars(s);
    let n = v.len();
    if n > 0 && v[0] == '*' {
        let rest = crate::text::from_range(&v, 1, n);
        assert(rest@ =~= s@.skip(1));
        trim(rest.as_str())
    } else {
        trim(s)
    }
}

fn strip_back_star(s: &str) -> (res: String)
    ensures
        res@ == unstarred_back(s@),
{
    let v = to_chars(s);
    let n = v.len();
    if n > 0 && v[n - 1] == '*' {
        let rest = crate::text::from_range(&v, 0, n - 1);
        assert(rest@ =~= s@.drop_last());
        trim(rest.as_str())
    } else {
        trim(s)
    }
}

/// Reads the interpreters that `py --list-paths` printed.
pub fn parse_py_list_paths(output: &str) -> (res: Vec<String>)
    ensures
        texts(res@) == launcher_paths(lines_of(output@)),
{
    let ls = lines(output);
    let ghost all = lines_of(output@);
    let mut out: Vec<String> = Vec::new();
    let mut i: usize = 0;
    assert(texts(out@) =~= launcher_paths(all.take(0)));
    while i < ls.len()
        invariant
            i <= ls.len(),
            all == texts(ls@),
            texts(out@) == launcher_paths(all.take(i as int)),
        decreases ls.len() - i,
    {
        proof {
            assert(all.take(i + 1).drop_last() =~= all.take(i as int));
            assert(all.take(i + 1).last() == ls@[i as int]@);
        }
        let l = trim(ls[i].as_str());
        let v = to_chars(l.as_str());
        if v.len() > 0 && v[0] == '-' {
            if let Some(rest) = cut_tag(l.as_str()) {
                let bare = strip_front_star(trim(rest.as_str()).as_str());
                let path = strip_back_star(bare.as_str());
                if !path.as_str().is_empty() {
                    out.push(path);
                }
            }
        }
        i += 1;
    }
    assert(all.take(ls.len() as int) =~= all);
    out
}

/// The interpreters to try, in order and each once.
pub open spec fn all_candidates(
    active: Option<String>,
    dirs: Seq<ScopeDir>,
    windows: bool,
    launcher: Seq<Seq<char>>,
    managed: Seq<Seq<char>>,
) -> Seq<Seq<char>> {
    deduplicated(
        windows,
        listed(active) + venvs(dirs, reach(dirs)) + path_names(windows) + launcher + managed,
    )
}

/// The interpreter of an installation, by which of its files there are.
pub open spec fn installed_python(
    install: Seq<char>,
    python3: bool,
    python: bool,
    exe: bool,
    windows: bool,
) -> Option<Seq<char>> {
    if python3 {
        Some(joined_path(windows, install, "bin/python3"@))
    } else if python {
        Some(joined_path(windows, install, "bin/python"@))
    } else if exe {
        Some(joined_path(windows, install, "python.exe"@))
    } else {
        None
    }
}

/// The interpreter of a virtual environment, by which of its files there are.
pub open spec fn python_of_venv(venv: Seq<char>, python: bool, exe: bool, windows: bool) -> Option<
    Seq<char>,
> {
    if python {
        Some(joined_path(windows, venv, "bin/python"@))
    } else if exe {
        Some(joined_path(windows, venv, "Scripts/python.exe"@))
    } else {
        None
    }
}

/// Whether `res` are the installed interpreters, the newest first.
pub open spec fn newest_first(res: Seq<Seq<char>>, installs: Seq<(String, String)>) -> bool {
    exists|order: Seq<int>| #[trigger]
        ranked::<Down>(order, install_keys(installs)) && res == Seq::new(
            order.len(),
            |i: int| installs[order[i]].1@,
        )
}

/// The search goes up to the root of the repository, with it, and to the end where there is
/// none.
pub proof fn theorem_the_search_stops_at_the_repository(dirs: Seq<ScopeDir>, n: int)
    requires
        0 <= n <= dirs.len(),
        forall|i: int| 0 <= i < n ==> !(#[trigger] dirs[i]).repo_root,
    ensures
        n == dirs.len() ==> reach(dirs) == n,
        n < dirs.len() && dirs[n].repo_root ==> reach(dirs) == n + 1,
{
    lemma_reach(dirs, n);
    let rest = dirs.skip(n);
    if n < dirs.len() {
        assert(rest[0] == dirs[n]);
    }
}

/// Each directory on the way gives the interpreter of its virtual environment, where it has
/// one.
pub proof fn theorem_virtual_environments_on_the_way(dirs: Seq<ScopeDir>, n: nat)
    requires
        n < dirs.len(),
    ensures
        venvs(dirs, 0).len() == 0,
        dirs[n as int].venv_python is None ==> venvs(dirs, n + 1) == venvs(dirs, n),
        dirs[n as int].venv_python matches Some(p) ==> venvs(dirs, n + 1) == venvs(dirs, n).push(p@),
{
}

/// What a file asks for is its first line that is not blank, without the white space around
/// it.
pub proof fn theorem_first_line_asks(ls: Seq<Seq<char>>, line: Seq<char>)
    ensures
        trimmed(line).len() == 0 ==> first_entry(seq![line] + ls) == first_entry(ls),
        trimmed(line).len() > 0 ==> first_entry(seq![line] + ls) == Some(trimmed(line)),
        first_entry(Seq::empty()) is None,
{
    assert((seq![line] + ls).skip(1) =~= ls);
}

/// The nearest directory that asks for a version counts, and none above the repository.
pub proof fn theorem_nearest_version_counts(dirs: Seq<ScopeDir>)
    requires
        dirs.len() > 0,
    ensures
        dirs[0].python_version matches Some(raw) ==> (first_entry(lines_of(raw@)) matches Some(v)
            ==> pinned(dirs) == Some(v)),
        dirs[0].python_version is None && dirs[0].repo_root ==> pinned(dirs) is None,
        dirs[0].python_version is None && !dirs[0].repo_root ==> pinned(dirs) == pinned(
            dirs.skip(1),
        ),
        dirs[0].python_version matches Some(raw) ==> (first_entry(lines_of(raw@)) is None
            && !dirs[0].repo_root ==> pinned(dirs) == pinned(dirs.skip(1))),
        pinned(Seq::empty()) is None,
{
}

/// Names that an interpreter is looked for by on the path.
pub proof fn theorem_names_on_the_path(name: Seq<char>)
    ensures
        path_names(true).contains(name) <==> name == "python.exe"@ || name == "python3.exe"@ || name
            == "python"@,
        path_names(false).contains(name) <==> name == "python3.14"@ || name == "python3.13"@ || name
            == "python3.12"@ || name == "python3.11"@ || name == "python3.10"@ || name
            == "python3.9"@ || name == "python3"@ || name == "python"@ || name == "python3.14t"@
            || name == "python3.13t"@ || name == "pypy3"@ || name == "pypy"@,
        path_names(false)[0] == "python3.14"@ && path_names(false)[5] == "python3.9"@,
        path_names(false)[6] == "python3"@ && path_names(false)[7] == "python"@,
{
    let w = path_names(true);
    let u = path_names(false);
    assert(w[0] == "python.exe"@ && w[1] == "python3.exe"@ && w[2] == "python"@);
    assert(u[0] == "python3.14"@ && u[1] == "python3.13"@ && u[2] == "python3.12"@ && u[3]
        == "python3.11"@ && u[4] == "python3.10"@ && u[5] == "python3.9"@ && u[6] == "python3"@
        && u[7] == "python"@ && u[8] == "python3.14t"@ && u[9] == "python3.13t"@ && u[10]
        == "pypy3"@ && u[11] == "pypy"@);
}

proof fn lemma_first_stays(windows: bool, v: Seq<Seq<char>>)
    requires
        v.len() > 0,
    ensures
        deduplicated(windows, v).len() > 0,
        deduplicated(windows, v)[0] == v[0],
    decreases v.len(),
{
    if v.len() > 1 {
        lemma_first_stays(windows, v.drop_last());
    } else {
        assert(deduplicated(windows, v.drop_last()) =~= Seq::empty());
        assert(!holds_path(windows, Seq::empty(), v.last()));
    }
}

/// The active interpreter is tried first, and without one the nearest virtual environment.
pub proof fn theorem_the_active_interpreter_comes_first(
    active: Option<String>,
    dirs: Seq<ScopeDir>,
    windows: bool,
    launcher: Seq<Seq<char>>,
    managed: Seq<Seq<char>>,
)
    ensures
        active matches Some(p) ==> all_candidates(active, dirs, windows, launcher, managed)[0]
            == p@,
        active is None && venvs(dirs, reach(dirs)).len() > 0 ==> all_candidates(
            active,
            dirs,
            windows,
            launcher,
            managed,
        )[0] == venvs(dirs, reach(dirs))[0],
        active is None && venvs(dirs, reach(dirs)).len() == 0 ==> all_candidates(
            active,
            dirs,
            windows,
            launcher,
            managed,
        )[0] == path_names(windows)[0],
        forall|x: Seq<char>| #[trigger]
            launcher.contains(x) || managed.contains(x) || path_names(windows).contains(x)
                ==> holds_path(
                windows,
                listed(active) + venvs(dirs, reach(dirs)) + path_names(windows) + launcher
                    + managed,
                x,
            ) || !same_path(windows, x, x),
{
    let a = listed(active);
    let b = venvs(dirs, reach(dirs));
    let c = path_names(windows);
    let all = a + b + c + launcher + managed;
    lemma_first_stays(windows, all);
    assert forall|x: Seq<char>| #[trigger]
        launcher.contains(x) || managed.contains(x) || c.contains(x) implies holds_path(
        windows,
        all,
        x,
    ) || !same_path(windows, x, x) by {
        if launcher.contains(x) {
            let k = choose|k: int| 0 <= k < launcher.len() && launcher[k] == x;
            assert(all[(a + b + c).len() + k] == x);
        } else if managed.contains(x) {
            let k = choose|k: int| 0 <= k < managed.len() && managed[k] == x;
            assert(all[(a + b + c + launcher).len() + k] == x);
        } else {
            let k = choose|k: int| 0 <= k < c.len() && c[k] == x;
            assert(all[(a + b).len() + k] == x);
        }
    }
}

/// The name of an installation has its version between the first hyphens, and what follows a
/// plus sign there does not count.
pub proof fn theorem_versions_of_installations(
    name: Seq<char>,
    v: (u8, u8, u8),
    rest: Seq<char>,
)
    requires
        !name.contains('-'),
    ensures
        dir_version(
            name + seq!['-'] + (crate::numbers::decimal(v.0 as nat) + "."@ + crate::numbers::decimal(
                v.1 as nat,
            ) + "."@ + crate::numbers::decimal(v.2 as nat)) + seq!['-'] + rest,
        ) == v,
        dir_version(name) == (0u8, 0u8, 0u8),
{
    reveal_strlit(".");
    let a = crate::numbers::decimal(v.0 as nat);
    let b = crate::numbers::decimal(v.1 as nat);
    let c = crate::numbers::decimal(v.2 as nat);
    crate::numbers::theorem_decimal_reads_back(v.0 as nat);
    crate::numbers::theorem_decimal_reads_back(v.1 as nat);
    crate::numbers::theorem_decimal_reads_back(v.2 as nat);
    let text = a + "."@ + b + "."@ + c;
    assert forall|i: int| 0 <= i < text.len() implies #[trigger] text[i] != '-' && text[i] != '+' by {
        lemma_version_digit(a, b, c, i);
    }
    assert(!text.contains('-') && !text.contains('+'));
    let s = name + seq!['-'] + text + seq!['-'] + rest;
    let tail = text + seq!['-'] + rest;
    assert(s =~= name + seq!['-'] + tail);
    crate::text::lemma_split_at_first(name, '-', tail);
    crate::text::lemma_split_at_first(text, '-', rest);
    assert(split_on(s, '-')[1] == text);
    crate::text::lemma_pos_is(text, '+', text.len() as int);
    assert(split_on(text, '+') =~= seq![text]);
    let bc = b + seq!['.'] + c;
    assert(text =~= a + seq!['.'] + bc);
    lemma_no_dot(a);
    lemma_no_dot(b);
    lemma_no_dot(c);
    crate::text::lemma_split_at_first(a, '.', bc);
    crate::text::lemma_split_at_first(b, '.', c);
    crate::text::lemma_pos_is(c, '.', c.len() as int);
    assert(split_on(c, '.') =~= seq![c]);
    assert(split_on(text, '.') =~= seq![a, b, c]);
    crate::text::lemma_pos_is(name, '-', name.len() as int);
    assert(split_on(name, '-') =~= seq![name]);
}

proof fn lemma_no_dot(s: Seq<char>)
    requires
        crate::numbers::all_digits(s),
    ensures
        !s.contains('.'),
        !s.contains('-'),
        !s.contains('+'),
{
    if s.contains('.') {
        let k = choose|k: int| 0 <= k < s.len() && s[k] == '.';
        assert(crate::text::is_digit(s[k]));
    }
    if s.contains('-') {
        let k = choose|k: int| 0 <= k < s.len() && s[k] == '-';
        assert(crate::text::is_digit(s[k]));
    }
    if s.contains('+') {
        let k = choose|k: int| 0 <= k < s.len() && s[k] == '+';
        assert(crate::text::is_digit(s[k]));
    }
}

proof fn lemma_version_digit(a: Seq<char>, b: Seq<char>, c: Seq<char>, i: int)
    requires
        crate::numbers::all_digits(a),
        crate::numbers::all_digits(b),
        crate::numbers::all_digits(c),
        0 <= i < (a + "."@ + b + "."@ + c).len(),
    ensures
        (a + "."@ + b + "."@ + c)[i] != '-',
        (a + "."@ + b + "."@ + c)[i] != '+',
{
    reveal_strlit(".");
    lemma_no_dot(a);
    lemma_no_dot(b);
    lemma_no_dot(c);
    let text = a + "."@ + b + "."@ + c;
    if i < a.len() {
        assert(text[i] == a[i]);
        assert(a.contains(a[i]));
    } else if i == a.len() {
        assert(text[i] == '.');
    } else if i < a.len() + 1 + b.len() {
        assert(text[i] == b[i - a.len() - 1]);
        assert(b.contains(b[i - a.len() - 1]));
    } else if i == a.len() + 1 + b.len() {
        assert(text[i] == '.');
    } else {
        assert(text[i] == c[i - a.len() - b.len() - 2]);
        assert(c.contains(c[i - a.len() - b.len() - 2]));
    }
}

/// Installed interpreters are tried by their versions, the newest first, and all of them.
pub proof fn theorem_newest_installation_comes_first(
    res: Seq<Seq<char>>,
    installs: Seq<(String, String)>,
    i: int,
    j: int,
    k: int,
)
    requires
        newest_first(res, installs),
    ensures
        res.len() == installs.len(),
        0 <= i <= j < res.len() ==> exists|p: int, q: int|
            0 <= p < installs.len() && 0 <= q < installs.len() && res[i] == (
            #[trigger] installs[p]).1@ && res[j] == (#[trigger] installs[q]).1@
                && !super::request::older(dir_version(installs[p].0@), dir_version(installs[q].0@)),
        0 <= k < installs.len() ==> res.contains(installs[k].1@),
{
    let keys = install_keys(installs);
    let order = choose|order: Seq<int>| #[trigger]
        ranked::<Down>(order, keys) && res == Seq::new(order.len(), |i: int| installs[order[i]].1@);
    if 0 <= i <= j < res.len() {
        let p = order[i];
        let q = order[j];
        assert(0 <= p < keys.len() && 0 <= q < keys.len());
        if i < j {
            assert(crate::rank::ahead::<Down>(keys, order[i], order[j]));
        }
        theorem_version_key_orders(dir_version(installs[p].0@), dir_version(installs[q].0@));
        assert(res[i] == installs[p].1@ && res[j] == installs[q].1@);
    }
    if 0 <= k < installs.len() {
        crate::rank::theorem_ranking_is_a_permutation::<Down>(order, keys);
        assert(order.contains(k));
        let q = choose|q: int| 0 <= q < order.len() && order[q] == k;
        assert(res[q] == installs[k].1@);
    }
}

/// Which file of an installation or of an environment is the interpreter.
pub proof fn theorem_interpreters_by_their_files(dir: Seq<char>, windows: bool, a: bool, b: bool)
    ensures
        installed_python(dir, true, a, b, windows) == Some(
            joined_path(windows, dir, "bin/python3"@),
        ),
        installed_python(dir, false, true, a, windows) == Some(
            joined_path(windows, dir, "bin/python"@),
        ),
        installed_python(dir, false, false, true, windows) == Some(
            joined_path(windows, dir, "python.exe"@),
        ),
        installed_python(dir, false, false, false, windows) is None,
        python_of_venv(dir, true, a, windows) == Some(joined_path(windows, dir, "bin/python"@)),
        python_of_venv(dir, false, true, windows) == Some(
            joined_path(windows, dir, "Scripts/python.exe"@),
        ),
        python_of_venv(dir, false, false, windows) is None,
{
}

/// Where interpreters are managed: where the environment says, and else where data is kept.
pub proof fn theorem_where_interpreters_are_managed(
    dir: Seq<char>,
    windows: bool,
    appdata: Option<Seq<char>>,
    data_home: Option<Seq<char>>,
    home: Option<Seq<char>>,
)
    ensures
        uv_dir(Some(dir), windows, appdata, data_home, home) == Some(dir),
        uv_dir(None, true, Some(dir), data_home, home) == Some(
            joined_path(true, dir, "uv/data/python"@),
        ),
        uv_dir(None, true, None, data_home, home) is None,
        uv_dir(None, false, appdata, Some(dir), home) == Some(joined_path(false, dir, "uv/python"@)),
        uv_dir(None, false, appdata, None, Some(dir)) == Some(
            joined_path(false, joined_path(false, dir, ".local/share"@), "uv/python"@),
        ),
        uv_dir(None, false, appdata, None, None) is None,
{
}

proof fn lemma_after_space(tag: Seq<char>, rest: Seq<char>)
    requires
        forall|i: int| 0 <= i < tag.len() ==> !is_space(#[trigger] tag[i]),
    ensures
        after_space(tag + seq![' '] + rest) == Some(rest),
        after_space(tag) is None,
    decreases tag.len(),
{
    let s = tag + seq![' '] + rest;
    if tag.len() == 0 {
        assert(s.skip(1) =~= rest);
    } else {
        let t = tag.skip(1);
        assert forall|i: int| 0 <= i < t.len() implies !is_space(#[trigger] t[i]) by {
            assert(t[i] == tag[i + 1]);
        }
        assert(s.skip(1) =~= t + seq![' '] + rest);
        lemma_after_space(t, rest);
    }
}

/// A line of the launcher gives the path after its tag; a star, which marks the default, is
/// not part of it. A line without a tag gives none.
pub proof fn theorem_paths_of_the_launcher(tag: Seq<char>, path: Seq<char>)
    requires
        tag.len() > 0,
        tag[0] == '-',
        forall|i: int| 0 <= i < tag.len() ==> !is_space(#[trigger] tag[i]),
        path.len() > 0,
        !is_space(path[0]) && !is_space(path.last()),
        path[0] != '*' && path.last() != '*',
    ensures
        launcher_path(tag + seq![' '] + path) == Some(path),
        launcher_path(tag + seq![' '] + (seq!['*', ' '] + path)) == Some(path),
        launcher_path(tag) is None,
        path[0] != '-' ==> launcher_path(path) is None,
{
    let plain = tag + seq![' '] + path;
    let star = seq!['*', ' '] + path;
    let marked = tag + seq![' '] + star;
    lemma_after_space(tag, path);
    lemma_after_space(tag, star);
    assert(plain[0] == '-' && plain.last() == path.last());
    assert(marked[0] == '-' && marked.last() == path.last());
    assert(trimmed(plain) == plain);
    assert(trimmed(marked) == marked);
    assert(trimmed(path) == path);
    assert(star[0] == '*' && star.last() == path.last());
    assert(trimmed(star) == star);
    let after = star.skip(1);
    assert(after =~= seq![' '] + path);
    assert(after.skip(1) =~= path);
    assert(crate::text::trim_front(after) == crate::text::trim_front(path));
    assert(trimmed(after) == path);
    assert(tag[tag.len() - 1] == tag.last());
    assert(!is_space(tag[tag.len() - 1]));
    assert(trimmed(tag) == tag);
}

/// A star behind the path is not part of it either.
pub proof fn theorem_stars_behind_the_path(tag: Seq<char>, path: Seq<char>)
    requires
        tag.len() > 0,
        tag[0] == '-',
        forall|i: int| 0 <= i < tag.len() ==> !is_space(#[trigger] tag[i]),
        path.len() > 0,
        !is_space(path[0]) && !is_space(path.last()),
        path[0] != '*',
    ensures
        launcher_path(tag + seq![' '] + (path + seq![' ', '*'])) == Some(path),
{
    let rest = path + seq![' ', '*'];
    let line = tag + seq![' '] + rest;
    lemma_after_space(tag, rest);
    assert(line[0] == '-' && line.last() == '*');
    assert(trimmed(line) == line);
    assert(rest[0] == path[0] && rest.last() == '*');
    assert(trimmed(rest) == rest);
    let cut = rest.drop_last();
    assert(cut =~= path + seq![' ']);
    assert(cut.drop_last() =~= path);
    assert(cut[0] == path[0]);
    assert(crate::text::trim_front(cut) == cut);
    assert(crate::text::trim_back(cut) == crate::text::trim_back(path));
    assert(trimmed(cut) == path);
}

} // verus!
