//! Which tests need not run: those that passed last time and of which every
//! file they executed, and their own, is unchanged.

use crate::collect::{path_key, write_key};
use crate::digest::{
    lemma_encode_injective, lemma_middle, push_bytes, sha256_hex, sha256_text, told_apart,
};
use crate::nodeids::{file_of, file_part};
use crate::ordered_map::{OrderedMap, TextSet};
use crate::text::{
    contains_text, opt_text, starts, starts_with, str_eq, strip_prefix, texts,
};
use vstd::prelude::*;
use vstd::utf8::encode_utf8;

verus! {

broadcast use crate::text::lemma_texts_push;

/// Version of the stored outcomes.
pub const SCHEMA: u32 = 2;

/// What is known of one source file: its content hash when coverage was
/// measured, and which tests executed which of its lines.
pub struct CoverageFile {
    pub hash: String,
    pub lines: OrderedMap<u32, Vec<String>>,
}

/// Which tests executed which lines of which files.
pub struct CoverageIndex {
    pub schema: u32,
    pub files: OrderedMap<String, CoverageFile>,
}

impl CoverageFile {
    /// Whether test `id` executed `line`.
    pub open spec fn hit(self, line: u32, id: Seq<char>) -> bool {
        self.lines@.contains_key(line) && texts(self.lines@[line]@).contains(id)
    }

    /// Whether test `id` executed some line.
    pub open spec fn covered_by(self, id: Seq<char>) -> bool {
        exists|line: u32| self.hit(line, id)
    }
}

impl CoverageIndex {
    /// Whether test `id` executed a line of file `f`.
    pub open spec fn covers(self, id: Seq<char>, f: Seq<char>) -> bool {
        self.files@.contains_key(f) && self.files@[f].covered_by(id)
    }
}

/// The stored outcomes of a run.
pub struct Outcomes {
    pub schema: u32,
    /// Fingerprint of the configuration at that time.
    pub config_fp: String,
    /// Tests that passed.
    pub green: TextSet,
    /// Content hashes of the files of those tests.
    pub test_file_hashes: OrderedMap<String, String>,
    /// Lines at which tests are defined.
    pub test_lines: OrderedMap<String, u64>,
}

/// What a run may rely on of the one before.
pub struct Baseline {
    pub green: TextSet,
    pub test_file_hashes: OrderedMap<String, String>,
    pub test_lines: OrderedMap<String, u64>,
}

impl Baseline {
    /// Whether nothing can be relied on.
    pub open spec fn is_empty_baseline(self) -> bool {
        &&& self.green@ == Set::<Seq<char>>::empty()
        &&& self.test_file_hashes@ == Map::<Seq<char>, String>::empty()
        &&& self.test_lines@ == Map::<Seq<char>, u64>::empty()
    }
}

impl Default for Baseline {
    fn default() -> (res: Self)
        ensures
            res.is_empty_baseline(),
    {
        Baseline {
            green: TextSet::new(),
            test_file_hashes: OrderedMap::new(),
            test_lines: OrderedMap::new(),
        }
    }
}

/// Whether stored outcomes may be used: they are of this version, and the
/// configuration is still the same.
pub open spec fn usable(stored: Outcomes, config_fp: Seq<char>) -> bool {
    stored.schema == SCHEMA && stored.config_fp@ == config_fp
}

/// The baseline in stored outcomes; an empty one where they cannot be used.
pub fn load(stored: Option<Outcomes>, config_fp: &str) -> (res: Baseline)
    ensures
        loaded(stored, config_fp@, res),
{
    match stored {
        Some(o) => if o.schema == SCHEMA && str_eq(o.config_fp.as_str(), config_fp) {
            Baseline {
                green: o.green,
                test_file_hashes: o.test_file_hashes,
                test_lines: o.test_lines,
            }
        } else {
            Baseline::default()
        },
        None => Baseline::default(),
    }
}

/// Whether a call of `hash_of` on the path `f` gave `h`.
pub open spec fn hashed<F: Fn(&str) -> Option<String>>(
    hash_of: F,
    f: Seq<char>,
    h: Option<Seq<char>>,
) -> bool {
    exists|path: &str, r: Option<String>|
        path@ == f && opt_text(r) == h && #[trigger] call_ensures(hash_of, (path,), r)
}

/// Whether the hashes are those that `hash_of` gave.
pub open spec fn snapshot<F: Fn(&str) -> Option<String>>(
    hash_of: F,
    hashes: Map<Seq<char>, Option<Seq<char>>>,
) -> bool {
    forall|f: Seq<char>| #[trigger] hashes.contains_key(f) ==> hashed(hash_of, f, hashes[f])
}

/// The hashes of the files that have one, in characters.
pub open spec fn known_hashes(hashes: Map<Seq<char>, Option<Seq<char>>>) -> Map<
    Seq<char>,
    Seq<char>,
> {
    Map::new(
        |f: Seq<char>| hashes.contains_key(f) && hashes[f] is Some,
        |f: Seq<char>| hashes[f]->0,
    )
}

/// The test files of the tests in `green`.
pub open spec fn test_files(green: Set<Seq<char>>) -> Set<Seq<char>> {
    Set::new(|f: Seq<char>| exists|id: Seq<char>| #[trigger] green.contains(id) && file_part(id) == f)
}

/// The values of a map of strings, in characters.
pub open spec fn text_values(m: Map<Seq<char>, String>) -> Map<Seq<char>, Seq<char>> {
    m.map_values(|s: String| s@)
}

/// Hashes the file of every green test, once; files that cannot be hashed are
/// left out.
pub fn test_file_hashes<F: Fn(&str) -> Option<String>>(green: &TextSet, hash_of: F) -> (res: OrderedMap<
    String,
    String,
>)
    requires
        forall|path: &str|
            test_files(green@).contains(path@) ==> #[trigger] call_requires(hash_of, (path,)),
    ensures
        exists|hashes: Map<Seq<char>, Option<Seq<char>>>| #[trigger]
            snapshot(hash_of, hashes) && hashes.dom() == test_files(green@) && text_values(res@)
                == known_hashes(hashes),
{
    let n = green.len();
    let ghost l = green.list();
    let mut files: OrderedMap<String, String> = OrderedMap::new();
    let mut asked = TextSet::new();
    let ghost mut hashes: Map<Seq<char>, Option<Seq<char>>> = Map::empty();
    let mut i: usize = 0;
    proof {
        assert(text_values(files@) =~= known_hashes(hashes));
        assert(asked@ =~= hashes.dom());
    }
    while i < n
        invariant
            i <= n,
            n == l.len(),
            l == green.list(),
            green.listed(),
            forall|path: &str|
                test_files(green@).contains(path@) ==> #[trigger] call_requires(hash_of, (path,)),
            snapshot(hash_of, hashes),
            asked@ == hashes.dom(),
            text_values(files@) == known_hashes(hashes),
            forall|k: int| 0 <= k < i ==> hashes.contains_key(#[trigger] file_part(l[k])),
            forall|f: Seq<char>| #[trigger]
                hashes.contains_key(f) ==> exists|k: int|
                    0 <= k < i && #[trigger] file_part(l[k]) == f,
        decreases n - i,
    {
        let tf = file_of(green.at(i).as_str());
        proof {
            assert(tf@ == file_part(l[i as int]));
            assert(l.contains(l[i as int]));
            assert(green@.contains(l[i as int]));
            assert(test_files(green@).contains(tf@));
        }
        if !asked.contains(&tf) {
            let h = hash_of(tf.as_str());
            let ghost before = hashes;
            let ghost old_files = files@;
            proof {
                assert(hashed(hash_of, tf@, opt_text(h)));
                hashes = hashes.insert(tf@, opt_text(h));
                assert(asked@.insert(tf@) =~= hashes.dom());
            }
            if let Some(text) = h {
                files.insert(tf.clone(), text);
                proof {
                    assert(text_values(files@) =~= text_values(old_files).insert(tf@, text@));
                    assert(known_hashes(hashes) =~= known_hashes(before).insert(tf@, text@));
                }
            } else {
                assert(known_hashes(hashes) =~= known_hashes(before));
            }
            asked.insert(tf);
        }
        i += 1;
    }
    proof {
        assert forall|f: Seq<char>| hashes.dom().contains(f) == test_files(green@).contains(f) by {
            if hashes.contains_key(f) {
                let k = choose|k: int| 0 <= k < i && #[trigger] file_part(l[k]) == f;
                assert(l.contains(l[k]));
                assert(green@.contains(l[k]));
            }
            if test_files(green@).contains(f) {
                let id = choose|id: Seq<char>| #[trigger] green@.contains(id) && file_part(id) == f;
                assert(l.contains(id));
                let k = choose|k: int| 0 <= k < l.len() && l[k] == id;
                assert(hashes.contains_key(file_part(l[k])));
            }
        }
        assert(hashes.dom() =~= test_files(green@));
    }
    files
}

/// The outcomes to store after a run.
pub fn record<F: Fn(&str) -> Option<String>>(
    config_fp: &str,
    green: TextSet,
    lines: OrderedMap<String, u64>,
    hash_of: F,
) -> (res: Outcomes)
    requires
        forall|path: &str|
            test_files(green@).contains(path@) ==> #[trigger] call_requires(hash_of, (path,)),
    ensures
        is_record(res, config_fp@, green@, lines@),
        exists|hashes: Map<Seq<char>, Option<Seq<char>>>| #[trigger]
            snapshot(hash_of, hashes) && hashes.dom() == test_files(green@) && text_values(
                res.test_file_hashes@,
            ) == known_hashes(hashes),
{
    let test_file_hashes = test_file_hashes(&green, hash_of);
    Outcomes {
        schema: SCHEMA,
        config_fp: config_fp.to_owned(),
        green,
        test_file_hashes,
        test_lines: lines,
    }
}

/// Whether arguments ask for coverage to be measured.
pub open spec fn asks_for_coverage(args: Seq<Seq<char>>) -> bool {
    exists|i: int|
        0 <= i < args.len() && (#[trigger] args[i] == "--cov"@ || starts(args[i], "--cov="@))
}

/// Whether the session measures coverage.
pub fn coverage_requested(args: &[String]) -> (res: bool)
    ensures
        res == asks_for_coverage(texts(args@)),
{
    let ghost all = texts(args@);
    let mut i: usize = 0;
    while i < args.len()
        invariant
            i <= args.len(),
            all == texts(args@),
            forall|j: int|
                0 <= j < i ==> !(#[trigger] all[j] == "--cov"@ || starts(all[j], "--cov="@)),
        decreases args.len() - i,
    {
        let a = args[i].as_str();
        assert(all[i as int] == a@);
        if str_eq(a, "--cov") || starts_with(a, "--cov=") {
            return true;
        }
        i += 1;
    }
    false
}

/// Whether an argument asks for the coverage of the whole tree.
pub open spec fn whole_tree(a: Seq<char>) -> bool {
    ||| a == "--cov"@
    ||| starts(a, "--cov="@) && ({
        let v = a.skip("--cov="@.len() as int);
        v == ""@ || v == "."@ || v == "./"@
    })
}

/// Whether coverage is limited to a part of the tree: some argument limits it,
/// and none asks for the whole.
pub fn cov_scope_narrowed(args: &[String]) -> (res: bool)
    ensures
        res == narrowed(texts(args@)),
{
    let ghost all = texts(args@);
    let mut any_scoped = false;
    let mut i: usize = 0;
    while i < args.len()
        invariant
            i <= args.len(),
            all == texts(args@),
            any_scoped == exists|j: int| 0 <= j < i && starts(#[trigger] all[j], "--cov="@),
            forall|j: int| 0 <= j < i ==> !whole_tree(#[trigger] all[j]),
        decreases args.len() - i,
    {
        let a = args[i].as_str();
        assert(all[i as int] == a@);
        if str_eq(a, "--cov") {
            return false;
        }
        if let Some(v) = strip_prefix(a, "--cov=") {
            if str_eq(v.as_str(), "") || str_eq(v.as_str(), ".") || str_eq(v.as_str(), "./") {
                return false;
            }
            any_scoped = true;
        }
        i += 1;
    }
    any_scoped
}

/// The files by which a run is configured, by their names in the project.
pub open spec fn config_files() -> Seq<Seq<char>> {
    seq!["pyproject.toml"@, "pytest.ini"@, "setup.cfg"@, "tox.ini"@, ".coveragerc"@]
}

/// What one file adds to the fingerprint: its path and the digest of its content.
pub open spec fn file_bytes(path: Seq<char>, content: Seq<u8>) -> Seq<u8> {
    encode_utf8(path) + encode_utf8(sha256_text(content))
}

/// What the first `n` configuration files add, those that are there.
pub open spec fn config_bytes(configs: Map<Seq<char>, Vec<u8>>, n: nat) -> Seq<u8>
    decreases n,
{
    if n == 0 {
        Seq::empty()
    } else {
        let name = config_files()[n - 1];
        let before = config_bytes(configs, (n - 1) as nat);
        if configs.contains_key(name) {
            before + file_bytes(name, configs[name]@)
        } else {
            before
        }
    }
}

/// The keys of the paths of files.
pub open spec fn path_keys(windows: bool, files: Seq<(String, Vec<u8>)>) -> Seq<Seq<char>> {
    Seq::new(files.len(), |i: int| path_key(windows, files[i].0@))
}

/// What files add to the fingerprint, taken in the order given.
pub open spec fn files_bytes(files: Seq<(String, Vec<u8>)>, order: Seq<int>) -> Seq<u8>
    decreases order.len(),
{
    if order.len() == 0 {
        Seq::empty()
    } else {
        let f = files[order.last()];
        files_bytes(files, order.drop_last()) + file_bytes(f.0@, f.1@)
    }
}

/// Whether a fingerprint is the digest of these bytes: the configuration files that
/// are there, and every `conftest.py` in the order of the paths.
pub open spec fn digested(
    windows: bool,
    bytes: Seq<u8>,
    configs: Map<Seq<char>, Vec<u8>>,
    conftests: Seq<(String, Vec<u8>)>,
) -> bool {
    exists|order: Seq<int>| #[trigger]
        crate::rank::ranked::<String>(order, path_keys(windows, conftests)) && bytes == config_bytes(
            configs,
            5,
        ) + files_bytes(conftests, order)
}

fn push_file(out: &mut Vec<u8>, path: &str, content: &[u8])
    ensures
        final(out)@ == old(out)@ + file_bytes(path@, content@),
{
    let ghost start = out@;
    let sha = sha256_hex(content);
    push_bytes(out, path.as_bytes());
    push_bytes(out, sha.as_str().as_bytes());
    assert(out@ =~= start + file_bytes(path@, content@));
}

fn push_config(out: &mut Vec<u8>, configs: &OrderedMap<String, Vec<u8>>, name: &str, Ghost(n): Ghost<
    nat,
>)
    requires
        n < config_files().len(),
        name@ == config_files()[n as int],
        old(out)@ == config_bytes(configs@, n),
    ensures
        final(out)@ == config_bytes(configs@, n + 1),
{
    match configs.get(&name.to_owned()) {
        Some(content) => push_file(out, name, content.as_slice()),
        None => {},
    }
}

/// A fingerprint of the configuration: the configuration files that are there, by
/// name, and every `conftest.py`, by its path from the project and in the order
/// of the paths.
pub fn config_fingerprint(
    configs: &OrderedMap<String, Vec<u8>>,
    conftests: &[(String, Vec<u8>)],
    windows: bool,
) -> (res: String)
    ensures
        exists|bytes: Seq<u8>| #[trigger]
            digested(windows, bytes, configs@, conftests@) && res@ == sha256_text(bytes),
{
    let mut bytes: Vec<u8> = Vec::new();
    assert(bytes@ =~= config_bytes(configs@, 0));
    push_config(&mut bytes, configs, "pyproject.toml", Ghost(0));
    push_config(&mut bytes, configs, "pytest.ini", Ghost(1));
    push_config(&mut bytes, configs, "setup.cfg", Ghost(2));
    push_config(&mut bytes, configs, "tox.ini", Ghost(3));
    push_config(&mut bytes, configs, ".coveragerc", Ghost(4));
    let ghost head = bytes@;
    let mut keys: Vec<String> = Vec::new();
    let mut i: usize = 0;
    while i < conftests.len()
        invariant
            i <= conftests.len(),
            keys.len() == i,
            forall|j: int| 0 <= j < i ==> (#[trigger] keys@[j])@ == path_key(
                windows,
                conftests@[j].0@,
            ),
        decreases conftests.len() - i,
    {
        keys.push(write_key(windows, conftests[i].0.as_str()));
        i += 1;
    }
    let order = crate::rank::rank(keys.as_slice());
    let ghost p = crate::rank::positions(order@);
    proof {
        assert(crate::rank::models(keys@) =~= path_keys(windows, conftests@));
        assert(files_bytes(conftests@, p.take(0)) =~= Seq::empty());
        assert(head + Seq::<u8>::empty() =~= head);
    }
    let mut k: usize = 0;
    while k < order.len()
        invariant
            k <= order.len(),
            p == crate::rank::positions(order@),
            crate::rank::ranked::<String>(p, path_keys(windows, conftests@)),
            bytes@ == head + files_bytes(conftests@, p.take(k as int)),
        decreases order.len() - k,
    {
        proof {
            assert(0 <= p[k as int] < path_keys(windows, conftests@).len());
            assert(p.take(k + 1).drop_last() =~= p.take(k as int));
            assert(p.take(k + 1).last() == order@[k as int]);
        }
        let f = &conftests[order[k]];
        let ghost before = bytes@;
        push_file(&mut bytes, f.0.as_str(), f.1.as_slice());
        assert(bytes@ =~= head + (files_bytes(conftests@, p.take(k as int)) + file_bytes(
            f.0@,
            f.1@,
        )));
        k += 1;
    }
    assert(p.take(order.len() as int) =~= p);
    assert(digested(windows, bytes@, configs@, conftests@));
    sha256_hex(bytes.as_slice())
}

/// Files are taken in one order, so that there is one fingerprint.
pub proof fn theorem_fingerprint_order_is_unique(
    windows: bool,
    conftests: Seq<(String, Vec<u8>)>,
    a: Seq<int>,
    b: Seq<int>,
)
    requires
        crate::rank::ranked::<String>(a, path_keys(windows, conftests)),
        crate::rank::ranked::<String>(b, path_keys(windows, conftests)),
    ensures
        files_bytes(conftests, a) == files_bytes(conftests, b),
{
    crate::rank::theorem_ranking_is_unique::<String>(a, b, path_keys(windows, conftests));
}

proof fn lemma_files_bytes_add(files: Seq<(String, Vec<u8>)>, a: Seq<int>, b: Seq<int>)
    ensures
        files_bytes(files, a + b) == files_bytes(files, a) + files_bytes(files, b),
    decreases b.len(),
{
    if b.len() == 0 {
        assert(a + b =~= a);
        assert(files_bytes(files, a) + files_bytes(files, b) =~= files_bytes(files, a));
    } else {
        lemma_files_bytes_add(files, a, b.drop_last());
        assert((a + b).drop_last() =~= a + b.drop_last());
        assert((a + b).last() == b.last());
        assert(files_bytes(files, a + b) =~= files_bytes(files, a) + files_bytes(files, b));
    }
}

proof fn lemma_same_files_bytes(
    v: Seq<(String, Vec<u8>)>,
    a: Seq<int>,
    w: Seq<(String, Vec<u8>)>,
    b: Seq<int>,
)
    requires
        a.len() == b.len(),
        forall|i: int| 0 <= i < a.len() ==> v[#[trigger] a[i]] == w[b[i]],
    ensures
        files_bytes(v, a) == files_bytes(w, b),
    decreases a.len(),
{
    if a.len() > 0 {
        let x = a.drop_last();
        assert forall|i: int| 0 <= i < x.len() implies v[#[trigger] x[i]] == w[b.drop_last()[i]] by {
            assert(x[i] == a[i]);
        }
        lemma_same_files_bytes(v, x, w, b.drop_last());
        assert(v[a[a.len() - 1]] == w[b[b.len() - 1]]);
    }
}

/// The position in a list that a position in it without that of `t` stands for.
spec fn past(t: int, i: int) -> int {
    if i < t {
        i
    } else {
        i + 1
    }
}

/// The position of a file once that at `k` is gone.
spec fn lowered(k: int, j: int) -> int {
    if j > k {
        j - 1
    } else {
        j
    }
}

/// Whether `p` is `q` without the file at `k`, which `q` has at `t`.
spec fn drops(p: Seq<int>, q: Seq<int>, k: int, t: int) -> bool {
    &&& 0 <= t < q.len()
    &&& q[t] == k
    &&& p.len() + 1 == q.len()
    &&& forall|i: int|
        0 <= i < p.len() ==> q[past(t, i)] != k && #[trigger] p[i] == lowered(k, q[past(t, i)])
}

/// Without a file, the others are taken in the same order.
proof fn lemma_order_without(
    windows: bool,
    v: Seq<(String, Vec<u8>)>,
    k: int,
    f: (String, Vec<u8>),
    p: Seq<int>,
    q: Seq<int>,
) -> (t: int)
    requires
        0 <= k <= v.len(),
        crate::rank::ranked::<String>(p, path_keys(windows, v)),
        crate::rank::ranked::<String>(q, path_keys(windows, v.insert(k, f))),
    ensures
        drops(p, q, k, t),
{
    let w = v.insert(k, f);
    let kv = path_keys(windows, v);
    let kw = path_keys(windows, w);
    crate::rank::theorem_ranking_is_a_permutation::<String>(q, kw);
    assert(q.contains(k));
    let t = choose|t: int| 0 <= t < q.len() && q[t] == k;
    let r = Seq::new(v.len(), |i: int| lowered(k, q[past(t, i)]));
    assert forall|i: int| 0 <= i < r.len() implies 0 <= #[trigger] r[i] < kv.len() && q[past(t, i)]
        != k by {
        let x = past(t, i);
        assert(x != t && 0 <= q[x] < kw.len());
    }
    assert forall|a: int, b: int| 0 <= a < b < r.len() implies #[trigger] crate::rank::ahead::<
        String,
    >(kv, r[a], r[b]) by {
        let x = past(t, a);
        let y = past(t, b);
        assert(0 <= r[a] < kv.len() && 0 <= r[b] < kv.len());
        assert(crate::rank::ahead::<String>(kw, q[x], q[y]));
        assert(0 <= q[x] < kw.len() && 0 <= q[y] < kw.len());
        assert(kw[q[x]] == kv[r[a]]);
        assert(kw[q[y]] == kv[r[b]]);
    }
    crate::rank::theorem_ranking_is_unique::<String>(p, r, kv);
    t
}

/// Where a file adds to the fingerprint.
proof fn lemma_bytes_with(
    v: Seq<(String, Vec<u8>)>,
    k: int,
    f: (String, Vec<u8>),
    p: Seq<int>,
    q: Seq<int>,
    t: int,
)
    requires
        0 <= k <= v.len(),
        q.len() == v.len() + 1,
        forall|i: int| 0 <= i < q.len() ==> 0 <= #[trigger] q[i] <= v.len(),
        drops(p, q, k, t),
    ensures
        files_bytes(v.insert(k, f), q) == files_bytes(v, p.take(t)) + file_bytes(f.0@, f.1@)
            + files_bytes(v, p.skip(t)),
        files_bytes(v, p) == files_bytes(v, p.take(t)) + files_bytes(v, p.skip(t)),
{
    let w = v.insert(k, f);
    let before = q.take(t);
    let after = q.skip(t + 1);
    let one = seq![k];
    assert(q =~= before + one + after);
    assert(p =~= p.take(t) + p.skip(t));
    lemma_files_bytes_add(v, p.take(t), p.skip(t));
    lemma_files_bytes_add(w, before + one, after);
    lemma_files_bytes_add(w, before, one);
    assert forall|i: int| 0 <= i < before.len() implies w[#[trigger] before[i]] == v[p.take(
        t,
    )[i]] by {
        assert(p[i] == p.take(t)[i]);
        assert(q[i] == before[i]);
    }
    assert forall|i: int| 0 <= i < after.len() implies w[#[trigger] after[i]] == v[p.skip(t)[i]] by {
        assert(p[i + t] == p.skip(t)[i]);
        assert(q[i + t + 1] == after[i]);
    }
    lemma_same_files_bytes(w, before, v, p.take(t));
    lemma_same_files_bytes(w, after, v, p.skip(t));
    assert(one.drop_last() =~= Seq::empty());
    assert(files_bytes(w, one) =~= file_bytes(f.0@, f.1@)) by {
        reveal_with_fuel(files_bytes, 2);
    }
}

/// A `conftest.py` that is added changes the fingerprint, one that is edited changes
/// it again, and one that is removed restores it, as long as different contents have
/// different digests.
#[verifier::spinoff_prover]
#[verifier::rlimit(60)]
pub proof fn theorem_conftest_changes_fingerprint(
    windows: bool,
    configs: Map<Seq<char>, Vec<u8>>,
    conftests: Seq<(String, Vec<u8>)>,
    k: int,
    f: (String, Vec<u8>),
    g: (String, Vec<u8>),
    base: Seq<u8>,
    added: Seq<u8>,
    edited: Seq<u8>,
    removed: Seq<u8>,
)
    requires
        0 <= k <= conftests.len(),
        f.0@.len() > 0,
        f.0@ == g.0@,
        f.1@ != g.1@,
        digested(windows, base, configs, conftests),
        digested(windows, added, configs, conftests.insert(k, f)),
        digested(windows, edited, configs, conftests.insert(k, g)),
        digested(windows, removed, configs, conftests.insert(k, g).remove(k)),
        told_apart(f.1@, g.1@),
        told_apart(base, added),
        told_apart(added, edited),
    ensures
        base != added,
        added != edited,
        sha256_text(base) != sha256_text(added),
        sha256_text(added) != sha256_text(edited),
        sha256_text(removed) == sha256_text(base),
{
    let v = conftests;
    let w = v.insert(k, f);
    let u = v.insert(k, g);
    let head = config_bytes(configs, 5);
    let p = choose|order: Seq<int>| #[trigger]
        crate::rank::ranked::<String>(order, path_keys(windows, v)) && base == head + files_bytes(v, order);
    let q = choose|order: Seq<int>| #[trigger]
        crate::rank::ranked::<String>(order, path_keys(windows, w)) && added == head + files_bytes(w, order);
    let q2 = choose|order: Seq<int>| #[trigger]
        crate::rank::ranked::<String>(order, path_keys(windows, u)) && edited == head + files_bytes(u, order);
    assert(u.remove(k) =~= v);
    let p2 = choose|order: Seq<int>| #[trigger]
        crate::rank::ranked::<String>(order, path_keys(windows, v)) && removed == head + files_bytes(v, order);
    theorem_fingerprint_order_is_unique(windows, v, p, p2);
    assert(path_keys(windows, u) =~= path_keys(windows, w));
    crate::rank::theorem_ranking_is_unique::<String>(q, q2, path_keys(windows, w));
    let t = lemma_order_without(windows, v, k, f, p, q);
    let x = file_bytes(f.0@, f.1@);
    let y = file_bytes(g.0@, g.1@);
    lemma_bytes_with(v, k, f, p, q, t);
    lemma_bytes_with(v, k, g, p, q, t);
    let a = head + files_bytes(v, p.take(t));
    let z = files_bytes(v, p.skip(t));
    assert(added =~= a + x + z);
    assert(edited =~= a + y + z);
    assert(base =~= a + z);
    lemma_encode_injective(f.0@, f.0@);
    assert(base.len() < added.len());
    if added == edited {
        lemma_middle(a, x, y, z);
        let path = encode_utf8(f.0@);
        let none = Seq::<u8>::empty();
        let sf = encode_utf8(sha256_text(f.1@));
        let sg = encode_utf8(sha256_text(g.1@));
        assert(x =~= path + sf + none);
        assert(y =~= path + sg + none);
        lemma_middle(path, sf, sg, none);
        lemma_encode_injective(sha256_text(f.1@), sha256_text(g.1@));
    }
}

/// The content of a configuration file, where it is there.
pub open spec fn config_at(configs: Map<Seq<char>, Vec<u8>>, name: Seq<char>) -> Option<Seq<u8>> {
    if configs.contains_key(name) {
        Some(configs[name]@)
    } else {
        None
    }
}

/// What a configuration file adds to the fingerprint.
spec fn config_part(configs: Map<Seq<char>, Vec<u8>>, name: Seq<char>) -> Seq<u8> {
    match config_at(configs, name) {
        Some(c) => file_bytes(name, c),
        None => Seq::empty(),
    }
}

proof fn lemma_config_bytes(
    a: Map<Seq<char>, Vec<u8>>,
    b: Map<Seq<char>, Vec<u8>>,
    i: int,
    n: nat,
)
    requires
        0 <= i < 5,
        n <= 5,
        forall|j: int|
            0 <= j < 5 && j != i ==> config_part(a, #[trigger] config_files()[j]) == config_part(
                b,
                config_files()[j],
            ),
        config_part(a, config_files()[i]) != config_part(b, config_files()[i]),
    ensures
        n <= i ==> config_bytes(a, n) == config_bytes(b, n),
        n > i ==> config_bytes(a, n) != config_bytes(b, n),
    decreases n,
{
    if n > 0 {
        let m = (n - 1) as nat;
        lemma_config_bytes(a, b, i, m);
        let x = config_part(a, config_files()[n - 1]);
        let y = config_part(b, config_files()[n - 1]);
        let none = Seq::<u8>::empty();
        assert(config_bytes(a, n) =~= config_bytes(a, m) + x);
        assert(config_bytes(b, n) =~= config_bytes(b, m) + y);
        if m == i {
            assert(config_bytes(a, n) =~= config_bytes(a, m) + x + none);
            assert(config_bytes(b, n) =~= config_bytes(a, m) + y + none);
            lemma_middle(config_bytes(a, m), x, y, none);
        } else if m > i {
            assert(x == y);
            assert(config_bytes(a, n) =~= none + config_bytes(a, m) + x);
            assert(config_bytes(b, n) =~= none + config_bytes(b, m) + x);
            lemma_middle(none, config_bytes(a, m), config_bytes(b, m), x);
        }
    }
}

/// A configuration file that is added, edited or removed changes the fingerprint, as
/// long as different contents have different digests.
pub proof fn theorem_config_file_changes_fingerprint(
    windows: bool,
    a: Map<Seq<char>, Vec<u8>>,
    b: Map<Seq<char>, Vec<u8>>,
    conftests: Seq<(String, Vec<u8>)>,
    i: int,
    before: Seq<u8>,
    after: Seq<u8>,
)
    requires
        0 <= i < config_files().len(),
        forall|j: int|
            0 <= j < config_files().len() && j != i ==> config_at(a, #[trigger] config_files()[j])
                == config_at(b, config_files()[j]),
        config_at(a, config_files()[i]) != config_at(b, config_files()[i]),
        digested(windows, before, a, conftests),
        digested(windows, after, b, conftests),
        config_at(a, config_files()[i]) matches Some(c) ==> (config_at(
            b,
            config_files()[i],
        ) matches Some(d) ==> told_apart(c, d)),
        told_apart(before, after),
    ensures
        before != after,
        sha256_text(before) != sha256_text(after),
{
    let p = choose|order: Seq<int>| #[trigger]
        crate::rank::ranked::<String>(order, path_keys(windows, conftests)) && before == config_bytes(a, 5)
            + files_bytes(conftests, order);
    let q = choose|order: Seq<int>| #[trigger]
        crate::rank::ranked::<String>(order, path_keys(windows, conftests)) && after == config_bytes(b, 5)
            + files_bytes(conftests, order);
    theorem_fingerprint_order_is_unique(windows, conftests, p, q);
    let name = config_files()[i];
    let x = config_part(a, name);
    let y = config_part(b, name);
    let none = Seq::<u8>::empty();
    reveal_strlit("pyproject.toml");
    reveal_strlit("pytest.ini");
    reveal_strlit("setup.cfg");
    reveal_strlit("tox.ini");
    reveal_strlit(".coveragerc");
    assert(name.len() > 0);
    lemma_encode_injective(name, name);
    if x == y {
        if let Some(c) = config_at(a, name) {
            if let Some(d) = config_at(b, name) {
                let m = encode_utf8(name);
                let sc = encode_utf8(sha256_text(c));
                let sd = encode_utf8(sha256_text(d));
                assert(m + sc + none =~= x);
                assert(m + sd + none =~= y);
                lemma_middle(m, sc, sd, none);
                lemma_encode_injective(sha256_text(c), sha256_text(d));
            }
        }
    }
    lemma_config_bytes(a, b, i, 5);
    let tail = files_bytes(conftests, p);
    assert(before =~= none + config_bytes(a, 5) + tail);
    assert(after =~= none + config_bytes(b, 5) + tail);
    lemma_middle(none, config_bytes(a, 5), config_bytes(b, 5), tail);
}

/// What to do with a directory entry while looking for `conftest.py`.
#[derive(Clone, Copy, Debug, PartialEq, Eq, Structural)]
pub enum EntryAction {
    Skip,
    Descend,
    Collect,
}

/// Directories that are never searched.
pub open spec fn pruned(name: Seq<char>) -> bool {
    ||| name.len() > 0 && name[0] == '.'
    ||| name == "venv"@
    ||| name == "node_modules"@
    ||| name == "__pycache__"@
}

fn is_pruned(name: &str) -> (res: bool)
    ensures
        res == pruned(name@),
{
    let v = crate::text::to_chars(name);
    (v.len() > 0 && v[0] == '.') || str_eq(name, "venv") || str_eq(name, "node_modules") || str_eq(
        name,
        "__pycache__",
    )
}

/// Decides on a directory entry by its name and by whether it is a directory,
/// where that is known.
pub fn classify_entry(is_dir: Option<bool>, name: &str) -> (res: EntryAction)
    ensures
        res == action_for(is_dir, name@),
{
    match is_dir {
        None => EntryAction::Skip,
        Some(dir) => if dir {
            if is_pruned(name) {
                EntryAction::Skip
            } else {
                EntryAction::Descend
            }
        } else if str_eq(name, "conftest.py") {
            EntryAction::Collect
        } else {
            EntryAction::Skip
        },
    }
}

/// Whether an inverted index says that test `id` covers file `f`.
pub open spec fn says(m: Map<Seq<char>, TextSet>, id: Seq<char>, f: Seq<char>) -> bool {
    m.contains_key(id) && m[id]@.contains(f)
}

/// Whether no test of an inverted index covers nothing.
pub open spec fn none_idle(m: Map<Seq<char>, TextSet>) -> bool {
    forall|id: Seq<char>| #[trigger]
        m.contains_key(id) ==> exists|f: Seq<char>| #[trigger] m[id]@.contains(f)
}

fn add_ids(map: &mut OrderedMap<String, TextSet>, f: &String, ids: &Vec<String>)
    requires
        none_idle(old(map)@),
    ensures
        none_idle(final(map)@),
        forall|id: Seq<char>, g: Seq<char>| #[trigger]
            says(final(map)@, id, g) == (says(old(map)@, id, g) || (g == f@ && texts(
                ids@,
            ).contains(id))),
{
    let ghost all = texts(ids@);
    let ghost start = map@;
    let mut k: usize = 0;
    while k < ids.len()
        invariant
            k <= ids.len(),
            all == texts(ids@),
            none_idle(map@),
            forall|id: Seq<char>, g: Seq<char>| #[trigger]
                says(map@, id, g) == (says(start, id, g) || (g == f@ && all.take(
                    k as int,
                ).contains(id))),
        decreases ids.len() - k,
    {
        let ghost before = map@;
        let id = &ids[k];
        let mut files = match map.remove(id) {
            Some(set) => set,
            None => TextSet::new(),
        };
        let ghost had = files@;
        files.insert(f.clone());
        map.insert(id.clone(), files);
        proof {
            assert(map@ =~= before.insert(id@, files));
            let t = all.take(k as int);
            let u = all.take(k + 1);
            assert(u =~= t.push(id@));
            assert forall|x: Seq<char>, g: Seq<char>| #[trigger]
                says(map@, x, g) == (says(start, x, g) || (g == f@ && u.contains(x))) by {
                assert(says(before, x, g) == (says(start, x, g) || (g == f@ && t.contains(x))));
                if t.contains(x) {
                    let j = choose|j: int| 0 <= j < t.len() && t[j] == x;
                    assert(u[j] == x);
                }
                if u.contains(x) {
                    let j = choose|j: int| 0 <= j < u.len() && u[j] == x;
                    if j < k {
                        assert(t[j] == x);
                    }
                }
                assert(u[k as int] == id@);
                if x == id@ {
                    assert(files@ == had.insert(f@));
                    assert(says(before, x, g) == had.contains(g));
                }
            }
            assert(map@[id@]@.contains(f@));
            assert forall|x: Seq<char>| #[trigger] map@.contains_key(x) implies exists|g: Seq<char>|
             #[trigger] map@[x]@.contains(g) by {
                if x != id@ {
                    assert(before.contains_key(x));
                    let g = choose|g: Seq<char>| #[trigger] before[x]@.contains(g);
                    assert(map@[x]@.contains(g));
                }
            }
        }
        k += 1;
    }
    assert(all.take(ids.len() as int) =~= all);
}

fn add_file(map: &mut OrderedMap<String, TextSet>, f: &String, file: &CoverageFile)
    requires
        none_idle(old(map)@),
    ensures
        none_idle(final(map)@),
        forall|id: Seq<char>, g: Seq<char>| #[trigger]
            says(final(map)@, id, g) == (says(old(map)@, id, g) || (g == f@ && file.covered_by(
                id,
            ))),
{
    let n = file.lines.len();
    let ghost l = file.lines.list();
    let ghost start = map@;
    let mut j: usize = 0;
    while j < n
        invariant
            j <= n,
            n == l.len(),
            l == file.lines.list(),
            none_idle(map@),
            forall|id: Seq<char>, g: Seq<char>| #[trigger]
                says(map@, id, g) == (says(start, id, g) || (g == f@ && exists|i: int|
                    0 <= i < j && texts((#[trigger] l[i]).1@).contains(id))),
        decreases n - j,
    {
        let ghost before = map@;
        let (_, ids) = file.lines.at(j);
        add_ids(map, f, ids);
        proof {
            assert forall|id: Seq<char>, g: Seq<char>| #[trigger]
                says(map@, id, g) == (says(start, id, g) || (g == f@ && exists|i: int|
                    0 <= i < j + 1 && texts((#[trigger] l[i]).1@).contains(id))) by {
                assert(says(before, id, g) == (says(start, id, g) || (g == f@ && exists|i: int|
                    0 <= i < j && texts((#[trigger] l[i]).1@).contains(id))));
                assert(*ids == l[j as int].1);
                if texts(ids@).contains(id) {
                    assert(texts(l[j as int].1@).contains(id));
                }
            }
        }
        j += 1;
    }
    proof {
        assert forall|id: Seq<char>, g: Seq<char>| #[trigger]
            says(map@, id, g) == (says(start, id, g) || (g == f@ && file.covered_by(id))) by {
            assert(says(map@, id, g) == (says(start, id, g) || (g == f@ && exists|i: int|
                0 <= i < j && texts((#[trigger] l[i]).1@).contains(id))));
            if file.covered_by(id) {
                let line = choose|line: u32| file.hit(line, id);
                assert(file.lines@.contains_key(line));
                let i = choose|i: int| #[trigger] crate::ordered_map::key_at(l, i, line);
                assert(texts(l[i].1@).contains(id));
            }
            if exists|i: int| 0 <= i < j && texts((#[trigger] l[i]).1@).contains(id) {
                let i = choose|i: int| 0 <= i < j && texts((#[trigger] l[i]).1@).contains(id);
                assert(file.hit(l[i].0, id));
            }
        }
    }
}

/// Inverts the index: the files that each test covered.
pub fn covered_files(index: &CoverageIndex) -> (res: OrderedMap<String, TextSet>)
    ensures
        forall|id: Seq<char>, f: Seq<char>| #[trigger] says(res@, id, f) == index.covers(id, f),
        none_idle(res@),
{
    let n = index.files.len();
    let ghost l = index.files.list();
    let mut map: OrderedMap<String, TextSet> = OrderedMap::new();
    let mut i: usize = 0;
    while i < n
        invariant
            i <= n,
            n == l.len(),
            l == index.files.list(),
            none_idle(map@),
            forall|id: Seq<char>, g: Seq<char>| #[trigger]
                says(map@, id, g) == exists|k: int|
                    0 <= k < i && (#[trigger] l[k]).0@ == g && l[k].1.covered_by(id),
        decreases n - i,
    {
        let ghost before = map@;
        let (f, file) = index.files.at(i);
        add_file(&mut map, f, file);
        proof {
            assert forall|id: Seq<char>, g: Seq<char>| #[trigger]
                says(map@, id, g) == exists|k: int|
                    0 <= k < i + 1 && (#[trigger] l[k]).0@ == g && l[k].1.covered_by(id) by {
                assert(says(before, id, g) == exists|k: int|
                    0 <= k < i && (#[trigger] l[k]).0@ == g && l[k].1.covered_by(id));
                assert(*file == l[i as int].1 && f@ == l[i as int].0@);
                if g == f@ && file.covered_by(id) {
                    assert(l[i as int].0@ == g);
                }
            }
        }
        i += 1;
    }
    proof {
        assert forall|id: Seq<char>, f: Seq<char>| #[trigger]
            says(map@, id, f) == index.covers(id, f) by {
            assert(says(map@, id, f) == exists|k: int|
                0 <= k < i && (#[trigger] l[k]).0@ == f && l[k].1.covered_by(id));
            if index.covers(id, f) {
                assert(index.files@.contains_key(f));
                let k = choose|k: int| #[trigger] crate::ordered_map::key_at(l, k, f);
                assert(l[k].0@ == f && l[k].1.covered_by(id));
            }
            if exists|k: int| 0 <= k < i && (#[trigger] l[k]).0@ == f && l[k].1.covered_by(id) {
                let k = choose|k: int|
                    0 <= k < i && (#[trigger] l[k]).0@ == f && l[k].1.covered_by(id);
                assert(index.files@.contains_key(l[k].0@));
            }
        }
    }
    map
}

/// The hash of a file now, where it was looked at and has one.
pub open spec fn live(hashes: Map<Seq<char>, Option<Seq<char>>>, f: Seq<char>) -> Option<
    Seq<char>,
> {
    if hashes.contains_key(f) {
        hashes[f]
    } else {
        None
    }
}

/// Whether a file that the index knows has the hash now that it had then.
pub open spec fn unchanged(
    index: CoverageIndex,
    hashes: Map<Seq<char>, Option<Seq<char>>>,
    f: Seq<char>,
) -> bool {
    index.files@.contains_key(f) && live(hashes, f) == Some(index.files@[f].hash@)
}

/// Whether the file of a test has the hash now that it had when it passed.
pub open spec fn own_file_unchanged(
    baseline: Baseline,
    hashes: Map<Seq<char>, Option<Seq<char>>>,
    id: Seq<char>,
) -> bool {
    let tf = file_part(id);
    baseline.test_file_hashes@.contains_key(tf) && live(hashes, tf) == Some(
        baseline.test_file_hashes@[tf]@,
    )
}

/// Whether a test need not run: it passed, it covered something, and neither
/// its own file nor any that it covered has changed.
pub open spec fn need_not_run(
    index: CoverageIndex,
    baseline: Baseline,
    hashes: Map<Seq<char>, Option<Seq<char>>>,
    id: Seq<char>,
) -> bool {
    &&& baseline.green@.contains(id)
    &&& exists|f: Seq<char>| index.covers(id, f)
    &&& own_file_unchanged(baseline, hashes, id)
    &&& forall|f: Seq<char>| #[trigger] index.covers(id, f) ==> unchanged(index, hashes, f)
}

/// The files that decide: those that a green test covered, and its own.
pub open spec fn files_needed(index: CoverageIndex, baseline: Baseline) -> Set<Seq<char>> {
    Set::new(
        |f: Seq<char>|
            exists|id: Seq<char>|
                #![trigger baseline.green@.contains(id)]
                baseline.green@.contains(id) && (exists|g: Seq<char>| index.covers(id, g)) && (
                index.covers(id, f) || file_part(id) == f),
    )
}

/// Hashes some files, each once.
fn hash_all<F: Fn(&str) -> Option<String>>(files: &TextSet, hash_of: F) -> (res: OrderedMap<
    String,
    Option<String>,
>)
    requires
        forall|path: &str| files@.contains(path@) ==> #[trigger] call_requires(hash_of, (path,)),
    ensures
        res@.dom() == files@,
        snapshot(hash_of, hash_texts(res@)),
{
    let n = files.len();
    let ghost l = files.list();
    let mut out: OrderedMap<String, Option<String>> = OrderedMap::new();
    let mut i: usize = 0;
    proof {
        assert(out@.dom() =~= l.take(0).to_set());
    }
    while i < n
        invariant
            i <= n,
            n == l.len(),
            l == files.list(),
            files.listed(),
            forall|path: &str|
                files@.contains(path@) ==> #[trigger] call_requires(hash_of, (path,)),
            snapshot(hash_of, hash_texts(out@)),
            out@.dom() == l.take(i as int).to_set(),
        decreases n - i,
    {
        let f = files.at(i);
        assert(l.contains(l[i as int]));
        assert(files@.contains(f@));
        let h = hash_of(f.as_str());
        let ghost before = out@;
        proof {
            assert(hashed(hash_of, f@, opt_text(h)));
        }
        out.insert(f.clone(), h);
        proof {
            assert(hash_texts(out@) =~= hash_texts(before).insert(f@, opt_text(h)));
            let t = l.take(i as int);
            let u = l.take(i + 1);
            assert(u =~= t.push(f@));
            broadcast use vstd::seq_lib::group_seq_properties;
            assert forall|x: Seq<char>| u.to_set().contains(x) == t.to_set().insert(f@).contains(
                x,
            ) by {
                if t.contains(x) {
                    let j = choose|j: int| 0 <= j < t.len() && t[j] == x;
                    assert(u[j] == x);
                }
                assert(u[i as int] == f@);
                if u.contains(x) {
                    let j = choose|j: int| 0 <= j < u.len() && u[j] == x;
                    if j < i {
                        assert(t[j] == x);
                    }
                }
            }
            assert(u.to_set() =~= t.to_set().insert(f@));
            assert(out@.dom() =~= before.dom().insert(f@));
        }
        i += 1;
    }
    proof {
        assert(l.take(n as int) =~= l);
        assert forall|x: Seq<char>| l.to_set().contains(x) == files@.contains(x) by {
            assert(files@.contains(x) == l.contains(x));
        }
        assert(l.to_set() =~= files@);
    }
    out
}

/// Hashes in characters.
pub open spec fn hash_texts(m: Map<Seq<char>, Option<String>>) -> Map<
    Seq<char>,
    Option<Seq<char>>,
> {
    m.map_values(|h: Option<String>| opt_text(h))
}

/// Whether the hash of a file now is `want`.
fn has_hash(cur: &OrderedMap<String, Option<String>>, f: &String, want: &str) -> (res: bool)
    ensures
        res == (live(hash_texts(cur@), f@) == Some(want@)),
{
    match cur.get(f) {
        Some(h) => match h {
            Some(text) => str_eq(text.as_str(), want),
            None => false,
        },
        None => false,
    }
}

/// Adds the members of a set to another.
fn add_all(set: &mut TextSet, more: &TextSet)
    ensures
        final(set)@ == old(set)@.union(more@),
{
    let n = more.len();
    let ghost l = more.list();
    let ghost start = set@;
    let mut i: usize = 0;
    assert(start.union(l.take(0).to_set()) =~= start);
    while i < n
        invariant
            i <= n,
            n == l.len(),
            l == more.list(),
            set@ == start.union(l.take(i as int).to_set()),
        decreases n - i,
    {
        let x = more.at(i);
        set.insert(x.clone());
        proof {
            let t = l.take(i as int);
            let u = l.take(i + 1);
            assert(u =~= t.push(x@));
            assert forall|y: Seq<char>| u.to_set().contains(y) == t.to_set().insert(x@).contains(
                y,
            ) by {
                if t.contains(y) {
                    let j = choose|j: int| 0 <= j < t.len() && t[j] == y;
                    assert(u[j] == y);
                }
                assert(u[i as int] == x@);
                if u.contains(y) {
                    let j = choose|j: int| 0 <= j < u.len() && u[j] == y;
                    if j < i {
                        assert(t[j] == y);
                    }
                }
            }
            assert(u.to_set() =~= t.to_set().insert(x@));
            assert(start.union(u.to_set()) =~= start.union(t.to_set()).insert(x@));
        }
        i += 1;
    }
    proof {
        assert(l.take(n as int) =~= l);
        assert forall|x: Seq<char>| l.to_set().contains(x) == more@.contains(x) by {
            assert(more@.contains(x) == l.contains(x));
        }
        assert(l.to_set() =~= more@);
    }
}

/// The tests that need not run: green last time, present in the index, their own
/// file and every file they covered unchanged. `hash_of` gives the hash of a
/// file now, or nothing where it cannot be read; each file is hashed once.
pub fn skippable<F: Fn(&str) -> Option<String>>(
    index: &CoverageIndex,
    baseline: &Baseline,
    hash_of: F,
) -> (res: TextSet)
    requires
        forall|path: &str|
            files_needed(*index, *baseline).contains(path@) ==> #[trigger] call_requires(
                hash_of,
                (path,),
            ),
    ensures
        exists|hashes: Map<Seq<char>, Option<Seq<char>>>| #[trigger]
            snapshot(hash_of, hashes) && hashes.dom() == files_needed(*index, *baseline) && forall|
                id: Seq<char>,
            | #[trigger]
                res@.contains(id) == need_not_run(*index, *baseline, hashes, id),
{
    let by_test = covered_files(index);
    let n = by_test.len();
    let ghost l = by_test.list();
    let mut needed = TextSet::new();
    let mut i: usize = 0;
    while i < n
        invariant
            i <= n,
            n == l.len(),
            l == by_test.list(),
            forall|f: Seq<char>| #[trigger]
                needed@.contains(f) == exists|k: int|
                    0 <= k < i && baseline.green@.contains((#[trigger] l[k]).0@) && (file_part(
                        l[k].0@,
                    ) == f || l[k].1@.contains(f)),
        decreases n - i,
    {
        let ghost before = needed@;
        let (id, files) = by_test.at(i);
        if baseline.green.contains(id) {
            needed.insert(file_of(id.as_str()));
            add_all(&mut needed, files);
        }
        proof {
            assert forall|f: Seq<char>| #[trigger]
                needed@.contains(f) == exists|k: int|
                    0 <= k < i + 1 && baseline.green@.contains((#[trigger] l[k]).0@) && (file_part(
                        l[k].0@,
                    ) == f || l[k].1@.contains(f)) by {
                assert(before.contains(f) == exists|k: int|
                    0 <= k < i && baseline.green@.contains((#[trigger] l[k]).0@) && (file_part(
                        l[k].0@,
                    ) == f || l[k].1@.contains(f)));
                assert(l[i as int].0@ == id@ && l[i as int].1@ == files@);
            }
        }
        i += 1;
    }
    proof {
        assert forall|f: Seq<char>| needed@.contains(f) == files_needed(
            *index,
            *baseline,
        ).contains(f) by {
            lemma_needed(*index, *baseline, by_test@, l, f);
        }
        assert(needed@ =~= files_needed(*index, *baseline));
    }
    let cur = hash_all(&needed, hash_of);
    let ghost hashes = hash_texts(cur@);
    assert(hashes.dom() =~= cur@.dom());
    let mut skip = TextSet::new();
    let mut j: usize = 0;
    while j < n
        invariant
            j <= n,
            n == l.len(),
            l == by_test.list(),
            by_test.listed(),
            hashes == hash_texts(cur@),
            forall|id: Seq<char>, f: Seq<char>| #[trigger]
                says(by_test@, id, f) == index.covers(id, f),
            none_idle(by_test@),
            forall|id: Seq<char>| #[trigger]
                skip@.contains(id) == (need_not_run(*index, *baseline, hashes, id) && exists|k: int|
                    0 <= k < j && (#[trigger] l[k]).0@ == id),
        decreases n - j,
    {
        let ghost before = skip@;
        let (id, files) = by_test.at(j);
        let go = decide(index, baseline, &cur, id, files);
        proof {
            assert(by_test@.contains_key(l[j as int].0@));
            assert(by_test@[id@] == *files);
            let f0 = choose|f: Seq<char>| #[trigger] by_test@[id@]@.contains(f);
            assert(says(by_test@, id@, f0));
            assert(index.covers(id@, f0));
            assert forall|f: Seq<char>| #[trigger] files@.contains(f) == index.covers(id@, f) by {
                assert(says(by_test@, id@, f) == index.covers(id@, f));
            }
            if go {
                assert forall|f: Seq<char>| #[trigger] index.covers(id@, f) implies unchanged(
                    *index,
                    hashes,
                    f,
                ) by {
                    assert(files@.contains(f));
                }
            }
            if need_not_run(*index, *baseline, hashes, id@) {
                assert forall|f: Seq<char>| #[trigger] files@.contains(f) implies unchanged(
                    *index,
                    hashes,
                    f,
                ) by {
                    assert(index.covers(id@, f));
                }
            }
            assert(go == need_not_run(*index, *baseline, hashes, id@));
        }
        if go {
            skip.insert(id.clone());
        }
        proof {
            assert forall|x: Seq<char>| #[trigger]
                skip@.contains(x) == (need_not_run(*index, *baseline, hashes, x) && exists|k: int|
                    0 <= k < j + 1 && (#[trigger] l[k]).0@ == x) by {
                assert(before.contains(x) == (need_not_run(*index, *baseline, hashes, x)
                    && exists|k: int| 0 <= k < j && (#[trigger] l[k]).0@ == x));
                assert(l[j as int].0@ == id@);
            }
        }
        j += 1;
    }
    proof {
        assert forall|id: Seq<char>| #[trigger]
            skip@.contains(id) == need_not_run(*index, *baseline, hashes, id) by {
            if need_not_run(*index, *baseline, hashes, id) {
                let f = choose|f: Seq<char>| index.covers(id, f);
                assert(says(by_test@, id, f));
                assert(by_test@.contains_key(id));
                let k = choose|k: int| #[trigger] crate::ordered_map::key_at(l, k, id);
                assert(l[k].0@ == id);
            }
        }
    }
    skip
}

/// The files gathered from the inverted index are those needed.
proof fn lemma_needed(
    index: CoverageIndex,
    baseline: Baseline,
    by_test: Map<Seq<char>, TextSet>,
    l: Seq<(String, TextSet)>,
    f: Seq<char>,
)
    requires
        forall|id: Seq<char>, g: Seq<char>| #[trigger] says(by_test, id, g) == index.covers(id, g),
        none_idle(by_test),
        forall|i: int|
            0 <= i < l.len() ==> by_test.contains_key((#[trigger] l[i]).0@) && by_test[l[i].0@]
                == l[i].1,
        forall|k: Seq<char>| #[trigger]
            by_test.contains_key(k) ==> exists|i: int| #[trigger]
                crate::ordered_map::key_at(l, i, k),
    ensures
        files_needed(index, baseline).contains(f) == exists|k: int|
            0 <= k < l.len() && baseline.green@.contains((#[trigger] l[k]).0@) && (file_part(
                l[k].0@,
            ) == f || l[k].1@.contains(f)),
{
    if files_needed(index, baseline).contains(f) {
        let id = choose|id: Seq<char>|
            #![trigger baseline.green@.contains(id)]
            baseline.green@.contains(id) && (exists|g: Seq<char>| index.covers(id, g)) && (
            index.covers(id, f) || file_part(id) == f);
        let g = choose|g: Seq<char>| index.covers(id, g);
        assert(says(by_test, id, g));
        let k = choose|k: int| #[trigger] crate::ordered_map::key_at(l, k, id);
        assert(l[k].0@ == id);
        if index.covers(id, f) {
            assert(says(by_test, id, f));
        }
    }
    if exists|k: int|
        0 <= k < l.len() && baseline.green@.contains((#[trigger] l[k]).0@) && (file_part(l[k].0@)
            == f || l[k].1@.contains(f)) {
        let k = choose|k: int|
            0 <= k < l.len() && baseline.green@.contains((#[trigger] l[k]).0@) && (file_part(
                l[k].0@,
            ) == f || l[k].1@.contains(f));
        let id = l[k].0@;
        assert(by_test.contains_key(id));
        let g = choose|g: Seq<char>| #[trigger] by_test[id]@.contains(g);
        assert(says(by_test, id, g));
        if l[k].1@.contains(f) {
            assert(says(by_test, id, f));
        }
    }
}

/// Whether a test that covered `files` need not run.
fn decide(
    index: &CoverageIndex,
    baseline: &Baseline,
    cur: &OrderedMap<String, Option<String>>,
    id: &String,
    files: &TextSet,
) -> (res: bool)
    ensures
        res == (baseline.green@.contains(id@) && own_file_unchanged(
            *baseline,
            hash_texts(cur@),
            id@,
        ) && forall|f: Seq<char>| #[trigger]
            files@.contains(f) ==> unchanged(*index, hash_texts(cur@), f)),
{
    if !baseline.green.contains(id) {
        return false;
    }
    let tf = file_of(id.as_str());
    let own = match baseline.test_file_hashes.get(&tf) {
        Some(h) => has_hash(cur, &tf, h.as_str()),
        None => false,
    };
    if !own {
        return false;
    }
    let n = files.len();
    let ghost l = files.list();
    let mut i: usize = 0;
    while i < n
        invariant
            i <= n,
            n == l.len(),
            l == files.list(),
            files.listed(),
            forall|k: int| 0 <= k < i ==> unchanged(*index, hash_texts(cur@), #[trigger] l[k]),
        decreases n - i,
    {
        let f = files.at(i);
        let same = match index.files.get(f) {
            Some(file) => has_hash(cur, f, file.hash.as_str()),
            None => false,
        };
        if !same {
            proof {
                assert(l[i as int] == f@);
                assert(l.contains(f@));
                assert(files@.contains(f@));
                assert(!unchanged(*index, hash_texts(cur@), f@));
            }
            return false;
        }
        i += 1;
    }
    proof {
        assert forall|f: Seq<char>| #[trigger] files@.contains(f) implies unchanged(
            *index,
            hash_texts(cur@),
            f,
        ) by {
            assert(l.contains(f));
            let k = choose|k: int| 0 <= k < l.len() && l[k] == f;
            assert(unchanged(*index, hash_texts(cur@), l[k]));
        }
    }
    true
}

/// Whether a call of `read` on the path `f` gave the content `c`.
pub open spec fn read_as<F: Fn(&str) -> Option<Vec<u8>>>(
    read: &F,
    f: Seq<char>,
    c: Option<Seq<u8>>,
) -> bool {
    exists|path: &str, r: Option<Vec<u8>>|
        path@ == f && c == (match r {
            Some(b) => Some(b@),
            None => None,
        }) && #[trigger] call_ensures(*read, (path,), r)
}

/// The digest of a file's content, where it could be read.
pub open spec fn content_digest(c: Option<Seq<u8>>) -> Option<Seq<char>> {
    match c {
        Some(b) => Some(sha256_text(b)),
        None => None,
    }
}

/// Whether each hash is the digest of what `read` gave for its file.
pub open spec fn content_snapshot<F: Fn(&str) -> Option<Vec<u8>>>(
    read: &F,
    hashes: Map<Seq<char>, Option<Seq<char>>>,
) -> bool {
    forall|f: Seq<char>| #[trigger]
        hashes.contains_key(f) ==> exists|c: Option<Seq<u8>>| #[trigger]
            read_as(read, f, c) && hashes[f] == content_digest(c)
}

/// Whether `read` may be asked for a file.
pub open spec fn readable<F: Fn(&str) -> Option<Vec<u8>>>(read: &F, path: &str) -> bool {
    call_requires(*read, (path,))
}

/// The tests that need not run, with the files' contents read by `read`.
pub fn skippable_now<F: Fn(&str) -> Option<Vec<u8>>>(
    index: &CoverageIndex,
    baseline: &Baseline,
    read: F,
) -> (res: TextSet)
    requires
        forall|path: &str|
            files_needed(*index, *baseline).contains(path@) ==> #[trigger] call_requires(
                read,
                (path,),
            ),
    ensures
        exists|hashes: Map<Seq<char>, Option<Seq<char>>>| #[trigger]
            content_snapshot(&read, hashes) && hashes.dom() == files_needed(*index, *baseline)
                && forall|id: Seq<char>| #[trigger]
                res@.contains(id) == need_not_run(*index, *baseline, hashes, id),
{
    let reader = &read;
    let hash_of = |path: &str| -> (r: Option<String>)
        requires
            readable(reader, path),
        ensures
            exists|c: Option<Seq<u8>>| #[trigger]
                read_as(reader, path@, c) && opt_text(r) == content_digest(c),
        {
            match reader(path) {
                Some(content) => {
                    proof {
                        assert(read_as(reader, path@, Some(content@)));
                    }
                    Some(sha256_hex(content.as_slice()))
                },
                None => {
                    proof {
                        assert(read_as(reader, path@, None));
                    }
                    None
                },
            }
        };
    let res = skippable(index, baseline, hash_of);
    proof {
        let hashes = choose|hashes: Map<Seq<char>, Option<Seq<char>>>| #[trigger]
            snapshot(hash_of, hashes) && hashes.dom() == files_needed(*index, *baseline) && forall|
                id: Seq<char>,
            | #[trigger]
                res@.contains(id) == need_not_run(*index, *baseline, hashes, id);
        assert forall|f: Seq<char>| #[trigger] hashes.contains_key(f) implies exists|
            c: Option<Seq<u8>>,
        | #[trigger]
            read_as(reader, f, c) && hashes[f] == content_digest(c) by {
            assert(hashed(hash_of, f, hashes[f]));
            let (path, r) = choose|path: &str, r: Option<String>|
                path@ == f && opt_text(r) == hashes[f] && #[trigger] call_ensures(
                    hash_of,
                    (path,),
                    r,
                );
            assert(call_ensures(hash_of, (path,), r));
        }
        assert(content_snapshot(&read, hashes));
    }
    res
}

/// Whether some of `ids` is cached.
pub open spec fn any_cached(ids: Seq<Seq<char>>, cached: Set<Seq<char>>) -> bool {
    exists|i: int| 0 <= i < ids.len() && cached.contains(#[trigger] ids[i])
}

/// `slot` with the cached ones of `ids` added that it lacks, in order.
pub open spec fn carried(
    slot: Seq<Seq<char>>,
    ids: Seq<Seq<char>>,
    cached: Set<Seq<char>>,
) -> Seq<Seq<char>>
    decreases ids.len(),
{
    if ids.len() == 0 {
        slot
    } else {
        let before = carried(slot, ids.drop_last(), cached);
        if cached.contains(ids.last()) && !before.contains(ids.last()) {
            before.push(ids.last())
        } else {
            before
        }
    }
}

/// The tests recorded for a line, if it is recorded.
pub open spec fn ids_on(lines: Map<u32, Vec<String>>, line: u32) -> Option<Seq<Seq<char>>> {
    if lines.contains_key(line) {
        Some(texts(lines[line]@))
    } else {
        None
    }
}

/// What is recorded for a line after the cached tests are carried over.
pub open spec fn carried_ids(
    old_ids: Option<Seq<Seq<char>>>,
    new_ids: Option<Seq<Seq<char>>>,
    cached: Set<Seq<char>>,
) -> Option<Seq<Seq<char>>> {
    match (old_ids, new_ids) {
        (None, n) => n,
        (Some(o), Some(n)) => Some(carried(n, o, cached)),
        (Some(o), None) => if any_cached(o, cached) {
            Some(carried(Seq::empty(), o, cached))
        } else {
            None
        },
    }
}

proof fn lemma_carried_none(slot: Seq<Seq<char>>, ids: Seq<Seq<char>>, cached: Set<Seq<char>>)
    requires
        !any_cached(ids, cached),
    ensures
        carried(slot, ids, cached) == slot,
    decreases ids.len(),
{
    if ids.len() > 0 {
        assert(!cached.contains(ids[ids.len() - 1]));
        assert forall|i: int| 0 <= i < ids.drop_last().len() implies !cached.contains(
            #[trigger] ids.drop_last()[i],
        ) by {
            assert(ids.drop_last()[i] == ids[i]);
        }
        lemma_carried_none(slot, ids.drop_last(), cached);
    }
}

/// What `carried` holds: the slot, and the cached ones of `ids`.
pub proof fn lemma_carried_members(
    slot: Seq<Seq<char>>,
    ids: Seq<Seq<char>>,
    cached: Set<Seq<char>>,
    x: Seq<char>,
)
    ensures
        carried(slot, ids, cached).contains(x) == (slot.contains(x) || (cached.contains(x)
            && ids.contains(x))),
    decreases ids.len(),
{
    if ids.len() > 0 {
        let head = ids.drop_last();
        lemma_carried_members(slot, head, cached, x);
        let before = carried(slot, head, cached);
        let after = carried(slot, ids, cached);
        if head.contains(x) {
            let i = choose|i: int| 0 <= i < head.len() && head[i] == x;
            assert(ids[i] == x);
        }
        if ids.contains(x) && !head.contains(x) {
            let i = choose|i: int| 0 <= i < ids.len() && ids[i] == x;
            if i < head.len() {
                assert(head[i] == x);
            }
            assert(x == ids.last());
        }
        if before.contains(x) {
            let i = choose|i: int| 0 <= i < before.len() && before[i] == x;
            assert(after[i] == x);
        }
        if after.contains(x) && !before.contains(x) {
            let i = choose|i: int| 0 <= i < after.len() && after[i] == x;
            if i < before.len() {
                assert(before[i] == x);
            }
            assert(x == ids.last());
            assert(ids[ids.len() - 1] == x);
        }
        if x == ids.last() {
            assert(ids[ids.len() - 1] == x);
            if cached.contains(x) && !before.contains(x) {
                assert(after[before.len() as int] == x);
            }
        }
    }
}

fn has_cached(ids: &Vec<String>, cached: &TextSet) -> (res: bool)
    ensures
        res == any_cached(texts(ids@), cached@),
{
    let ghost all = texts(ids@);
    let mut i: usize = 0;
    while i < ids.len()
        invariant
            i <= ids.len(),
            all == texts(ids@),
            forall|j: int| 0 <= j < i ==> !cached@.contains(#[trigger] all[j]),
        decreases ids.len() - i,
    {
        if cached.contains(&ids[i]) {
            assert(cached@.contains(all[i as int]));
            return true;
        }
        assert(all[i as int] == ids@[i as int]@);
        i += 1;
    }
    false
}

fn carry_ids(slot: Vec<String>, ids: &Vec<String>, cached: &TextSet) -> (res: Vec<String>)
    ensures
        texts(res@) == carried(texts(slot@), texts(ids@), cached@),
{
    let ghost all = texts(ids@);
    let ghost start = texts(slot@);
    let mut out = slot;
    let mut i: usize = 0;
    while i < ids.len()
        invariant
            i <= ids.len(),
            all == texts(ids@),
            texts(out@) == carried(start, all.take(i as int), cached@),
        decreases ids.len() - i,
    {
        proof {
            assert(all.take(i + 1).drop_last() =~= all.take(i as int));
            assert(all.take(i + 1).last() == ids@[i as int]@);
        }
        if cached.contains(&ids[i]) && !contains_text(out.as_slice(), ids[i].as_str()) {
            out.push(ids[i].clone());
        }
        i += 1;
    }
    assert(all.take(ids.len() as int) =~= all);
    out
}

fn carry_lines(
    lines: &mut OrderedMap<u32, Vec<String>>,
    old_lines: &OrderedMap<u32, Vec<String>>,
    cached: &TextSet,
)
    ensures
        forall|line: u32| #[trigger]
            ids_on(final(lines)@, line) == carried_ids(
                ids_on(old_lines@, line),
                ids_on(old(lines)@, line),
                cached@,
            ),
{
    let n = old_lines.len();
    let ghost l = old_lines.list();
    let ghost start = lines@;
    let mut j: usize = 0;
    while j < n
        invariant
            j <= n,
            n == l.len(),
            l == old_lines.list(),
            old_lines.listed(),
            forall|line: u32| #[trigger]
                ids_on(lines@, line) == (if exists|k: int| 0 <= k < j && (#[trigger] l[k]).0 == line {
                    carried_ids(ids_on(old_lines@, line), ids_on(start, line), cached@)
                } else {
                    ids_on(start, line)
                }),
        decreases n - j,
    {
        let ghost before = lines@;
        let (line, ids) = old_lines.at(j);
        proof {
            assert(old_lines@.contains_key(l[j as int].0));
            assert(ids_on(old_lines@, *line) == Some(texts(ids@)));
            assert forall|k: int| 0 <= k < j implies (#[trigger] l[k]).0 != *line by {
                assert(l[k].0 < l[j as int].0);
            }
            assert(ids_on(before, *line) == ids_on(start, *line));
        }
        if has_cached(ids, cached) {
            let slot = match lines.remove(line) {
                Some(slot) => slot,
                None => {
                    let none: Vec<String> = Vec::new();
                    assert(texts(none@) =~= Seq::empty());
                    none
                },
            };
            let merged = carry_ids(slot, ids, cached);
            lines.insert(*line, merged);
            assert(lines@ =~= before.insert(*line, merged));
        } else {
            proof {
                if start.contains_key(*line) {
                    lemma_carried_none(texts(start[*line]@), texts(ids@), cached@);
                }
            }
        }
        proof {
            assert forall|m: u32| #[trigger]
                ids_on(lines@, m) == (if exists|k: int|
                    0 <= k < j + 1 && (#[trigger] l[k]).0 == m {
                    carried_ids(ids_on(old_lines@, m), ids_on(start, m), cached@)
                } else {
                    ids_on(start, m)
                }) by {
                assert(ids_on(before, m) == (if exists|k: int|
                    0 <= k < j && (#[trigger] l[k]).0 == m {
                    carried_ids(ids_on(old_lines@, m), ids_on(start, m), cached@)
                } else {
                    ids_on(start, m)
                }));
                if m == *line {
                    assert(l[j as int].0 == m);
                } else {
                    assert(ids_on(lines@, m) == ids_on(before, m));
                    if exists|k: int| 0 <= k < j + 1 && (#[trigger] l[k]).0 == m {
                        let k = choose|k: int| 0 <= k < j + 1 && (#[trigger] l[k]).0 == m;
                        assert(k < j);
                    }
                }
            }
        }
        j += 1;
    }
    proof {
        assert forall|line: u32| #[trigger]
            ids_on(lines@, line) == carried_ids(
                ids_on(old_lines@, line),
                ids_on(start, line),
                cached@,
            ) by {
            if old_lines@.contains_key(line) {
                let k = choose|k: int| #[trigger] crate::ordered_map::key_at(l, k, line);
                assert(l[k].0 == line);
            } else {
                assert forall|k: int| 0 <= k < j implies (#[trigger] l[k]).0 != line by {
                    assert(old_lines@.contains_key(l[k].0));
                }
            }
        }
    }
}

/// Whether a file has a line that a cached test executed.
pub open spec fn file_has_cached(file: CoverageFile, cached: Set<Seq<char>>) -> bool {
    exists|line: u32| #[trigger]
        ids_on(file.lines@, line) matches Some(ids) && any_cached(ids, cached)
}

/// The hash recorded for a file, if it is recorded.
pub open spec fn hash_at(index: CoverageIndex, f: Seq<char>) -> Option<Seq<char>> {
    if index.files@.contains_key(f) {
        Some(index.files@[f].hash@)
    } else {
        None
    }
}

/// The tests recorded for a line of a file, if it is recorded.
pub open spec fn ids_at(index: CoverageIndex, f: Seq<char>, line: u32) -> Option<Seq<Seq<char>>> {
    if index.files@.contains_key(f) {
        ids_on(index.files@[f].lines@, line)
    } else {
        None
    }
}

/// The hash of a file after the cached tests are carried over: the new one
/// where there is one, else the old one where a cached test needs the file.
pub open spec fn carried_hash(
    old_index: CoverageIndex,
    new_index: CoverageIndex,
    cached: Set<Seq<char>>,
    f: Seq<char>,
) -> Option<Seq<char>> {
    match hash_at(new_index, f) {
        Some(h) => Some(h),
        None => if old_index.files@.contains_key(f) && file_has_cached(
            old_index.files@[f],
            cached,
        ) {
            hash_at(old_index, f)
        } else {
            None
        },
    }
}

/// Whether `res` is `new_index` with the cached tests of `old_index` carried
/// over: every line has its tests and, after them, the cached tests of before.
pub open spec fn carried_over(
    old_index: CoverageIndex,
    new_index: CoverageIndex,
    cached: Set<Seq<char>>,
    res: CoverageIndex,
) -> bool {
    &&& res.schema == (if new_index.schema == 0 {
        old_index.schema
    } else {
        new_index.schema
    })
    &&& forall|f: Seq<char>| #[trigger]
        hash_at(res, f) == carried_hash(old_index, new_index, cached, f)
    &&& forall|f: Seq<char>, line: u32| #[trigger]
        ids_at(res, f, line) == carried_ids(
            ids_at(old_index, f, line),
            ids_at(new_index, f, line),
            cached,
        )
}

fn needs_carrying(file: &CoverageFile, cached: &TextSet) -> (res: bool)
    ensures
        res == file_has_cached(*file, cached@),
{
    let n = file.lines.len();
    let ghost l = file.lines.list();
    let mut j: usize = 0;
    while j < n
        invariant
            j <= n,
            n == l.len(),
            l == file.lines.list(),
            file.lines.listed(),
            forall|k: int| 0 <= k < j ==> !any_cached(texts((#[trigger] l[k]).1@), cached@),
        decreases n - j,
    {
        let (line, ids) = file.lines.at(j);
        if has_cached(ids, cached) {
            assert(file.lines@.contains_key(l[j as int].0));
            assert(ids_on(file.lines@, *line) == Some(texts(ids@)));
            return true;
        }
        j += 1;
    }
    proof {
        if file_has_cached(*file, cached@) {
            let line = choose|line: u32| #[trigger]
                ids_on(file.lines@, line) matches Some(ids) && any_cached(ids, cached@);
            assert(file.lines@.contains_key(line));
            let k = choose|k: int| #[trigger] crate::ordered_map::key_at(l, k, line);
            assert(!any_cached(texts(l[k].1@), cached@));
        }
    }
    false
}

/// What an index records for a file, before or after it was gone through.
spec fn file_state(
    old_index: CoverageIndex,
    start: CoverageIndex,
    cached: Set<Seq<char>>,
    now: CoverageIndex,
    f: Seq<char>,
    done: bool,
) -> bool {
    if done {
        &&& hash_at(now, f) == carried_hash(old_index, start, cached, f)
        &&& forall|line: u32| #[trigger]
            ids_at(now, f, line) == carried_ids(
                ids_at(old_index, f, line),
                ids_at(start, f, line),
                cached,
            )
    } else {
        &&& hash_at(now, f) == hash_at(start, f)
        &&& forall|line: u32| #[trigger] ids_at(now, f, line) == ids_at(start, f, line)
    }
}

/// Carries the coverage of cached tests over from the index before the run into
/// the one written after it, so that a test that was skipped once can be
/// skipped again.
pub fn carry_forward(old_index: &CoverageIndex, new_index: &mut CoverageIndex, cached: &TextSet)
    ensures
        carried_over(*old_index, *old(new_index), cached@, *final(new_index)),
{
    let ghost start = *new_index;
    if new_index.schema == 0 {
        new_index.schema = old_index.schema;
    }
    let n = old_index.files.len();
    let ghost l = old_index.files.list();
    let mut i: usize = 0;
    proof {
        assert forall|f: Seq<char>| #[trigger]
            file_state(*old_index, start, cached@, *new_index, f, false) by {
            assert(new_index.files@ == start.files@);
        }
    }
    while i < n
        invariant
            i <= n,
            n == l.len(),
            l == old_index.files.list(),
            old_index.files.listed(),
            new_index.schema == (if start.schema == 0 {
                old_index.schema
            } else {
                start.schema
            }),
            forall|f: Seq<char>|
                #![trigger hash_at(*new_index, f)]
                #![trigger new_index.files@.contains_key(f)]
                file_state(
                    *old_index,
                    start,
                    cached@,
                    *new_index,
                    f,
                    exists|k: int| 0 <= k < i && (#[trigger] l[k]).0@ == f,
                ),
        decreases n - i,
    {
        let ghost before = *new_index;
        let (f, ofile) = old_index.files.at(i);
        proof {
            assert(old_index.files@.contains_key(l[i as int].0@));
            assert(old_index.files@[f@] == *ofile);
            assert forall|k: int| 0 <= k < i implies (#[trigger] l[k]).0@ != f@ by {
                crate::order::lemma_le_reflexive(f@);
                assert(crate::order::text_lt(l[k].0@, l[i as int].0@));
            }
            assert(hash_at(before, f@) == hash_at(start, f@));
            assert(file_state(*old_index, start, cached@, before, f@, false));
        }
        if needs_carrying(ofile, cached) {
            let mut nf = match new_index.files.remove(f) {
                Some(file) => file,
                None => CoverageFile { hash: ofile.hash.clone(), lines: OrderedMap::new() },
            };
            let ghost nf0 = nf;
            carry_lines(&mut nf.lines, &ofile.lines, cached);
            new_index.files.insert(f.clone(), nf);
            proof {
                assert(new_index.files@ =~= before.files@.insert(f@, nf));
                assert forall|line: u32| #[trigger]
                    ids_at(*new_index, f@, line) == carried_ids(
                        ids_at(*old_index, f@, line),
                        ids_at(start, f@, line),
                        cached@,
                    ) by {
                    assert(ids_on(nf.lines@, line) == carried_ids(
                        ids_on(ofile.lines@, line),
                        ids_on(nf0.lines@, line),
                        cached@,
                    ));
                    assert(ids_at(before, f@, line) == ids_at(start, f@, line));
                }
                assert(hash_at(*new_index, f@) == carried_hash(*old_index, start, cached@, f@));
            }
        } else {
            proof {
                assert forall|line: u32| #[trigger]
                    ids_at(*new_index, f@, line) == carried_ids(
                        ids_at(*old_index, f@, line),
                        ids_at(start, f@, line),
                        cached@,
                    ) by {
                    assert(ids_at(before, f@, line) == ids_at(start, f@, line));
                    if ofile.lines@.contains_key(line) {
                        let ids = texts(ofile.lines@[line]@);
                        assert(ids_on(ofile.lines@, line) == Some(ids));
                        assert(!any_cached(ids, cached@));
                        if let Some(slot) = ids_at(start, f@, line) {
                            lemma_carried_none(slot, ids, cached@);
                        }
                    }
                }
            }
        }
        proof {
            assert forall|g: Seq<char>|
                #![trigger hash_at(*new_index, g)]
                #![trigger new_index.files@.contains_key(g)]
                file_state(
                    *old_index,
                    start,
                    cached@,
                    *new_index,
                    g,
                    exists|k: int| 0 <= k < i + 1 && (#[trigger] l[k]).0@ == g,
                ) by {
                let now = exists|k: int| 0 <= k < i + 1 && (#[trigger] l[k]).0@ == g;
                if g == f@ {
                    assert(l[i as int].0@ == g);
                    assert(now);
                    assert(file_state(*old_index, start, cached@, *new_index, g, true));
                } else {
                    let was = exists|k: int| 0 <= k < i && (#[trigger] l[k]).0@ == g;
                    assert(hash_at(*new_index, g) == hash_at(before, g));
                    assert(file_state(*old_index, start, cached@, before, g, was));
                    assert forall|line: u32| #[trigger]
                        ids_at(*new_index, g, line) == ids_at(before, g, line) by {}
                    if now {
                        let k = choose|k: int| 0 <= k < i + 1 && (#[trigger] l[k]).0@ == g;
                        assert(k < i);
                    }
                    assert(was == now);
                    lemma_same_state(
                        *old_index,
                        start,
                        cached@,
                        before,
                        *new_index,
                        g,
                        was,
                    );
                }
            }
        }
        i += 1;
    }
    proof {
        assert forall|f: Seq<char>| #[trigger]
            hash_at(*new_index, f) == carried_hash(*old_index, start, cached@, f) by {
            lemma_file_done(*old_index, start, cached@, *new_index, l, f);
        }
        assert forall|f: Seq<char>, line: u32| #[trigger]
            ids_at(*new_index, f, line) == carried_ids(
                ids_at(*old_index, f, line),
                ids_at(start, f, line),
                cached@,
            ) by {
            assert(hash_at(*new_index, f) == hash_at(*new_index, f));
            lemma_file_done(*old_index, start, cached@, *new_index, l, f);
        }
    }
}

/// Two indices that record the same of a file are in the same state there.
proof fn lemma_same_state(
    old_index: CoverageIndex,
    start: CoverageIndex,
    cached: Set<Seq<char>>,
    before: CoverageIndex,
    now: CoverageIndex,
    f: Seq<char>,
    done: bool,
)
    requires
        file_state(old_index, start, cached, before, f, done),
        hash_at(now, f) == hash_at(before, f),
        forall|line: u32| #[trigger] ids_at(now, f, line) == ids_at(before, f, line),
    ensures
        file_state(old_index, start, cached, now, f, done),
{
    if done {
        assert forall|line: u32| #[trigger]
            ids_at(now, f, line) == carried_ids(
                ids_at(old_index, f, line),
                ids_at(start, f, line),
                cached,
            ) by {
            assert(ids_at(before, f, line) == carried_ids(
                ids_at(old_index, f, line),
                ids_at(start, f, line),
                cached,
            ));
        }
    } else {
        assert forall|line: u32| #[trigger]
            ids_at(now, f, line) == ids_at(start, f, line) by {
            assert(ids_at(before, f, line) == ids_at(start, f, line));
        }
    }
}

/// A file of the old index was gone through; any other is as it should be.
proof fn lemma_file_done(
    old_index: CoverageIndex,
    start: CoverageIndex,
    cached: Set<Seq<char>>,
    now: CoverageIndex,
    l: Seq<(String, CoverageFile)>,
    f: Seq<char>,
)
    requires
        file_state(
            old_index,
            start,
            cached,
            now,
            f,
            exists|k: int| 0 <= k < l.len() && (#[trigger] l[k]).0@ == f,
        ),
        forall|i: int|
            0 <= i < l.len() ==> old_index.files@.contains_key((#[trigger] l[i]).0@),
        forall|k: Seq<char>| #[trigger]
            old_index.files@.contains_key(k) ==> exists|i: int| #[trigger]
                crate::ordered_map::key_at(l, i, k),
    ensures
        file_state(old_index, start, cached, now, f, true),
{
    if old_index.files@.contains_key(f) {
        let k = choose|k: int| #[trigger] crate::ordered_map::key_at(l, k, f);
        assert(l[k].0@ == f);
    } else {
        assert forall|k: int| 0 <= k < l.len() implies (#[trigger] l[k]).0@ != f by {
            assert(old_index.files@.contains_key(l[k].0@));
        }
        assert forall|line: u32| #[trigger]
            ids_at(now, f, line) == carried_ids(
                ids_at(old_index, f, line),
                ids_at(start, f, line),
                cached,
            ) by {
            assert(ids_at(now, f, line) == ids_at(start, f, line));
        }
    }
}

/// After carrying over, a test covers a file just when it did in the new index,
/// or is cached and did in the old one.
pub proof fn theorem_carry_forward_coverage(
    old_index: CoverageIndex,
    new_index: CoverageIndex,
    cached: Set<Seq<char>>,
    res: CoverageIndex,
    id: Seq<char>,
    f: Seq<char>,
)
    requires
        carried_over(old_index, new_index, cached, res),
    ensures
        res.covers(id, f) == (new_index.covers(id, f) || (cached.contains(id) && old_index.covers(
            id,
            f,
        ))),
{
    assert(hash_at(res, f) == carried_hash(old_index, new_index, cached, f));
    if res.covers(id, f) {
        let line = choose|line: u32| res.files@[f].hit(line, id);
        assert(ids_at(res, f, line) == carried_ids(
            ids_at(old_index, f, line),
            ids_at(new_index, f, line),
            cached,
        ));
        let n = ids_at(new_index, f, line);
        let base = if n is Some {
            n->0
        } else {
            Seq::empty()
        };
        if let Some(o) = ids_at(old_index, f, line) {
            lemma_carried_members(base, o, cached, id);
            if cached.contains(id) && o.contains(id) {
                assert(old_index.files@[f].hit(line, id));
            }
        }
        if base.contains(id) {
            assert(new_index.files@[f].hit(line, id));
        }
    }
    if new_index.covers(id, f) {
        let line = choose|line: u32| new_index.files@[f].hit(line, id);
        assert(ids_at(res, f, line) == carried_ids(
            ids_at(old_index, f, line),
            ids_at(new_index, f, line),
            cached,
        ));
        if let Some(o) = ids_at(old_index, f, line) {
            lemma_carried_members(ids_at(new_index, f, line)->0, o, cached, id);
        }
        assert(hash_at(res, f) is Some);
        assert(res.files@[f].hit(line, id));
    }
    if cached.contains(id) && old_index.covers(id, f) {
        let line = choose|line: u32| old_index.files@[f].hit(line, id);
        let o = ids_at(old_index, f, line)->0;
        assert(ids_at(res, f, line) == carried_ids(
            ids_at(old_index, f, line),
            ids_at(new_index, f, line),
            cached,
        ));
        let k = choose|k: int| 0 <= k < o.len() && o[k] == id;
        assert(cached.contains(o[k]));
        assert(any_cached(o, cached));
        let n = ids_at(new_index, f, line);
        let base = if n is Some {
            n->0
        } else {
            Seq::empty()
        };
        lemma_carried_members(base, o, cached, id);
        assert(ids_on(old_index.files@[f].lines@, line) == Some(o));
        assert(file_has_cached(old_index.files@[f], cached));
        assert(hash_at(res, f) is Some);
        assert(res.files@[f].hit(line, id));
    }
}

/// A test that was skipped can be skipped again: if it need not run by the old
/// index and is carried over into a new one, which has the present hashes of
/// those of its files that it knows, then it need not run by that one.
pub proof fn theorem_skipped_stays_skippable(
    old_index: CoverageIndex,
    new_index: CoverageIndex,
    cached: Set<Seq<char>>,
    res: CoverageIndex,
    baseline: Baseline,
    hashes: Map<Seq<char>, Option<Seq<char>>>,
    id: Seq<char>,
)
    requires
        carried_over(old_index, new_index, cached, res),
        need_not_run(old_index, baseline, hashes, id),
        cached.contains(id),
        forall|f: Seq<char>| #[trigger]
            new_index.files@.contains_key(f) && (old_index.covers(id, f) || new_index.covers(id, f))
                ==> live(hashes, f) == Some(new_index.files@[f].hash@),
    ensures
        need_not_run(res, baseline, hashes, id),
{
    let g = choose|g: Seq<char>| old_index.covers(id, g);
    theorem_carry_forward_coverage(old_index, new_index, cached, res, id, g);
    assert(res.covers(id, g));
    assert forall|f: Seq<char>| #[trigger] res.covers(id, f) implies unchanged(res, hashes, f) by {
        theorem_carry_forward_coverage(old_index, new_index, cached, res, id, f);
        assert(hash_at(res, f) == carried_hash(old_index, new_index, cached, f));
        if new_index.files@.contains_key(f) {
            assert(live(hashes, f) == Some(new_index.files@[f].hash@));
        } else {
            assert(unchanged(old_index, hashes, f));
        }
    }
}

/// Without a baseline nothing is skipped: after a change of the configuration every
/// test runs.
pub proof fn theorem_other_configuration_runs_everything(
    index: CoverageIndex,
    baseline: Baseline,
    hashes: Map<Seq<char>, Option<Seq<char>>>,
    id: Seq<char>,
)
    requires
        baseline.is_empty_baseline(),
    ensures
        !need_not_run(index, baseline, hashes, id),
{
}

/// A test runs again where a file that it covered, or its own, has changed or can no
/// longer be read.
pub proof fn theorem_changed_files_run_again(
    index: CoverageIndex,
    baseline: Baseline,
    hashes: Map<Seq<char>, Option<Seq<char>>>,
    id: Seq<char>,
    f: Seq<char>,
)
    requires
        hashes.contains_key(f),
        hashes[f] is None || (index.covers(id, f) && hashes[f] != Some(index.files@[f].hash@)) || (
        f == file_part(id) && baseline.test_file_hashes@.contains_key(f) && hashes[f] != Some(
            baseline.test_file_hashes@[f]@,
        )),
        index.covers(id, f) || f == file_part(id),
    ensures
        !need_not_run(index, baseline, hashes, id),
{
}

/// Whether `b` is what stored outcomes are good for: all of them where they are usable,
/// and nothing else.
pub open spec fn loaded(stored: Option<Outcomes>, config_fp: Seq<char>, b: Baseline) -> bool {
    match stored {
        Some(o) => if usable(o, config_fp) {
            b.green@ == o.green@ && b.test_file_hashes@ == o.test_file_hashes@ && b.test_lines@
                == o.test_lines@
        } else {
            b.is_empty_baseline()
        },
        None => b.is_empty_baseline(),
    }
}

/// Whether `o` records the tests that passed, where they stand, and the configuration.
pub open spec fn is_record(
    o: Outcomes,
    config_fp: Seq<char>,
    green: Set<Seq<char>>,
    lines: Map<Seq<char>, u64>,
) -> bool {
    &&& o.schema == SCHEMA
    &&& o.config_fp@ == config_fp
    &&& o.green@ == green
    &&& o.test_lines@ == lines
}

/// Whether coverage is measured of some part of the tree only.
pub open spec fn narrowed(args: Seq<Seq<char>>) -> bool {
    (exists|i: int| 0 <= i < args.len() && starts(#[trigger] args[i], "--cov="@)) && forall|i: int|
        0 <= i < args.len() ==> !whole_tree(#[trigger] args[i])
}

/// What the search for `conftest.py` does with an entry of a directory.
pub open spec fn action_for(is_dir: Option<bool>, name: Seq<char>) -> EntryAction {
    match is_dir {
        None => EntryAction::Skip,
        Some(true) => if pruned(name) {
            EntryAction::Skip
        } else {
            EntryAction::Descend
        },
        Some(false) => if name == "conftest.py"@ {
            EntryAction::Collect
        } else {
            EntryAction::Skip
        },
    }
}

/// Each of the five files that configure a run is noticed by its name: to add one, to edit
/// it or to remove it changes the fingerprint, as long as different contents have
/// different digests.
pub proof fn theorem_each_configuration_file_is_noticed(
    windows: bool,
    a: Map<Seq<char>, Vec<u8>>,
    b: Map<Seq<char>, Vec<u8>>,
    conftests: Seq<(String, Vec<u8>)>,
    name: Seq<char>,
    before: Seq<u8>,
    after: Seq<u8>,
)
    requires
        name == "pyproject.toml"@ || name == "pytest.ini"@ || name == "setup.cfg"@ || name
            == "tox.ini"@ || name == ".coveragerc"@,
        forall|other: Seq<char>|
            other != name ==> #[trigger] config_at(a, other) == config_at(b, other),
        config_at(a, name) != config_at(b, name),
        digested(windows, before, a, conftests),
        digested(windows, after, b, conftests),
        config_at(a, name) matches Some(c) ==> (config_at(b, name) matches Some(d) ==> told_apart(
            c,
            d,
        )),
        told_apart(before, after),
    ensures
        before != after,
        sha256_text(before) != sha256_text(after),
{
    reveal_strlit("pyproject.toml");
    reveal_strlit("pytest.ini");
    reveal_strlit("setup.cfg");
    reveal_strlit("tox.ini");
    reveal_strlit(".coveragerc");
    assert("pyproject.toml"@.len() == 14);
    assert("pytest.ini"@.len() == 10);
    assert("setup.cfg"@.len() == 9);
    assert("tox.ini"@.len() == 7);
    assert(".coveragerc"@.len() == 11);
    let files = config_files();
    assert(files[0] == "pyproject.toml"@ && files[1] == "pytest.ini"@ && files[2] == "setup.cfg"@
        && files[3] == "tox.ini"@ && files[4] == ".coveragerc"@);
    let i: int = if name == "pyproject.toml"@ {
        0
    } else if name == "pytest.ini"@ {
        1
    } else if name == "setup.cfg"@ {
        2
    } else if name == "tox.ini"@ {
        3
    } else {
        4
    };
    assert(files[i] == name);
    assert forall|j: int| 0 <= j < files.len() && j != i implies config_at(
        a,
        #[trigger] files[j],
    ) == config_at(b, files[j]) by {
        assert(files[j] != name);
    }
    theorem_config_file_changes_fingerprint(windows, a, b, conftests, i, before, after);
}

/// A file of another name does not change the fingerprint.
pub proof fn theorem_other_files_do_not_configure(
    windows: bool,
    a: Map<Seq<char>, Vec<u8>>,
    b: Map<Seq<char>, Vec<u8>>,
    conftests: Seq<(String, Vec<u8>)>,
    before: Seq<u8>,
    after: Seq<u8>,
)
    requires
        config_at(a, "pyproject.toml"@) == config_at(b, "pyproject.toml"@),
        config_at(a, "pytest.ini"@) == config_at(b, "pytest.ini"@),
        config_at(a, "setup.cfg"@) == config_at(b, "setup.cfg"@),
        config_at(a, "tox.ini"@) == config_at(b, "tox.ini"@),
        config_at(a, ".coveragerc"@) == config_at(b, ".coveragerc"@),
        digested(windows, before, a, conftests),
        digested(windows, after, b, conftests),
    ensures
        before == after,
{
    reveal_with_fuel(config_bytes, 6);
    let p = choose|order: Seq<int>| #[trigger]
        crate::rank::ranked::<String>(order, path_keys(windows, conftests)) && before
            == config_bytes(a, 5) + files_bytes(conftests, order);
    let q = choose|order: Seq<int>| #[trigger]
        crate::rank::ranked::<String>(order, path_keys(windows, conftests)) && after
            == config_bytes(b, 5) + files_bytes(conftests, order);
    theorem_fingerprint_order_is_unique(windows, conftests, p, q);
    let files = config_files();
    assert(files[0] == "pyproject.toml"@ && files[1] == "pytest.ini"@ && files[2] == "setup.cfg"@
        && files[3] == "tox.ini"@ && files[4] == ".coveragerc"@);
    assert(config_bytes(a, 5) == config_bytes(b, 5));
}

/// A test is skipped where it passed, covered some file, and neither the files that it
/// covered nor its own have changed.
pub proof fn theorem_unchanged_tests_are_skipped(
    index: CoverageIndex,
    baseline: Baseline,
    hashes: Map<Seq<char>, Option<Seq<char>>>,
    id: Seq<char>,
    covered: Seq<char>,
)
    requires
        baseline.green@.contains(id),
        index.covers(id, covered),
        baseline.test_file_hashes@.contains_key(file_part(id)),
        hashes.contains_key(file_part(id)),
        hashes[file_part(id)] == Some(baseline.test_file_hashes@[file_part(id)]@),
        forall|f: Seq<char>| #[trigger]
            index.covers(id, f) ==> hashes.contains_key(f) && hashes[f] == Some(
                index.files@[f].hash@,
            ),
    ensures
        need_not_run(index, baseline, hashes, id),
{
}

/// A test that did not pass runs, and so does one that is not known to cover anything, or
/// whose own file was not recorded or cannot be read now.
pub proof fn theorem_unknown_tests_run(
    index: CoverageIndex,
    baseline: Baseline,
    hashes: Map<Seq<char>, Option<Seq<char>>>,
    id: Seq<char>,
)
    requires
        ({
            ||| !baseline.green@.contains(id)
            ||| forall|f: Seq<char>| !index.covers(id, f)
            ||| !baseline.test_file_hashes@.contains_key(file_part(id))
            ||| !hashes.contains_key(file_part(id))
            ||| exists|f: Seq<char>| #[trigger] index.covers(id, f) && !hashes.contains_key(f)
        }),
    ensures
        !need_not_run(index, baseline, hashes, id),
{
}

/// A test covers a file where some line of it was executed by the test.
pub proof fn theorem_covering_is_executing_a_line(
    index: CoverageIndex,
    id: Seq<char>,
    f: Seq<char>,
    line: u32,
    i: int,
)
    requires
        index.files@.contains_key(f),
        index.files@[f].lines@.contains_key(line),
        0 <= i < index.files@[f].lines@[line]@.len(),
        index.files@[f].lines@[line]@[i]@ == id,
    ensures
        index.covers(id, f),
{
    let ids = texts(index.files@[f].lines@[line]@);
    assert(ids[i] == id);
    assert(index.files@[f].hit(line, id));
}

/// What was recorded counts under the configuration it was recorded under, and then all of
/// it.
pub proof fn theorem_recorded_outcomes_count(
    o: Outcomes,
    config_fp: Seq<char>,
    green: Set<Seq<char>>,
    lines: Map<Seq<char>, u64>,
    b: Baseline,
)
    requires
        is_record(o, config_fp, green, lines),
        loaded(Some(o), config_fp, b),
    ensures
        b.green@ == green,
        b.test_lines@ == lines,
        b.test_file_hashes@ == o.test_file_hashes@,
{
}

/// Under another configuration, or written in another way, stored outcomes skip nothing;
/// neither do none.
pub proof fn theorem_other_outcomes_do_not_count(
    stored: Option<Outcomes>,
    config_fp: Seq<char>,
    b: Baseline,
    index: CoverageIndex,
    hashes: Map<Seq<char>, Option<Seq<char>>>,
    id: Seq<char>,
)
    requires
        loaded(stored, config_fp, b),
        stored matches Some(o) ==> o.schema != 2 || o.config_fp@ != config_fp,
    ensures
        !need_not_run(index, b, hashes, id),
        !b.green@.contains(id),
{
}

/// The files of tests that passed are hashed: each one, and under its own path.
pub proof fn theorem_files_of_passed_tests_are_hashed(
    green: Set<Seq<char>>,
    hashes: Map<Seq<char>, Option<Seq<char>>>,
    id: Seq<char>,
    h: Seq<char>,
)
    requires
        hashes.dom() == test_files(green),
        green.contains(id),
    ensures
        hashes.contains_key(file_part(id)),
        hashes[file_part(id)] == Some(h) ==> known_hashes(hashes).contains_key(file_part(id))
            && known_hashes(hashes)[file_part(id)] == h,
        hashes[file_part(id)] is None ==> !known_hashes(hashes).contains_key(file_part(id)),
{
    assert(test_files(green).contains(file_part(id)));
    assert(hashes.dom().contains(file_part(id)));
}

/// Coverage is asked for by the flag, with a value or without, and by nothing else.
pub proof fn theorem_coverage_is_asked_for(args: Seq<Seq<char>>, i: int, v: Seq<char>)
    requires
        0 <= i < args.len(),
    ensures
        args[i] == "--cov"@ ==> asks_for_coverage(args),
        args[i] == "--cov="@ + v ==> asks_for_coverage(args),
        (forall|k: int| 0 <= k < args.len() ==> !starts(#[trigger] args[k], "--cov"@))
            ==> !asks_for_coverage(args),
{
    reveal_strlit("--cov");
    reveal_strlit("--cov=");
    if args[i] == "--cov="@ + v {
        assert(args[i].subrange(0, 6) =~= "--cov="@);
    }
    if asks_for_coverage(args) {
        let k = choose|k: int|
            0 <= k < args.len() && (#[trigger] args[k] == "--cov"@ || starts(args[k], "--cov="@));
        let a = args[k];
        if a == "--cov"@ {
            assert(a.subrange(0, 5) =~= "--cov"@);
        } else {
            assert(a.subrange(0, 5) =~= a.subrange(0, 6).take(5));
            assert("--cov="@.take(5) =~= "--cov"@);
        }
        assert(starts(args[k], "--cov"@));
    }
}

/// Coverage is of a part of the tree where a part is named and the whole is not: the flag
/// alone, an empty value, and the directory itself name the whole.
pub proof fn theorem_coverage_of_a_part(args: Seq<Seq<char>>, i: int, part: Seq<char>)
    requires
        0 <= i < args.len(),
    ensures
        args[i] == "--cov"@ || args[i] == "--cov="@ || args[i] == "--cov=."@ || args[i]
            == "--cov=./"@ ==> !narrowed(args),
        (forall|k: int| 0 <= k < args.len() ==> !starts(#[trigger] args[k], "--cov"@)) ==> !narrowed(
            args,
        ),
        args == seq!["--cov="@ + part] && part.len() > 0 && part != "."@ && part != "./"@
            ==> narrowed(args),
{
    reveal_strlit("--cov");
    reveal_strlit("--cov=");
    reveal_strlit("--cov=.");
    reveal_strlit("--cov=./");
    reveal_strlit("");
    reveal_strlit(".");
    reveal_strlit("./");
    if args[i] == "--cov="@ {
        assert("--cov="@.skip(6) =~= ""@);
        assert("--cov="@.subrange(0, 6) =~= "--cov="@);
        assert(whole_tree(args[i]));
    }
    if args[i] == "--cov=."@ {
        assert("--cov=."@.skip(6) =~= "."@);
        assert("--cov=."@.subrange(0, 6) =~= "--cov="@);
        assert(whole_tree(args[i]));
    }
    if args[i] == "--cov=./"@ {
        assert("--cov=./"@.skip(6) =~= "./"@);
        assert("--cov=./"@.subrange(0, 6) =~= "--cov="@);
        assert(whole_tree(args[i]));
    }
    if (forall|k: int| 0 <= k < args.len() ==> !starts(#[trigger] args[k], "--cov"@)) && narrowed(
        args,
    ) {
        let k = choose|k: int| 0 <= k < args.len() && starts(#[trigger] args[k], "--cov="@);
        let a = args[k];
        assert(a.subrange(0, 5) =~= a.subrange(0, 6).take(5));
        assert("--cov="@.take(5) =~= "--cov"@);
        assert(starts(args[k], "--cov"@));
    }
    if args == seq!["--cov="@ + part] && part.len() > 0 && part != "."@ && part != "./"@ {
        let a = "--cov="@ + part;
        assert(args[0] == a);
        assert(a.subrange(0, 6) =~= "--cov="@);
        assert(a.skip(6) =~= part);
        assert("--cov"@.len() == 5 && a.len() > 6);
        assert(""@.len() == 0);
        assert(starts(args[0], "--cov="@));
        assert(!whole_tree(args[0]));
    }
}

/// The search for `conftest.py` takes every file of that name and no other, and goes into
/// every directory but hidden ones, environments, packages of another language, and
/// caches. What it cannot tell it leaves out.
pub proof fn theorem_search_for_conftests(name: Seq<char>)
    ensures
        action_for(Some(false), name) == EntryAction::Collect <==> name == "conftest.py"@,
        action_for(Some(false), name) != EntryAction::Descend,
        action_for(Some(true), name) != EntryAction::Collect,
        action_for(Some(true), name) == EntryAction::Skip <==> name == "venv"@ || name
            == "node_modules"@ || name == "__pycache__"@ || (name.len() > 0 && name[0] == '.'),
        action_for(None, name) == EntryAction::Skip,
{
}

/// Where a file was measured again, its new hash counts; where it was not, the old one
/// does, for the sake of a test that was left out, and else it is forgotten.
pub proof fn theorem_hashes_are_carried(
    old_index: CoverageIndex,
    new_index: CoverageIndex,
    cached: Set<Seq<char>>,
    res: CoverageIndex,
    id: Seq<char>,
    f: Seq<char>,
)
    requires
        carried_over(old_index, new_index, cached, res),
    ensures
        new_index.files@.contains_key(f) ==> res.files@.contains_key(f) && res.files@[f].hash@
            == new_index.files@[f].hash@,
        !new_index.files@.contains_key(f) && cached.contains(id) && old_index.covers(id, f)
            ==> res.files@.contains_key(f) && res.files@[f].hash@ == old_index.files@[f].hash@,
        !new_index.files@.contains_key(f) && (forall|t: Seq<char>| #[trigger]
            cached.contains(t) ==> !old_index.covers(t, f)) ==> !res.files@.contains_key(f),
        new_index.schema != 0 ==> res.schema == new_index.schema,
{
    assert(hash_at(res, f) == carried_hash(old_index, new_index, cached, f));
    if !new_index.files@.contains_key(f) && cached.contains(id) && old_index.covers(id, f) {
        let file = old_index.files@[f];
        let line = choose|line: u32| file.hit(line, id);
        let ids = texts(file.lines@[line]@);
        let i = choose|i: int| 0 <= i < ids.len() && ids[i] == id;
        assert(cached.contains(ids[i]));
        assert(any_cached(ids, cached));
        assert(ids_on(file.lines@, line) == Some(ids));
        assert(file_has_cached(file, cached));
    }
    if !new_index.files@.contains_key(f) && (forall|t: Seq<char>| #[trigger]
        cached.contains(t) ==> !old_index.covers(t, f)) {
        if old_index.files@.contains_key(f) && file_has_cached(old_index.files@[f], cached) {
            let file = old_index.files@[f];
            let line = choose|line: u32| #[trigger]
                ids_on(file.lines@, line) matches Some(ids) && any_cached(ids, cached);
            let ids = texts(file.lines@[line]@);
            let i = choose|i: int| 0 <= i < ids.len() && cached.contains(#[trigger] ids[i]);
            assert(file.hit(line, ids[i]));
            assert(old_index.covers(ids[i], f));
        }
    }
}

} // verus!
