//! Running only what changed since the last run in which everything passed.

use crate::digest::{
    lemma_encode_injective, lemma_middle, push_bytes, sha256_hex, sha256_text, told_apart,
};
use crate::text::{opt_text, str_eq};
use vstd::bytes::{spec_u64_to_le_bytes, u64_to_le_bytes};
use vstd::prelude::*;
use vstd::utf8::encode_utf8;

verus! {

/// Version of the stored baseline.
pub const SCHEMA: u32 = 2;

/// The commit of the last run in which everything passed.
pub struct Baseline {
    pub schema: u32,
    pub sha: String,
    /// Fingerprint of the environment at that run.
    pub fingerprint: String,
}

/// The commit to compare with, where one may be relied on.
pub open spec fn reliable(stored: Option<Baseline>, fingerprint: Seq<char>) -> Option<Seq<char>> {
    match stored {
        Some(b) => if b.schema == SCHEMA && b.sha@.len() > 0 && b.fingerprint@ == fingerprint {
            Some(b.sha@)
        } else {
            None
        },
        None => None,
    }
}

/// The commit to compare with. None where everything is to run: nothing is
/// stored, it is of another version, or the environment changed.
pub fn baseline(stored: Option<Baseline>, fingerprint: &str) -> (res: Option<String>)
    ensures
        opt_text(res) == reliable(stored, fingerprint@),
{
    match stored {
        Some(b) => if b.schema == SCHEMA && !b.sha.as_str().is_empty() && str_eq(
            b.fingerprint.as_str(),
            fingerprint,
        ) {
            Some(b.sha)
        } else {
            None
        },
        None => None,
    }
}

/// What to store after a run in which everything passed.
pub fn record_green(sha: &str, fingerprint: &str) -> (res: Baseline)
    ensures
        records(res, sha@, fingerprint@),
{
    Baseline { schema: SCHEMA, sha: sha.to_owned(), fingerprint: fingerprint.to_owned() }
}

/// What was recorded is read back in the same environment, and in no other.
pub proof fn theorem_recorded_reads_back(b: Baseline, fingerprint: Seq<char>)
    requires
        b.schema == SCHEMA,
        b.sha@.len() > 0,
    ensures
        reliable(Some(b), b.fingerprint@) == Some(b.sha@),
        fingerprint != b.fingerprint@ ==> reliable(Some(b), fingerprint) is None,
{
}

/// What is known of a file without reading it.
pub struct FileMeta {
    pub len: u64,
    /// Seconds from the epoch to its last change, where that is known.
    pub modified: Option<u64>,
}

/// The files that list a project's dependencies.
pub open spec fn lockfiles() -> Seq<Seq<char>> {
    seq!["uv.lock"@, "poetry.lock"@, "pdm.lock"@, "requirements.txt"@]
}

/// The contents of those files, in the same order; none for a missing one.
pub struct Lockfiles {
    pub uv: Option<Vec<u8>>,
    pub poetry: Option<Vec<u8>>,
    pub pdm: Option<Vec<u8>>,
    pub requirements: Option<Vec<u8>>,
}

/// What one file adds to the fingerprint: its name, its length and its content.
pub open spec fn lock_bytes(name: Seq<char>, content: Option<Vec<u8>>) -> Seq<u8> {
    match content {
        Some(c) => encode_utf8(name) + spec_u64_to_le_bytes(c@.len() as u64) + c@,
        None => Seq::empty(),
    }
}

/// What is known of the interpreter's file adds this to the fingerprint.
pub open spec fn meta_bytes(meta: Option<FileMeta>) -> Seq<u8> {
    match meta {
        Some(m) => spec_u64_to_le_bytes(m.len) + (match m.modified {
            Some(secs) => spec_u64_to_le_bytes(secs),
            None => Seq::empty(),
        }),
        None => Seq::empty(),
    }
}

/// What the interpreter adds to the fingerprint.
pub open spec fn python_bytes(python: Seq<char>, meta: Option<FileMeta>) -> Seq<u8> {
    encode_utf8(python) + meta_bytes(meta)
}

/// All that goes into the fingerprint.
pub open spec fn env_bytes(python: Seq<char>, meta: Option<FileMeta>, locks: Lockfiles) -> Seq<u8> {
    python_bytes(python, meta) + lock_bytes(lockfiles()[0], locks.uv) + lock_bytes(
        lockfiles()[1],
        locks.poetry,
    ) + lock_bytes(lockfiles()[2], locks.pdm) + lock_bytes(lockfiles()[3], locks.requirements)
}

fn push_lock(out: &mut Vec<u8>, name: &str, content: &Option<Vec<u8>>)
    ensures
        final(out)@ == old(out)@ + lock_bytes(name@, *content),
{
    let ghost start = out@;
    match content {
        Some(c) => {
            push_bytes(out, name.as_bytes());
            let n = u64_to_le_bytes(c.len() as u64);
            push_bytes(out, n.as_slice());
            push_bytes(out, c.as_slice());
            assert(out@ =~= start + lock_bytes(name@, *content));
        },
        None => {
            assert(out@ =~= start + lock_bytes(name@, *content));
        },
    }
}

/// A fingerprint of what git does not see of the environment: the interpreter,
/// by its path, length and time of change, and the files that list dependencies.
pub fn env_fingerprint(python: &str, meta: Option<FileMeta>, locks: &Lockfiles) -> (res: String)
    ensures
        res@ == sha256_text(env_bytes(python@, meta, *locks)),
{
    let mut bytes: Vec<u8> = Vec::new();
    push_bytes(&mut bytes, python.as_bytes());
    assert(bytes@ =~= encode_utf8(python@));
    if let Some(m) = &meta {
        let n = u64_to_le_bytes(m.len);
        push_bytes(&mut bytes, n.as_slice());
        if let Some(secs) = m.modified {
            let n = u64_to_le_bytes(secs);
            push_bytes(&mut bytes, n.as_slice());
        }
    }
    assert(bytes@ =~= python_bytes(python@, meta));
    push_lock(&mut bytes, "uv.lock", &locks.uv);
    push_lock(&mut bytes, "poetry.lock", &locks.poetry);
    push_lock(&mut bytes, "pdm.lock", &locks.pdm);
    push_lock(&mut bytes, "requirements.txt", &locks.requirements);
    sha256_hex(bytes.as_slice())
}

/// The content of the `i`-th of the files that list dependencies, where it is there.
pub open spec fn lock_at(locks: Lockfiles, i: int) -> Option<Seq<u8>> {
    let file = if i == 0 {
        locks.uv
    } else if i == 1 {
        locks.poetry
    } else if i == 2 {
        locks.pdm
    } else {
        locks.requirements
    };
    match file {
        Some(c) => Some(c@),
        None => None,
    }
}

/// A file that lists dependencies and is added, edited or removed changes the
/// fingerprint, as long as different contents have different digests.
pub proof fn theorem_lockfile_changes_fingerprint(
    python: Seq<char>,
    meta: Option<FileMeta>,
    a: Lockfiles,
    b: Lockfiles,
    i: int,
)
    requires
        0 <= i < 4,
        forall|j: int| 0 <= j < 4 && j != i ==> lock_at(a, j) == #[trigger] lock_at(b, j),
        lock_at(a, i) != lock_at(b, i),
        told_apart(env_bytes(python, meta, a), env_bytes(python, meta, b)),
    ensures
        env_bytes(python, meta, a) != env_bytes(python, meta, b),
        sha256_text(env_bytes(python, meta, a)) != sha256_text(env_bytes(python, meta, b)),
{
    let x = env_bytes(python, meta, a);
    let y = env_bytes(python, meta, b);
    let start = python_bytes(python, meta);
    let (a0, a1, a2, a3) = (
        lock_bytes(lockfiles()[0], a.uv),
        lock_bytes(lockfiles()[1], a.poetry),
        lock_bytes(lockfiles()[2], a.pdm),
        lock_bytes(lockfiles()[3], a.requirements),
    );
    let (b0, b1, b2, b3) = (
        lock_bytes(lockfiles()[0], b.uv),
        lock_bytes(lockfiles()[1], b.poetry),
        lock_bytes(lockfiles()[2], b.pdm),
        lock_bytes(lockfiles()[3], b.requirements),
    );
    let none = Seq::<u8>::empty();
    assert(lock_at(a, 0) == lock_at(b, 0) || i == 0);
    assert(lock_at(a, 1) == lock_at(b, 1) || i == 1);
    assert(lock_at(a, 2) == lock_at(b, 2) || i == 2);
    assert(lock_at(a, 3) == lock_at(b, 3) || i == 3);
    reveal_strlit("uv.lock");
    reveal_strlit("poetry.lock");
    reveal_strlit("pdm.lock");
    reveal_strlit("requirements.txt");
    if x == y {
        if i == 0 {
            assert(x =~= start + a0 + (a1 + a2 + a3));
            assert(y =~= start + b0 + (a1 + a2 + a3));
            lemma_middle(start, a0, b0, a1 + a2 + a3);
            lemma_lock_bytes(lockfiles()[0], a.uv, b.uv);
        } else if i == 1 {
            assert(x =~= (start + a0) + a1 + (a2 + a3));
            assert(y =~= (start + a0) + b1 + (a2 + a3));
            lemma_middle(start + a0, a1, b1, a2 + a3);
            lemma_lock_bytes(lockfiles()[1], a.poetry, b.poetry);
        } else if i == 2 {
            assert(x =~= (start + a0 + a1) + a2 + a3);
            assert(y =~= (start + a0 + a1) + b2 + a3);
            lemma_middle(start + a0 + a1, a2, b2, a3);
            lemma_lock_bytes(lockfiles()[2], a.pdm, b.pdm);
        } else {
            assert(x =~= (start + a0 + a1 + a2) + a3 + none);
            assert(y =~= (start + a0 + a1 + a2) + b3 + none);
            lemma_middle(start + a0 + a1 + a2, a3, b3, none);
            lemma_lock_bytes(lockfiles()[3], a.requirements, b.requirements);
        }
    }
}

/// An interpreter at another path changes the fingerprint, and so does one of another
/// length or time of change, as long as different contents have different digests.
pub proof fn theorem_interpreter_changes_fingerprint(
    python: Seq<char>,
    meta: Option<FileMeta>,
    other: Seq<char>,
    other_meta: Option<FileMeta>,
    locks: Lockfiles,
)
    requires
        (python == other) != (meta == other_meta),
        told_apart(env_bytes(python, meta, locks), env_bytes(other, other_meta, locks)),
    ensures
        env_bytes(python, meta, locks) != env_bytes(other, other_meta, locks),
        sha256_text(env_bytes(python, meta, locks)) != sha256_text(
            env_bytes(other, other_meta, locks),
        ),
{
    let x = env_bytes(python, meta, locks);
    let y = env_bytes(other, other_meta, locks);
    let none = Seq::<u8>::empty();
    let rest = lock_bytes(lockfiles()[0], locks.uv) + lock_bytes(lockfiles()[1], locks.poetry)
        + lock_bytes(lockfiles()[2], locks.pdm) + lock_bytes(lockfiles()[3], locks.requirements);
    assert(x =~= none + python_bytes(python, meta) + rest);
    assert(y =~= none + python_bytes(other, other_meta) + rest);
    if x == y {
        lemma_middle(none, python_bytes(python, meta), python_bytes(other, other_meta), rest);
        let a = meta_bytes(meta);
        let b = meta_bytes(other_meta);
        if python == other {
            let m = encode_utf8(python);
            assert(m + a + none =~= python_bytes(python, meta));
            assert(m + b + none =~= python_bytes(other, other_meta));
            lemma_middle(m, a, b, none);
            lemma_meta_bytes(meta, other_meta);
        } else {
            let m = encode_utf8(python);
            let n = encode_utf8(other);
            assert(none + m + a =~= python_bytes(python, meta));
            assert(none + n + a =~= python_bytes(other, other_meta));
            lemma_middle(none, m, n, a);
            lemma_encode_injective(python, other);
        }
    }
}

proof fn lemma_meta_bytes(a: Option<FileMeta>, b: Option<FileMeta>)
    requires
        meta_bytes(a) == meta_bytes(b),
    ensures
        a == b,
{
    vstd::bytes::lemma_auto_spec_u64_to_from_le_bytes();
    let m = meta_bytes(a);
    if let Some(x) = a {
        assert(m.len() == if x.modified is Some {
            16nat
        } else {
            8nat
        });
        assert(m.take(8) =~= spec_u64_to_le_bytes(x.len));
        if let Some(secs) = x.modified {
            assert(m.skip(8) =~= spec_u64_to_le_bytes(secs));
        }
    }
    if let Some(y) = b {
        assert(m.len() == if y.modified is Some {
            16nat
        } else {
            8nat
        });
        assert(m.take(8) =~= spec_u64_to_le_bytes(y.len));
        if let Some(secs) = y.modified {
            assert(m.skip(8) =~= spec_u64_to_le_bytes(secs));
        }
    }
    if let (Some(x), Some(y)) = (a, b) {
        assert(x.len == y.len);
        assert(x.modified == y.modified);
    }
}

proof fn lemma_lock_bytes(name: Seq<char>, a: Option<Vec<u8>>, b: Option<Vec<u8>>)
    requires
        name.len() > 0,
        lock_bytes(name, a) == lock_bytes(name, b),
    ensures
        (a is Some) == (b is Some),
        a matches Some(c) ==> b matches Some(d) && c@ == d@,
{
    lemma_encode_injective(name, name);
    vstd::bytes::lemma_auto_spec_u64_to_from_le_bytes();
    let n = encode_utf8(name).len() + 8;
    if let Some(c) = a {
        assert(lock_bytes(name, a).len() == n + c@.len());
        assert(lock_bytes(name, a).skip(n as int) =~= c@);
    }
    if let Some(d) = b {
        assert(lock_bytes(name, b).len() == n + d@.len());
        assert(lock_bytes(name, b).skip(n as int) =~= d@);
    }
}

/// The commit that `git rev-parse HEAD` printed.
pub open spec fn printed_sha(stdout: Seq<char>) -> Option<Seq<char>> {
    let sha = crate::text::trimmed(stdout);
    if sha.len() > 0 {
        Some(sha)
    } else {
        None
    }
}

/// Reads the commit that `git rev-parse HEAD` printed, where it succeeded.
pub fn head_sha(success: bool, stdout: &str) -> (res: Option<String>)
    ensures
        opt_text(res) == commit_printed(success, stdout@),
{
    if !success {
        return None;
    }
    let sha = crate::text::trim(stdout);
    if sha.as_str().is_empty() {
        None
    } else {
        Some(sha)
    }
}

/// Whether `b` records a commit and an environment in which everything passed.
pub open spec fn records(b: Baseline, sha: Seq<char>, fingerprint: Seq<char>) -> bool {
    b.schema == SCHEMA && b.sha@ == sha && b.fingerprint@ == fingerprint
}

/// The commit that was printed, where the command succeeded.
pub open spec fn commit_printed(success: bool, stdout: Seq<char>) -> Option<Seq<char>> {
    if success {
        printed_sha(stdout)
    } else {
        None
    }
}

/// A commit that was recorded is compared with in the environment it was recorded in, and
/// in no other; one that is not named, or was written in another way, never is.
pub proof fn theorem_recorded_commit_is_compared_with(
    b: Baseline,
    sha: Seq<char>,
    fingerprint: Seq<char>,
    now: Seq<char>,
)
    ensures
        records(b, sha, fingerprint) && sha.len() > 0 && now == fingerprint ==> reliable(
            Some(b),
            now,
        ) == Some(sha),
        b.fingerprint@ != now ==> reliable(Some(b), now) is None,
        b.schema != 2 ==> reliable(Some(b), now) is None,
        b.sha@.len() == 0 ==> reliable(Some(b), now) is None,
        reliable(None, now) is None,
{
}

/// Each file that lists dependencies is known by its name: what is digested of it is the
/// name, the length and the content.
pub proof fn theorem_lockfiles_are_told_apart_by_name(
    python: Seq<char>,
    meta: Option<FileMeta>,
    locks: Lockfiles,
)
    ensures
        locks.poetry is None && locks.pdm is None && locks.requirements is None ==> env_bytes(
            python,
            meta,
            locks,
        ) == python_bytes(python, meta) + lock_bytes("uv.lock"@, locks.uv),
        locks.uv is None && locks.pdm is None && locks.requirements is None ==> env_bytes(
            python,
            meta,
            locks,
        ) == python_bytes(python, meta) + lock_bytes("poetry.lock"@, locks.poetry),
        locks.uv is None && locks.poetry is None && locks.requirements is None ==> env_bytes(
            python,
            meta,
            locks,
        ) == python_bytes(python, meta) + lock_bytes("pdm.lock"@, locks.pdm),
        locks.uv is None && locks.poetry is None && locks.pdm is None ==> env_bytes(
            python,
            meta,
            locks,
        ) == python_bytes(python, meta) + lock_bytes("requirements.txt"@, locks.requirements),
        forall|name: Seq<char>, c: Vec<u8>| #[trigger]
            lock_bytes(name, Some(c)) == encode_utf8(name) + spec_u64_to_le_bytes(
                c@.len() as u64,
            ) + c@,
{
    let none = Seq::<u8>::empty();
    let start = python_bytes(python, meta);
    assert(start + none =~= start);
    let u = lock_bytes("uv.lock"@, locks.uv);
    let o = lock_bytes("poetry.lock"@, locks.poetry);
    let d = lock_bytes("pdm.lock"@, locks.pdm);
    let r = lock_bytes("requirements.txt"@, locks.requirements);
    assert(env_bytes(python, meta, locks) == start + u + o + d + r);
    if o == none && d == none && r == none {
        assert(start + u + o + d + r =~= start + u);
    }
    if u == none && d == none && r == none {
        assert(start + u + o + d + r =~= start + o);
    }
    if u == none && o == none && r == none {
        assert(start + u + o + d + r =~= start + d);
    }
    if u == none && o == none && d == none {
        assert(start + u + o + d + r =~= start + r);
    }
}

/// The commit is what was printed without the blanks around it, where the command
/// succeeded and printed anything.
pub proof fn theorem_commit_is_what_was_printed(sha: Seq<char>)
    requires
        sha.len() > 0,
        !crate::text::is_space(sha[0]),
        !crate::text::is_space(sha.last()),
    ensures
        commit_printed(true, sha) == Some(sha),
        commit_printed(true, sha.push('\n')) == Some(sha),
        commit_printed(false, sha) is None,
        commit_printed(true, Seq::<char>::empty()) is None,
{
    crate::text::theorem_trimming(sha);
    crate::text::theorem_trimming(Seq::empty());
}

} // verus!
