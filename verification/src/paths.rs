//! Paths, as Unix and as Windows read them. On Windows a backslash separates as a
//! slash does, and a path may begin with a drive, a server and a share, or a device.

use crate::text::{
    find_char, from_range, is_letter, join, joined, lemma_joined_first, lemma_pos,
    lemma_split_joined, lemma_split_two, pos, replace_char, replaced, split_on, str_eq, texts,
    to_chars,
};
use vstd::prelude::*;

verus! {

broadcast use crate::text::lemma_texts_push;

/// `rel` as seen from `base` where only `/` separates: an absolute `rel` stands for
/// itself.
pub open spec fn joined_by_slash(base: Seq<char>, rel: Seq<char>) -> Seq<char> {
    if rel.len() > 0 && rel[0] == '/' {
        rel
    } else if base.len() == 0 || base.last() == '/' {
        base + rel
    } else {
        base + "/"@ + rel
    }
}

/// The components of a path in which `c` separates: what stands between the
/// separators, without the empty ones and, after the first, without `.`. A leading
/// separator is a component of its own.
pub open spec fn parts_of(path: Seq<char>, c: char) -> Seq<Seq<char>> {
    let pieces = split_on(path, c);
    if path.len() > 0 && path[0] == c {
        seq![seq![c]] + named(pieces.skip(1))
    } else if pieces.len() > 0 && pieces[0] == "."@ {
        seq!["."@] + named(pieces.skip(1))
    } else {
        named(pieces)
    }
}

/// The pieces that name something: neither empty nor `.`.
pub open spec fn named(pieces: Seq<Seq<char>>) -> Seq<Seq<char>>
    decreases pieces.len(),
{
    if pieces.len() == 0 {
        Seq::empty()
    } else {
        let before = named(pieces.drop_last());
        if pieces.last().len() == 0 || pieces.last() == "."@ {
            before
        } else {
            before.push(pieces.last())
        }
    }
}

fn parts(path: &str, c: char) -> (res: Vec<String>)
    ensures
        texts(res@) == parts_of(path@, c),
{
    let pieces = crate::text::split_char(path, c);
    let v = to_chars(path);
    let ghost all = texts(pieces@);
    let mut out: Vec<String> = Vec::new();
    let mut i: usize = 0;
    if v.len() > 0 && v[0] == c {
        let mut root = String::new();
        root.push(c);
        assert(root@ =~= seq![c]);
        out.push(root);
        i = 1;
    } else if crate::text::str_eq(pieces[0].as_str(), ".") {
        out.push(".".to_owned());
        i = 1;
    }
    let ghost head = texts(out@);
    let ghost from = i as int;
    assert(all[0] == pieces@[0]@);
    assert(from == 0 ==> head =~= Seq::empty());
    assert(all.skip(from).take(0) =~= Seq::empty());
    assert(head + Seq::empty() =~= head);
    while i < pieces.len()
        invariant
            all == texts(pieces@),
            0 <= from <= i <= pieces.len(),
            texts(out@) == head + named(all.skip(from).take(i - from)),
        decreases pieces.len() - i,
    {
        let ghost before = named(all.skip(from).take(i - from));
        let ghost t = all.skip(from).take(i - from + 1);
        proof {
            assert(t.drop_last() =~= all.skip(from).take(i - from));
            assert(t.last() == pieces@[i as int]@);
        }
        if !pieces[i].as_str().is_empty() && !crate::text::str_eq(pieces[i].as_str(), ".") {
            out.push(pieces[i].clone());
            assert(texts(out@) =~= head + before.push(pieces@[i as int]@));
        }
        i += 1;
    }
    proof {
        assert(all.skip(from).take(pieces.len() - from) =~= all.skip(from));
        if from == 0 {
            assert(all.skip(0) =~= all);
            assert(head + named(all) =~= named(all));
        } else if v.len() > 0 && v@[0] == c {
            assert(head =~= seq![seq![c]]);
        } else {
            assert(head =~= seq!["."@]);
        }
    }
    out
}

/// A path in which all separators are backslashes, as Windows reads it: a path that
/// begins with `\\?\` stands as it is.
pub open spec fn unified(path: Seq<char>) -> Seq<char> {
    if is_verbatim(path) {
        path
    } else {
        Seq::new(
            path.len(),
            |i: int|
                if path[i] == '/' {
                    '\\'
                } else {
                    path[i]
                },
        )
    }
}

/// Whether a path is one that Windows takes literally.
pub open spec fn is_verbatim(path: Seq<char>) -> bool {
    path.len() >= 4 && path[0] == '\\' && path[1] == '\\' && path[2] == '?' && path[3] == '\\'
}

/// Whether a character separates components on Windows.
pub open spec fn is_sep(c: char) -> bool {
    c == '\\' || c == '/'
}

/// Whether a path begins with a drive.
pub open spec fn has_drive(s: Seq<char>) -> bool {
    s.len() >= 2 && is_letter(s[0]) && s[1] == ':'
}

/// Where the share ends in a text that begins with a server and a share.
pub open spec fn share_end(s: Seq<char>) -> int {
    let a = pos(s, '\\');
    if a >= s.len() {
        a
    } else {
        let b = pos(s.skip(a + 1), '\\');
        if b == 0 {
            a
        } else {
            a + 1 + b
        }
    }
}

/// How long the prefix of a path on Windows is, given its separators are all
/// backslashes: a drive, a server with a share, or a device.
pub open spec fn prefix_len(s: Seq<char>) -> int {
    if is_verbatim(s) {
        if s.len() >= 8 && s[4] == 'U' && s[5] == 'N' && s[6] == 'C' && is_sep(s[7]) {
            8 + share_end(s.skip(8))
        } else if has_drive(s.skip(4)) && (s.len() == 6 || is_sep(s[6])) {
            6
        } else {
            4 + pos(s.skip(4), '\\')
        }
    } else if s.len() >= 2 && s[0] == '\\' && s[1] == '\\' {
        if s.len() >= 4 && s[2] == '.' && s[3] == '\\' {
            4 + pos(s.skip(4), '\\')
        } else if 0 < pos(s.skip(2), '\\') < share_end(s.skip(2)) {
            2 + share_end(s.skip(2))
        } else {
            0
        }
    } else if has_drive(s) {
        2
    } else {
        0
    }
}

/// Whether a path begins with a prefix.
pub open spec fn has_prefix(windows: bool, path: Seq<char>) -> bool {
    windows && prefix_len(unified(path)) > 0
}

/// A letter as a capital.
pub open spec fn capital(c: char) -> char {
    if 'a' <= c && c <= 'z' {
        (c as u32 - 32) as char
    } else {
        c
    }
}

/// A prefix by which it is told apart: the case of a drive does not matter.
pub open spec fn prefix_part(p: Seq<char>) -> Seq<char> {
    if is_verbatim(p) && p.len() == 6 && has_drive(p.skip(4)) {
        p.update(4, capital(p[4]))
    } else if has_drive(p) {
        p.update(0, capital(p[0]))
    } else {
        p
    }
}

/// How a prefix is ordered among others: by its kind first.
pub open spec fn prefix_rank(p: Seq<char>) -> Seq<char> {
    if is_verbatim(p) {
        if p.len() >= 8 && p[4] == 'U' && p[5] == 'N' && p[6] == 'C' && is_sep(p[7]) {
            "\0\u{2}"@
        } else if p.len() == 6 && has_drive(p.skip(4)) {
            "\0\u{3}"@
        } else {
            "\0\u{1}"@
        }
    } else if has_drive(p) {
        "\0\u{6}"@
    } else if p.len() >= 4 && p[2] == '.' && p[3] == '\\' {
        "\0\u{4}"@
    } else {
        "\0\u{5}"@
    }
}

/// What a prefix is ordered by: it comes before all other components.
pub open spec fn prefix_key(p: Seq<char>) -> Seq<char> {
    prefix_rank(p) + replaced(p, '\\', "\0"@) + "\0"@
}

/// How the root is written as a component.
pub open spec fn root_part(windows: bool) -> Seq<char> {
    if windows {
        "\\"@
    } else {
        "/"@
    }
}

/// The components of a path behind a prefix.
pub open spec fn behind_prefix(s: Seq<char>, k: int) -> Seq<Seq<char>> {
    let body = s.skip(k);
    let rooted = body.len() > 0 && is_sep(body[0]);
    let pieces = split_on(
        if rooted {
            body.skip(1)
        } else {
            body
        },
        '\\',
    );
    let names = if is_verbatim(s) {
        filled(pieces)
    } else {
        named(pieces)
    };
    if rooted || !(has_drive(s) || is_verbatim(s)) {
        seq!["\\"@] + names
    } else {
        names
    }
}

/// The components of a path: its prefix on Windows, its root, and the names in it.
pub open spec fn components_of(windows: bool, path: Seq<char>) -> Seq<Seq<char>> {
    if !windows {
        parts_of(path, '/')
    } else {
        let s = unified(path);
        let k = prefix_len(s);
        if k > 0 {
            seq![prefix_part(s.take(k))] + behind_prefix(s, k)
        } else {
            parts_of(s, '\\')
        }
    }
}

/// The pieces that are not empty.
pub open spec fn filled(pieces: Seq<Seq<char>>) -> Seq<Seq<char>>
    decreases pieces.len(),
{
    if pieces.len() == 0 {
        Seq::empty()
    } else {
        let before = filled(pieces.drop_last());
        if pieces.last().len() == 0 {
            before
        } else {
            before.push(pieces.last())
        }
    }
}

fn unify(path: &str) -> (res: Vec<char>)
    ensures
        res@ == unified(path@),
{
    let v = to_chars(path);
    if v.len() >= 4 && v[0] == '\\' && v[1] == '\\' && v[2] == '?' && v[3] == '\\' {
        return v;
    }
    let mut out: Vec<char> = Vec::new();
    let mut i: usize = 0;
    while i < v.len()
        invariant
            i <= v.len(),
            v@ == path@,
            !is_verbatim(path@),
            out.len() == i,
            forall|j: int| 0 <= j < i ==> #[trigger] out@[j] == unified(path@)[j],
        decreases v.len() - i,
    {
        out.push(
            if v[i] == '/' {
                '\\'
            } else {
                v[i]
            },
        );
        i += 1;
    }
    assert(out@ =~= unified(path@));
    out
}

fn drive_at(v: &Vec<char>, from: usize) -> (res: bool)
    requires
        from <= v.len(),
    ensures
        res == has_drive(v@.skip(from as int)),
{
    v.len() - from >= 2 && (('a' <= v[from] && v[from] <= 'z') || ('A' <= v[from] && v[from] <= 'Z'))
        && v[from + 1] == ':'
}

fn share_at(v: &Vec<char>, from: usize) -> (res: usize)
    requires
        from <= v.len(),
    ensures
        res == from + share_end(v@.skip(from as int)),
        from <= res <= v.len(),
{
    let a = find_char(v, from, '\\');
    if a == v.len() {
        return a;
    }
    let b = find_char(v, a + 1, '\\');
    assert(v@.skip(from as int).skip(a - from + 1) =~= v@.skip(a + 1));
    if b == a + 1 {
        a
    } else {
        b
    }
}

fn prefix_end(v: &Vec<char>) -> (res: usize)
    ensures
        res == prefix_len(v@),
        res <= v.len(),
{
    assert(v@.skip(0) =~= v@);
    if v.len() >= 4 && v[0] == '\\' && v[1] == '\\' && v[2] == '?' && v[3] == '\\' {
        if v.len() >= 8 && v[4] == 'U' && v[5] == 'N' && v[6] == 'C' && (v[7] == '\\' || v[7] == '/') {
            share_at(v, 8)
        } else if drive_at(v, 4) && (v.len() == 6 || v[6] == '\\' || v[6] == '/') {
            6
        } else {
            find_char(v, 4, '\\')
        }
    } else if v.len() >= 2 && v[0] == '\\' && v[1] == '\\' {
        if v.len() >= 4 && v[2] == '.' && v[3] == '\\' {
            find_char(v, 4, '\\')
        } else {
            let a = find_char(v, 2, '\\');
            let b = share_at(v, 2);
            if 2 < a && a < b {
                b
            } else {
                0
            }
        }
    } else if drive_at(v, 0) {
        2
    } else {
        0
    }
}

/// Says whether a path begins with a prefix.
pub fn is_prefixed(windows: bool, path: &str) -> (res: bool)
    ensures
        res == has_prefix(windows, path@),
{
    windows && prefix_end(&unify(path)) > 0
}

fn as_capital(c: char) -> (res: char)
    ensures
        res == capital(c),
{
    if 'a' <= c && c <= 'z' {
        ((c as u8) - 32) as char
    } else {
        c
    }
}

fn write_prefix(v: &Vec<char>, k: usize) -> (res: String)
    requires
        k <= v.len(),
    ensures
        res@ == prefix_part(v@.take(k as int)),
{
    let mut p: Vec<char> = Vec::new();
    let mut i: usize = 0;
    while i < k
        invariant
            i <= k <= v.len(),
            p@ == v@.take(i as int),
        decreases k - i,
    {
        p.push(v[i]);
        i += 1;
        assert(p@ =~= v@.take(i as int));
    }
    assert(p@.skip(0) =~= p@);
    if p.len() == 6 && p[0] == '\\' && p[1] == '\\' && p[2] == '?' && p[3] == '\\' && drive_at(
        &p,
        4,
    ) {
        let c = as_capital(p[4]);
        p.set(4, c);
    } else if drive_at(&p, 0) {
        let c = as_capital(p[0]);
        p.set(0, c);
    }
    let res = from_range(&p, 0, p.len());
    assert(res@ =~= p@);
    res
}

/// Writes what a prefix is ordered by.
pub fn write_prefix_key(p: &str) -> (res: String)
    ensures
        res@ == prefix_key(p@),
{
    let v = to_chars(p);
    assert(v@.skip(0) =~= v@);
    let mut out = if v.len() >= 4 && v[0] == '\\' && v[1] == '\\' && v[2] == '?' && v[3] == '\\' {
        if v.len() >= 8 && v[4] == 'U' && v[5] == 'N' && v[6] == 'C' && (v[7] == '\\' || v[7] == '/') {
            String::from_str("\0\u{2}")
        } else if v.len() == 6 && drive_at(&v, 4) {
            String::from_str("\0\u{3}")
        } else {
            String::from_str("\0\u{1}")
        }
    } else if drive_at(&v, 0) {
        String::from_str("\0\u{6}")
    } else if v.len() >= 4 && v[2] == '.' && v[3] == '\\' {
        String::from_str("\0\u{4}")
    } else {
        String::from_str("\0\u{5}")
    };
    out.append(replace_char(p, '\\', "\0").as_str());
    out.append("\0");
    out
}

fn keep_pieces(pieces: &Vec<String>, dots: bool) -> (res: Vec<String>)
    ensures
        texts(res@) == (if dots {
            filled(texts(pieces@))
        } else {
            named(texts(pieces@))
        }),
{
    let ghost all = texts(pieces@);
    let mut out: Vec<String> = Vec::new();
    let mut i: usize = 0;
    assert(all.take(0) =~= Seq::empty());
    assert(texts(out@) =~= Seq::empty());
    while i < pieces.len()
        invariant
            i <= pieces.len(),
            all == texts(pieces@),
            texts(out@) == (if dots {
                filled(all.take(i as int))
            } else {
                named(all.take(i as int))
            }),
        decreases pieces.len() - i,
    {
        proof {
            assert(all.take(i + 1).drop_last() =~= all.take(i as int));
            assert(all.take(i + 1).last() == pieces@[i as int]@);
        }
        if !pieces[i].as_str().is_empty() && (dots || !str_eq(pieces[i].as_str(), ".")) {
            out.push(pieces[i].clone());
        }
        i += 1;
    }
    assert(all.take(pieces.len() as int) =~= all);
    out
}

fn write_behind(v: &Vec<char>, k: usize) -> (res: Vec<String>)
    requires
        k <= v.len(),
    ensures
        texts(res@) == behind_prefix(v@, k as int),
{
    let rooted = k < v.len() && (v[k] == '\\' || v[k] == '/');
    let body = from_range(
        v,
        if rooted {
            k + 1
        } else {
            k
        },
        v.len(),
    );
    assert(body@ =~= if rooted {
        v@.skip(k as int).skip(1)
    } else {
        v@.skip(k as int)
    });
    assert(v@.skip(0) =~= v@);
    let pieces = crate::text::split_char(body.as_str(), '\\');
    let literal = v.len() >= 4 && v[0] == '\\' && v[1] == '\\' && v[2] == '?' && v[3] == '\\';
    let mut names = keep_pieces(&pieces, literal);
    let ghost kept = texts(names@);
    if rooted || !(drive_at(v, 0) || literal) {
        let mut out: Vec<String> = Vec::new();
        out.push("\\".to_owned());
        assert(texts(out@) =~= seq!["\\"@]);
        out.append(&mut names);
        assert(texts(out@) =~= seq!["\\"@] + kept);
        out
    } else {
        names
    }
}

/// Splits a path into its components.
pub fn components(windows: bool, path: &str) -> (res: Vec<String>)
    ensures
        texts(res@) == components_of(windows, path@),
{
    if !windows {
        return parts(path, '/');
    }
    let v = unify(path);
    let k = prefix_end(&v);
    if k > 0 {
        let mut out: Vec<String> = Vec::new();
        out.push(write_prefix(&v, k));
        let ghost head = texts(out@);
        let mut rest = write_behind(&v, k);
        let ghost tail = texts(rest@);
        assert(head =~= seq![prefix_part(v@.take(k as int))]);
        out.append(&mut rest);
        assert(texts(out@) =~= head + tail);
        out
    } else {
        let s = from_range(&v, 0, v.len());
        assert(s@ =~= v@);
        parts(s.as_str(), '\\')
    }
}

/// Names after going on by some components: `.` stays, and `..` takes back the last
/// name.
pub open spec fn settled(names: Seq<Seq<char>>, parts: Seq<Seq<char>>) -> Seq<Seq<char>>
    decreases parts.len(),
{
    if parts.len() == 0 {
        names
    } else {
        let before = settled(names, parts.drop_last());
        let c = parts.last();
        if c == "."@ {
            before
        } else if c == ".."@ {
            if before.len() > 0 && before.last() != ".."@ && before.last() != "."@ {
                before.drop_last()
            } else {
                before
            }
        } else {
            before.push(c)
        }
    }
}

/// A path that is joined to one that Windows takes literally: without `.` and `..`.
pub open spec fn joined_literally(base: Seq<char>, rel: Seq<char>) -> Seq<char> {
    let k = prefix_len(base);
    let own = behind_prefix(base, k);
    let more = parts_of(unified(rel), '\\');
    let base_rooted = own.len() > 0 && own[0] == "\\"@;
    let rel_rooted = more.len() > 0 && more[0] == "\\"@;
    let start = if rel_rooted {
        Seq::empty()
    } else if base_rooted {
        own.skip(1)
    } else {
        own
    };
    let names = settled(
        start,
        if rel_rooted {
            more.skip(1)
        } else {
            more
        },
    );
    base.take(k) + (if base_rooted || rel_rooted || names.len() > 0 {
        "\\"@
    } else {
        ""@
    }) + joined(names, "\\"@)
}

/// `rel` as seen from `base` on Windows: one with a prefix stands for itself, and one
/// with a root only keeps the prefix of the base.
pub open spec fn joined_by_backslash(base: Seq<char>, rel: Seq<char>) -> Seq<char> {
    let s = unified(base);
    let r = unified(rel);
    if prefix_len(r) > 0 {
        rel
    } else if is_verbatim(base) && rel.len() > 0 {
        joined_literally(base, rel)
    } else if r.len() > 0 && r[0] == '\\' {
        base.take(prefix_len(s)) + rel
    } else if s.len() == 0 || is_sep(s.last()) || (has_drive(s) && s.len() == 2) {
        base + rel
    } else {
        base + "\\"@ + rel
    }
}

/// `rel` as seen from `base`: an absolute `rel` stands for itself.
pub open spec fn joined_path(windows: bool, base: Seq<char>, rel: Seq<char>) -> Seq<char> {
    if windows {
        joined_by_backslash(base, rel)
    } else {
        joined_by_slash(base, rel)
    }
}

fn settle(names: Vec<String>, parts: &Vec<String>, from: usize) -> (res: Vec<String>)
    requires
        from <= parts.len(),
    ensures
        texts(res@) == settled(texts(names@), texts(parts@).skip(from as int)),
{
    let mut out = names;
    let ghost start = texts(out@);
    let ghost all = texts(parts@).skip(from as int);
    let mut i: usize = from;
    assert(all.take(0) =~= Seq::empty());
    while i < parts.len()
        invariant
            from <= i <= parts.len(),
            all == texts(parts@).skip(from as int),
            texts(out@) == settled(start, all.take(i - from)),
        decreases parts.len() - i,
    {
        proof {
            assert(all.take(i - from + 1).drop_last() =~= all.take(i - from));
            assert(all.take(i - from + 1).last() == parts@[i as int]@);
        }
        let c = parts[i].as_str();
        if str_eq(c, ".") {
        } else if str_eq(c, "..") {
            let n = out.len();
            let ghost before = texts(out@);
            assert(n > 0 ==> before.last() == out@[n - 1]@);
            if n > 0 && !str_eq(out[n - 1].as_str(), "..") && !str_eq(out[n - 1].as_str(), ".") {
                out.pop();
                assert(texts(out@) =~= before.drop_last());
            }
        } else {
            out.push(parts[i].clone());
        }
        i += 1;
    }
    assert(all.take(parts.len() - from) =~= all);
    out
}

fn join_literally(base: &str, rel: &str) -> (res: String)
    requires
        is_verbatim(base@),
    ensures
        res@ == joined_literally(base@, rel@),
{
    let v = to_chars(base);
    let k = prefix_end(&v);
    let own = write_behind(&v, k);
    let r = unify(rel);
    let unified_rel = from_range(&r, 0, r.len());
    assert(unified_rel@ =~= r@);
    let more = parts(unified_rel.as_str(), '\\');
    let ghost o = texts(own@);
    let ghost m = texts(more@);
    assert(own@.len() > 0 ==> o[0] == own@[0]@);
    assert(more@.len() > 0 ==> m[0] == more@[0]@);
    let base_rooted = own.len() > 0 && str_eq(own[0].as_str(), "\\");
    let rel_rooted = more.len() > 0 && str_eq(more[0].as_str(), "\\");
    let start: Vec<String> = if rel_rooted {
        Vec::new()
    } else if base_rooted {
        slice_from(&own, 1)
    } else {
        slice_from(&own, 0)
    };
    proof {
        assert(o.skip(0) =~= o);
        assert(m.skip(0) =~= m);
        if rel_rooted {
            assert(texts(start@) =~= Seq::empty());
        }
    }
    let names = settle(
        start,
        &more,
        if rel_rooted {
            1
        } else {
            0
        },
    );
    let mut out = from_range(&v, 0, k);
    assert(out@ =~= base@.take(k as int));
    if base_rooted || rel_rooted || names.len() > 0 {
        out.append("\\");
    } else {
        out.append("");
    }
    out.append(join(names.as_slice(), "\\").as_str());
    out
}

fn join_by_backslash(base: &str, rel: &str) -> (res: String)
    ensures
        res@ == joined_by_backslash(base@, rel@),
{
    let b = to_chars(base);
    let s = unify(base);
    let r = unify(rel);
    assert(s@.skip(0) =~= s@);
    if prefix_end(&r) > 0 {
        return rel.to_owned();
    }
    let literal = b.len() >= 4 && b[0] == '\\' && b[1] == '\\' && b[2] == '?' && b[3] == '\\';
    if literal && r.len() > 0 {
        return join_literally(base, rel);
    }
    if r.len() > 0 && r[0] == '\\' {
        let k = prefix_end(&s);
        let mut out = from_range(&b, 0, k);
        assert(out@ =~= base@.take(k as int));
        out.append(rel);
        return out;
    }
    let mut out = base.to_owned();
    if !(s.len() == 0 || s[s.len() - 1] == '\\' || s[s.len() - 1] == '/' || (drive_at(&s, 0) && s.len() == 2)) {
        out.append("\\");
    }
    out.append(rel);
    out
}

fn join_by_slash(base: &str, rel: &str) -> (res: String)
    ensures
        res@ == joined_by_slash(base@, rel@),
{
    let b = to_chars(base);
    let r = to_chars(rel);
    if r.len() > 0 && r[0] == '/' {
        return rel.to_owned();
    }
    let mut out = base.to_owned();
    if b.len() > 0 && b[b.len() - 1] != '/' {
        out.append("/");
    }
    out.append(rel);
    out
}

/// Joins a path to a base directory.
pub fn path_join(windows: bool, base: &str, rel: &str) -> (res: String)
    ensures
        res@ == joined_path(windows, base@, rel@),
{
    if windows {
        join_by_backslash(base, rel)
    } else {
        join_by_slash(base, rel)
    }
}

/// The last component of a path, unless it ends in `..` or names no file.
pub open spec fn file_name_of(windows: bool, path: Seq<char>) -> Option<Seq<char>> {
    let c = components_of(windows, path);
    if c.len() == 0 || c.last() == ".."@ || c.last() == "."@ || c.last() == root_part(windows) || (
    c.len() == 1 && has_prefix(windows, path)) {
        None
    } else {
        Some(c.last())
    }
}

/// The file name that a path ends in.
pub fn file_name(windows: bool, path: &str) -> (res: Option<String>)
    ensures
        match res {
            Some(name) => file_name_of(windows, path@) == Some(name@),
            None => file_name_of(windows, path@) is None,
        },
{
    let c = components(windows, path);
    if c.len() == 0 {
        return None;
    }
    let last = c[c.len() - 1].as_str();
    assert(components_of(windows, path@).last() == last@);
    let root = if windows { "\\" } else { "/" };
    if str_eq(last, "..") || str_eq(last, ".") || str_eq(last, root) || (c.len() == 1
        && is_prefixed(windows, path)) {
        None
    } else {
        Some(last.to_owned())
    }
}

/// Whether one list begins with another.
pub open spec fn begins(v: Seq<Seq<char>>, p: Seq<Seq<char>>) -> bool {
    p.len() <= v.len() && v.take(p.len() as int) == p
}

/// A file as seen from the root of a suite, with slashes; none where it lies
/// outside.
pub open spec fn below_root(
    windows: bool,
    path: Seq<char>,
    rootdir: Seq<char>,
) -> Option<Seq<char>> {
    let c = components_of(windows, path);
    let r = components_of(windows, rootdir);
    if begins(c, r) {
        Some(joined(c.skip(r.len() as int), "/"@))
    } else {
        None
    }
}

/// Counts the same texts that two lists begin with.
pub fn same_text_count(a: &Vec<String>, b: &Vec<String>) -> (res: usize)
    ensures
        res == common(texts(a@), texts(b@)),
        res <= a@.len(),
        res <= b@.len(),
{
    let ghost x = texts(a@);
    let ghost y = texts(b@);
    let mut i: usize = 0;
    assert(x.skip(0) =~= x && y.skip(0) =~= y);
    while i < a.len() && i < b.len() && str_eq(a[i].as_str(), b[i].as_str())
        invariant
            i <= a.len(),
            i <= b.len(),
            x == texts(a@),
            y == texts(b@),
            i + common(x.skip(i as int), y.skip(i as int)) == common(x, y),
        decreases a.len() - i,
    {
        proof {
            assert(x.skip(i as int)[0] == a@[i as int]@);
            assert(y.skip(i as int)[0] == b@[i as int]@);
            assert(x.skip(i as int).skip(1) =~= x.skip(i + 1));
            assert(y.skip(i as int).skip(1) =~= y.skip(i + 1));
        }
        i += 1;
    }
    proof {
        if i < a.len() && i < b.len() {
            assert(x.skip(i as int)[0] == a@[i as int]@);
            assert(y.skip(i as int)[0] == b@[i as int]@);
        }
    }
    i
}

/// With how many same texts two lists begin.
pub open spec fn common(a: Seq<Seq<char>>, b: Seq<Seq<char>>) -> nat
    decreases a.len(),
{
    if a.len() == 0 || b.len() == 0 || a[0] != b[0] {
        0
    } else {
        1 + common(a.skip(1), b.skip(1))
    }
}

/// What the number of same texts says.
pub proof fn lemma_common(a: Seq<Seq<char>>, b: Seq<Seq<char>>)
    ensures
        common(a, b) <= a.len(),
        common(a, b) <= b.len(),
        common(a, b) == b.len() <==> begins(a, b),
    decreases a.len(),
{
    if !(a.len() == 0 || b.len() == 0 || a[0] != b[0]) {
        lemma_common(a.skip(1), b.skip(1));
        if begins(a.skip(1), b.skip(1)) {
            let n = b.len() as int;
            assert forall|i: int| 0 <= i < n implies a.take(n)[i] == b[i] by {
                if i > 0 {
                    assert(a.skip(1).take(n - 1)[i - 1] == b.skip(1)[i - 1]);
                }
            }
            assert(a.take(n) =~= b);
        }
        if begins(a, b) {
            let n = b.len() as int;
            assert(a.skip(1).take(n - 1) =~= a.take(n).skip(1));
        }
    } else {
        if b.len() == 0 {
            assert(a.take(0) =~= b);
        } else if begins(a, b) {
            assert(a.take(b.len() as int)[0] == b[0]);
        }
    }
}

/// The end of a list, from a position on.
pub fn slice_from(v: &Vec<String>, from: usize) -> (res: Vec<String>)
    requires
        from <= v@.len(),
    ensures
        texts(res@) == texts(v@).skip(from as int),
{
    let mut out: Vec<String> = Vec::new();
    let mut i: usize = from;
    assert(texts(out@) =~= texts(v@).subrange(from as int, from as int));
    while i < v.len()
        invariant
            from <= i <= v@.len(),
            texts(out@) == texts(v@).subrange(from as int, i as int),
        decreases v.len() - i,
    {
        let ghost before = texts(out@);
        out.push(v[i].clone());
        i += 1;
        assert(texts(v@).subrange(from as int, i as int) =~= before.push(v@[i - 1]@));
    }
    assert(texts(v@).subrange(from as int, v@.len() as int) =~= texts(v@).skip(from as int));
    out
}

/// Sees a file from a directory, with slashes; nothing comes back where it lies outside.
pub fn relative_to(windows: bool, path: &str, rootdir: &str) -> (res: Option<String>)
    ensures
        crate::text::opt_text(res) == below_root(windows, path@, rootdir@),
{
    let c = components(windows, path);
    let r = components(windows, rootdir);
    let n = same_text_count(&c, &r);
    proof {
        lemma_common(texts(c@), texts(r@));
    }
    if n == r.len() {
        let rel = slice_from(&c, n);
        Some(join(rel.as_slice(), "/"))
    } else {
        None
    }
}

/// Whether two texts write the same path: one with the same components.
pub open spec fn same_path(windows: bool, a: Seq<char>, b: Seq<char>) -> bool {
    components_of(windows, a) == components_of(windows, b)
}

/// Says whether two texts write the same path.
pub fn is_same_path(windows: bool, a: &str, b: &str) -> (res: bool)
    ensures
        res == same_path(windows, a@, b@),
{
    let c = components(windows, a);
    let d = components(windows, b);
    let n = same_text_count(&c, &d);
    proof {
        let x = components_of(windows, a@);
        let y = components_of(windows, b@);
        lemma_common(x, y);
        assert(x.take(x.len() as int) =~= x);
    }
    c.len() == d.len() && n == d.len()
}

/// How many of the components of a path are its prefix and its root, which no
/// directory lies above.
pub open spec fn stem_len(windows: bool, path: Seq<char>) -> nat {
    let c = components_of(windows, path);
    let p: nat = if has_prefix(windows, path) {
        1
    } else {
        0
    };
    if p < c.len() && c[p as int] == root_part(windows) {
        p + 1
    } else {
        p
    }
}

/// Where some names lead, one after the other.
pub open spec fn reached(windows: bool, base: Seq<char>, names: Seq<Seq<char>>) -> Seq<char>
    decreases names.len(),
{
    if names.len() == 0 {
        base
    } else {
        joined_path(windows, reached(windows, base, names.drop_last()), names.last())
    }
}

/// How many components the outermost directory has that lies between a directory and
/// a file below it.
pub open spec fn outermost(windows: bool, rootdir: Seq<char>, file: Seq<char>) -> nat {
    let r = components_of(windows, rootdir).len();
    if r + 1 >= stem_len(windows, file) {
        r + 1
    } else {
        stem_len(windows, file)
    }
}

/// The directories that lie between a directory and a file below it, the nearest to
/// the file first. The directory itself is none of them.
pub open spec fn inner_dirs(windows: bool, rootdir: Seq<char>, file: Seq<char>) -> Seq<Seq<char>> {
    let c = components_of(windows, file);
    let r = components_of(windows, rootdir);
    let k = outermost(windows, rootdir, file);
    if begins(c, r) && k < c.len() {
        Seq::new(
            (c.len() - k) as nat,
            |i: int| reached(windows, rootdir, c.subrange(r.len() as int, c.len() - 1 - i)),
        )
    } else {
        Seq::empty()
    }
}

fn stem(windows: bool, path: &str, c: &Vec<String>) -> (res: usize)
    requires
        texts(c@) == components_of(windows, path@),
    ensures
        res == stem_len(windows, path@),
        res <= 2,
{
    let p: usize = if is_prefixed(windows, path) {
        1
    } else {
        0
    };
    let root = if windows { "\\" } else { "/" };
    assert(p < c.len() ==> texts(c@)[p as int] == c@[p as int]@);
    if p < c.len() && str_eq(c[p].as_str(), root) {
        p + 1
    } else {
        p
    }
}

/// Lists the directories between a directory and a file below it, the nearest to the
/// file first; none where the file lies elsewhere.
pub fn dirs_between(windows: bool, rootdir: &str, file: &str) -> (res: Vec<String>)
    ensures
        texts(res@) == inner_dirs(windows, rootdir@, file@),
{
    let c = components(windows, file);
    let r = components(windows, rootdir);
    let ghost cs = components_of(windows, file@);
    let ghost want = inner_dirs(windows, rootdir@, file@);
    let n = same_text_count(&c, &r);
    proof {
        lemma_common(cs, texts(r@));
    }
    let mut out: Vec<String> = Vec::new();
    let low = stem(windows, file, &c);
    if n < r.len() || r.len() == c.len() {
        assert(texts(out@) =~= want);
        return out;
    }
    let first = r.len();
    let k: usize = if first + 1 >= low {
        first + 1
    } else {
        low
    };
    if k >= c.len() {
        assert(texts(out@) =~= want);
        return out;
    }
    let mut dirs: Vec<String> = Vec::new();
    let mut cur = rootdir.to_owned();
    let mut j: usize = first;
    assert(cs.subrange(first as int, first as int) =~= Seq::empty());
    while j < c.len() - 1
        invariant
            first <= j <= c.len() - 1,
            texts(c@) == cs,
            dirs.len() == j - first,
            cur@ == reached(windows, rootdir@, cs.subrange(first as int, j as int)),
            forall|i: int|
                0 <= i < dirs.len() ==> (#[trigger] dirs@[i])@ == reached(
                    windows,
                    rootdir@,
                    cs.subrange(first as int, first + i + 1),
                ),
        decreases c.len() - j,
    {
        proof {
            let more = cs.subrange(first as int, j + 1);
            assert(more.drop_last() =~= cs.subrange(first as int, j as int));
            assert(more.last() == c@[j as int]@);
        }
        cur = path_join(windows, cur.as_str(), c[j].as_str());
        dirs.push(cur.clone());
        j += 1;
    }
    let mut at: usize = c.len() - 1;
    while at >= k
        invariant
            first < k,
            k - 1 <= at <= c.len() - 1,
            texts(c@) == cs,
            dirs.len() == c.len() - 1 - first,
            want.len() == c.len() - k,
            forall|i: int|
                0 <= i < dirs.len() ==> (#[trigger] dirs@[i])@ == reached(
                    windows,
                    rootdir@,
                    cs.subrange(first as int, first + i + 1),
                ),
            forall|i: int|
                0 <= i < want.len() ==> #[trigger] want[i] == reached(
                    windows,
                    rootdir@,
                    cs.subrange(first as int, cs.len() - 1 - i),
                ),
            texts(out@) == want.take(c.len() - 1 - at),
        decreases at,
    {
        let ghost i = c.len() - 1 - at;
        out.push(dirs[at - 1 - first].clone());
        assert(texts(out@) =~= want.take(i + 1)) by {
            assert(want[i] == dirs@[at - 1 - first]@);
        }
        at -= 1;
    }
    assert(want.take(c.len() - k) =~= want);
    out
}

/// The components of a path in which only `/` separates.
spec fn by_slash(path: Seq<char>) -> Seq<Seq<char>> {
    parts_of(path, '/')
}

/// Whether a text is the name of a file or a directory and nothing more.
pub open spec fn plain_name(s: Seq<char>) -> bool {
    &&& s.len() > 0
    &&& s != "."@
    &&& s != ".."@
    &&& forall|i: int| 0 <= i < s.len() ==> s[i] != '/' && s[i] != '\\' && s[i] != ':'
}

/// A name that is joined to a path stands at its end, behind what does not depend on
/// the name.
pub proof fn lemma_joined_name(windows: bool, base: Seq<char>, name: Seq<char>)
    requires
        plain_name(name),
    ensures
        joined_path(windows, base, name) == joined_path(windows, base, "x"@).drop_last() + name,
{
    reveal_strlit("x");
    reveal_strlit(".");
    reveal_strlit("..");
    let x = "x"@;
    assert(x[0] == 'x' && "."@[0] == '.' && ".."@.len() == 2);
    assert(plain_name(x));
    if !windows {
        assert(joined_path(windows, base, name) =~= joined_path(windows, base, x).drop_last() + name);
    } else {
        lemma_name_is_its_part(name);
        lemma_name_is_its_part(x);
        if is_verbatim(base) {
            let own = behind_prefix(base, prefix_len(base));
            let base_rooted = own.len() > 0 && own[0] == "\\"@;
            let start = if base_rooted {
                own.skip(1)
            } else {
                own
            };
            reveal_strlit("\\");
            lemma_settled_name(start, name);
            lemma_settled_name(start, x);
            if start.len() > 0 {
                assert(start.push(name).drop_last() =~= start);
                assert(start.push(x).drop_last() =~= start);
            }
        }
        assert(joined_path(windows, base, name) =~= joined_path(windows, base, x).drop_last() + name);
    }
}

proof fn lemma_settled_name(start: Seq<Seq<char>>, name: Seq<char>)
    requires
        plain_name(name),
    ensures
        settled(start, seq![name]) == start.push(name),
{
    assert(seq![name].drop_last() =~= Seq::empty());
    reveal_with_fuel(settled, 2);
}

proof fn lemma_name_is_its_part(name: Seq<char>)
    requires
        plain_name(name),
    ensures
        unified(name) == name,
        prefix_len(name) == 0,
        parts_of(name, '\\') == seq![name],
        name != "\\"@,
{
    reveal_strlit("\\");
    assert(unified(name) =~= name);
    crate::text::lemma_pos_is(name, '\\', name.len() as int);
    assert(split_on(name, '\\') =~= seq![name]);
    assert(seq![name].drop_last() =~= Seq::empty());
    reveal_with_fuel(named, 2);
    assert(named(seq![name]) =~= seq![name]);
    if name.len() >= 2 {
        assert(name[1] != ':');
    }
}

proof fn lemma_named_add(a: Seq<Seq<char>>, b: Seq<Seq<char>>)
    ensures
        named(a + b) == named(a) + named(b),
    decreases b.len(),
{
    if b.len() == 0 {
        assert(a + b =~= a);
        assert(named(a) + named(b) =~= named(a));
    } else {
        lemma_named_add(a, b.drop_last());
        assert((a + b).drop_last() =~= a + b.drop_last());
        assert(named(a + b) =~= named(a) + named(b));
    }
}

/// Whether a text is the name of something: neither empty nor `.`, and without
/// slashes.
spec fn is_name(s: Seq<char>) -> bool {
    s.len() > 0 && s != "."@ && !s.contains('/')
}

proof fn lemma_named_are_names(v: Seq<Seq<char>>)
    requires
        forall|i: int| 0 <= i < v.len() ==> !(#[trigger] v[i]).contains('/'),
    ensures
        forall|i: int| 0 <= i < named(v).len() ==> is_name(#[trigger] named(v)[i]),
    decreases v.len(),
{
    if v.len() > 0 {
        let init = v.drop_last();
        assert forall|i: int| 0 <= i < init.len() implies !(#[trigger] init[i]).contains('/') by {
            assert(init[i] == v[i]);
        }
        lemma_named_are_names(init);
        assert(!v[v.len() - 1].contains('/'));
        assert forall|i: int| 0 <= i < named(v).len() implies is_name(#[trigger] named(v)[i]) by {
            if i < named(init).len() {
                assert(named(v)[i] == named(init)[i]);
            }
        }
    }
}

proof fn lemma_names_are_named(v: Seq<Seq<char>>)
    requires
        forall|i: int| 0 <= i < v.len() ==> is_name(#[trigger] v[i]),
    ensures
        named(v) == v,
    decreases v.len(),
{
    if v.len() > 0 {
        let init = v.drop_last();
        assert forall|i: int| 0 <= i < init.len() implies is_name(#[trigger] init[i]) by {
            assert(init[i] == v[i]);
        }
        lemma_names_are_named(init);
        assert(is_name(v[v.len() - 1]));
        assert(named(v) =~= v);
    }
}

proof fn lemma_pieces_have_no_slash(s: Seq<char>)
    ensures
        split_on(s, '/').len() > 0,
        forall|i: int| 0 <= i < split_on(s, '/').len() ==> !(#[trigger] split_on(s, '/')[i]).contains('/'),
    decreases s.len(),
{
    let p = pos(s, '/');
    lemma_pos(s, '/');
    if p < s.len() {
        lemma_pieces_have_no_slash(s.skip(p + 1));
        let rest = split_on(s.skip(p + 1), '/');
        assert forall|i: int| 0 <= i < split_on(s, '/').len() implies !(#[trigger] split_on(
            s,
            '/',
        )[i]).contains('/') by {
            if i > 0 {
                assert(split_on(s, '/')[i] == rest[i - 1]);
            } else if s.take(p).contains('/') {
                let j = choose|j: int| 0 <= j < p && s.take(p)[j] == '/';
                assert(s[j] != '/');
            }
        }
    } else if s.contains('/') {
        let j = choose|j: int| 0 <= j < s.len() && s[j] == '/';
        assert(s[j] != '/');
    }
}

/// All components but the first are names.
proof fn lemma_components_are_names(path: Seq<char>)
    ensures
        forall|i: int| 0 < i < by_slash(path).len() ==> is_name(#[trigger] by_slash(path)[i]),
{
    let pieces = split_on(path, '/');
    lemma_pieces_have_no_slash(path);
    let tail = pieces.skip(1);
    assert forall|i: int| 0 <= i < tail.len() implies !(#[trigger] tail[i]).contains('/') by {
        assert(tail[i] == pieces[i + 1]);
    }
    lemma_named_are_names(pieces);
    lemma_named_are_names(tail);
}

/// What comes behind a slash is added to the components.
proof fn lemma_components_behind(base: Seq<char>, rel: Seq<char>)
    requires
        base.len() > 0,
    ensures
        by_slash(base + seq!['/'] + rel) == by_slash(base) + named(split_on(rel, '/')),
{
    let path = base + seq!['/'] + rel;
    let a = split_on(base, '/');
    let b = split_on(rel, '/');
    lemma_split_two(base, '/', rel);
    lemma_pieces_have_no_slash(base);
    assert(path[0] == base[0]);
    assert((a + b)[0] == a[0]);
    assert((a + b).skip(1) =~= a.skip(1) + b);
    lemma_named_add(a, b);
    lemma_named_add(a.skip(1), b);
    if base[0] == '/' {
        assert(by_slash(path) =~= by_slash(base) + named(b));
    } else if a[0] == "."@ {
        assert(by_slash(path) =~= by_slash(base) + named(b));
    }
}

/// What comes behind a closing slash is added to the components.
proof fn lemma_components_behind_slash(base: Seq<char>, rel: Seq<char>)
    ensures
        by_slash(base + seq!['/'] + rel) == by_slash(base + seq!['/']) + named(
            split_on(rel, '/'),
        ),
{
    let none = Seq::<char>::empty();
    assert(base + seq!['/'] + none =~= base + seq!['/']);
    assert(split_on(none, '/') =~= seq![none]);
    assert(named(split_on(none, '/')) =~= Seq::empty()) by {
        reveal_with_fuel(named, 2);
    }
    if base.len() > 0 {
        lemma_components_behind(base, rel);
        lemma_components_behind(base, none);
        assert(by_slash(base) + Seq::<Seq<char>>::empty() =~= by_slash(base));
    } else {
        lemma_split_two(base, '/', rel);
        lemma_split_two(base, '/', none);
        assert(split_on(base, '/') =~= seq![base]);
        assert((seq![base] + split_on(rel, '/')).skip(1) =~= split_on(rel, '/'));
        assert((seq![base] + split_on(none, '/')).skip(1) =~= split_on(none, '/'));
        assert(seq!["/"@] + Seq::<Seq<char>>::empty() =~= seq!["/"@]);
    }
}

/// A path that is not empty has components.
proof fn lemma_root_has_components(path: Seq<char>)
    requires
        path.len() > 0,
    ensures
        by_slash(path).len() > 0,
{
    let pieces = split_on(path, '/');
    lemma_pos(path, '/');
    if path[0] != '/' && pieces[0] != "."@ {
        let first = seq![pieces[0]];
        assert(pieces =~= first + pieces.skip(1));
        lemma_named_add(first, pieces.skip(1));
        assert(first.drop_last() =~= Seq::empty());
        assert(pieces[0].len() > 0);
    }
}

/// Where only `/` separates, a file is found again below the directory from which it
/// was seen: its path from there, joined to the directory, has the components of the
/// path.
pub proof fn theorem_relative_path_leads_back(path: Seq<char>, rootdir: Seq<char>)
    requires
        rootdir.len() > 0,
    ensures
        below_root(false, path, rootdir) matches Some(rel) ==> components_of(
            false,
            joined_path(false, rootdir, rel),
        ) == components_of(false, path),
{
    if let Some(rel) = below_root(false, path, rootdir) {
        let c = by_slash(path);
        let r = by_slash(rootdir);
        let tail = c.skip(r.len() as int);
        reveal_strlit("/");
        assert("/"@ =~= seq!['/']);
        assert(c =~= r + tail);
        lemma_root_has_components(rootdir);
        lemma_components_are_names(path);
        assert forall|i: int| 0 <= i < tail.len() implies is_name(#[trigger] tail[i]) by {
            assert(tail[i] == c[i + r.len()]);
        }
        lemma_names_are_named(tail);
        if tail.len() > 0 {
            lemma_split_joined(tail, '/');
            if tail.len() > 1 {
                lemma_joined_first(tail, "/"@);
            }
            assert(is_name(tail[0]));
            assert(tail[0].contains(tail[0][0]));
        } else {
            assert(rel =~= Seq::empty());
            assert(split_on(rel, '/') =~= seq![rel]);
            reveal_with_fuel(named, 2);
        }
        assert(named(split_on(rel, '/')) =~= tail);
        if rootdir.last() == '/' {
            let base = rootdir.drop_last();
            assert(joined_by_slash(rootdir, rel) =~= base + seq!['/'] + rel);
            assert(rootdir =~= base + seq!['/']);
            lemma_components_behind_slash(base, rel);
        } else {
            lemma_components_behind(rootdir, rel);
        }
    }
}

/// Where only `/` separates, a name that is joined to a path is its last component.
proof fn lemma_joined_component(base: Seq<char>, name: Seq<char>)
    requires
        base.len() > 0,
        is_name(name),
    ensures
        by_slash(joined_by_slash(base, name)) == by_slash(base).push(name),
        joined_by_slash(base, name).len() > 0,
{
    reveal_strlit("/");
    assert("/"@ =~= seq!['/']);
    assert(name.contains(name[0]));
    assert forall|i: int| 0 <= i < name.len() implies name[i] != '/' by {
        assert(name.contains(name[i]));
    }
    crate::text::lemma_pos_is(name, '/', name.len() as int);
    assert(split_on(name, '/') =~= seq![name]);
    assert(seq![name].drop_last() =~= Seq::empty());
    reveal_with_fuel(named, 2);
    assert(named(split_on(name, '/')) =~= seq![name]);
    if base.last() == '/' {
        let front = base.drop_last();
        assert(joined_by_slash(base, name) =~= front + seq!['/'] + name);
        assert(base =~= front + seq!['/']);
        lemma_components_behind_slash(front, name);
    } else {
        lemma_components_behind(base, name);
    }
    assert(by_slash(base) + seq![name] =~= by_slash(base).push(name));
}

proof fn lemma_reached_components(base: Seq<char>, names: Seq<Seq<char>>)
    requires
        base.len() > 0,
        forall|i: int| 0 <= i < names.len() ==> is_name(#[trigger] names[i]),
    ensures
        by_slash(reached(false, base, names)) == by_slash(base) + names,
        reached(false, base, names).len() > 0,
    decreases names.len(),
{
    if names.len() == 0 {
        assert(by_slash(base) + names =~= by_slash(base));
    } else {
        let init = names.drop_last();
        assert forall|i: int| 0 <= i < init.len() implies is_name(#[trigger] init[i]) by {
            assert(init[i] == names[i]);
        }
        lemma_reached_components(base, init);
        assert(is_name(names[names.len() - 1]));
        lemma_joined_component(reached(false, base, init), names.last());
        assert((by_slash(base) + init).push(names.last()) =~= by_slash(base) + names);
    }
}

/// Where only `/` separates, the directories between a directory and a file are those
/// above the file, one component shorter each, and each lies below the directory.
pub proof fn theorem_inner_dirs_lie_between(rootdir: Seq<char>, file: Seq<char>, i: int)
    requires
        rootdir.len() > 0,
        0 <= i < inner_dirs(false, rootdir, file).len(),
    ensures
        components_of(false, inner_dirs(false, rootdir, file)[i]) == components_of(
            false,
            file,
        ).take(components_of(false, file).len() - 1 - i),
        begins(
            components_of(false, inner_dirs(false, rootdir, file)[i]),
            components_of(false, rootdir),
        ),
        !same_path(false, inner_dirs(false, rootdir, file)[i], rootdir),
{
    let c = by_slash(file);
    let r = by_slash(rootdir);
    let to = c.len() - 1 - i;
    let names = c.subrange(r.len() as int, to);
    lemma_root_has_components(rootdir);
    lemma_components_are_names(file);
    assert forall|j: int| 0 <= j < names.len() implies is_name(#[trigger] names[j]) by {
        assert(names[j] == c[j + r.len()]);
    }
    lemma_reached_components(rootdir, names);
    assert(r + names =~= c.take(to)) by {
        assert(c.take(r.len() as int) == r);
    }
    assert(c.take(to).take(r.len() as int) =~= r);
}

/// Where only the slash separates, a path that begins with one stands for itself; any other
/// lies below the base, with one slash between them.
pub proof fn theorem_paths_below_a_base(base: Seq<char>, rel: Seq<char>)
    ensures
        rel.len() > 0 && rel[0] == '/' ==> joined_path(false, base, rel) == rel,
        (rel.len() == 0 || rel[0] != '/') && base.len() > 0 && base.last() != '/' ==> joined_path(
            false,
            base,
            rel,
        ) == base + seq!['/'] + rel,
        (rel.len() == 0 || rel[0] != '/') && (base.len() == 0 || base.last() == '/')
            ==> joined_path(false, base, rel) == base + rel,
{
    reveal_strlit("/");
    assert("/"@ =~= seq!['/']);
}

/// Where the backslash separates too, a path with a drive stands for itself, and one that
/// begins with a separator keeps the drive of the base.
pub proof fn theorem_paths_with_a_drive(base: Seq<char>, rel: Seq<char>)
    requires
        !is_verbatim(base),
        !is_verbatim(rel),
    ensures
        has_drive(rel) ==> joined_path(true, base, rel) == rel,
        has_drive(base) && rel.len() > 0 && is_sep(rel[0]) && (rel.len() == 1 || !is_sep(rel[1]))
            ==> joined_path(true, base, rel) == base.take(2) + rel,
        base.len() > 2 && !is_sep(base.last()) && rel.len() > 0 && !is_sep(rel[0]) && !has_drive(
            rel,
        ) ==> joined_path(true, base, rel) == base + seq!['\\'] + rel,
{
    reveal_strlit("\\");
    assert("\\"@ =~= seq!['\\']);
    let s = unified(base);
    let r = unified(rel);
    if rel.len() > 0 {
        assert(r[0] == (if rel[0] == '/' {
            '\\'
        } else {
            rel[0]
        }));
    }
    if rel.len() > 1 {
        assert(r[1] == (if rel[1] == '/' {
            '\\'
        } else {
            rel[1]
        }));
    }
    if has_drive(base) {
        assert(s[0] == base[0] && s[1] == ':');
    }
    if base.len() > 0 {
        assert(s.last() == (if base.last() == '/' {
            '\\'
        } else {
            base.last()
        }));
    }
}

/// Empty parts of a path and those for the directory itself do not count; all others do, in
/// their order.
pub proof fn theorem_parts_that_count(pieces: Seq<Seq<char>>, p: Seq<char>)
    ensures
        named(pieces.push(Seq::empty())) == named(pieces),
        named(pieces.push("."@)) == named(pieces),
        p.len() > 0 && p != "."@ ==> named(pieces.push(p)) == named(pieces).push(p),
        named(Seq::empty()).len() == 0,
{
    assert(pieces.push(Seq::empty()).drop_last() =~= pieces);
    assert(pieces.push("."@).drop_last() =~= pieces);
    assert(pieces.push(p).drop_last() =~= pieces);
}

/// Where only the slash separates, a path has its root first where it begins with a slash, and
/// a name at its end is its last part.
pub proof fn theorem_parts_of_a_path(path: Seq<char>, name: Seq<char>)
    requires
        path.len() > 0,
        path.last() != '/',
        name.len() > 0,
        name != "."@,
        !name.contains('/'),
    ensures
        path[0] == '/' ==> components_of(false, path)[0] == "/"@,
        components_of(false, path + seq!['/'] + name) == components_of(false, path).push(name),
        name != ".."@ ==> file_name_of(false, path + seq!['/'] + name) == Some(name),
{
    reveal_strlit("/");
    reveal_strlit(".");
    assert("/"@ =~= seq!['/']);
    let full = path + seq!['/'] + name;
    lemma_split_last(path, name);
    let a = split_on(path, '/');
    let all = split_on(full, '/');
    assert(all == a.push(name));
    lemma_split_some(path, '/');
    assert(full[0] == path[0]);
    assert(all[0] == a[0]);
    assert(all.skip(1) =~= a.skip(1).push(name));
    theorem_parts_that_count(a.skip(1), name);
    theorem_parts_that_count(a, name);
    if path[0] == '/' {
        assert(components_of(false, full) =~= components_of(false, path).push(name));
    } else if a[0] == "."@ {
        assert(components_of(false, full) =~= components_of(false, path).push(name));
    } else {
        assert(components_of(false, full) =~= components_of(false, path).push(name));
    }
    if name == "/"@ {
        assert(name[0] == '/');
    }
}

proof fn lemma_split_some(s: Seq<char>, c: char)
    ensures
        split_on(s, c).len() > 0,
{
}

proof fn lemma_split_last(a: Seq<char>, b: Seq<char>)
    requires
        !b.contains('/'),
    ensures
        split_on(a + seq!['/'] + b, '/') == split_on(a, '/').push(b),
    decreases a.len(),
{
    crate::text::lemma_pos(a, '/');
    crate::text::lemma_pos_is(b, '/', b.len() as int);
    assert(split_on(b, '/') =~= seq![b]);
    let p = pos(a, '/');
    let s = a + seq!['/'] + b;
    if p >= a.len() {
        if a.contains('/') {
            let k = choose|k: int| 0 <= k < a.len() && a[k] == '/';
            assert(false);
        }
        crate::text::lemma_split_at_first(a, '/', b);
        assert(seq![a] + seq![b] =~= seq![a].push(b));
    } else {
        let head = a.take(p);
        let rest = a.skip(p + 1);
        if head.contains('/') {
            let k = choose|k: int| 0 <= k < head.len() && head[k] == '/';
            assert(a[k] == '/');
        }
        lemma_split_last(rest, b);
        let tail = rest + seq!['/'] + b;
        assert(s =~= head + seq!['/'] + tail);
        crate::text::lemma_split_at_first(head, '/', tail);
        assert(split_on(a, '/') == seq![head] + split_on(rest, '/'));
        assert(seq![head] + split_on(rest, '/').push(b) =~= (seq![head] + split_on(
            rest,
            '/',
        )).push(b));
    }
}

/// A path that ends above or in a directory has no name.
pub proof fn theorem_paths_without_a_name(windows: bool, path: Seq<char>)
    ensures
        components_of(windows, path).len() == 0 ==> file_name_of(windows, path) is None,
        components_of(windows, path).len() > 0 && components_of(windows, path).last() == ".."@
            ==> file_name_of(windows, path) is None,
        components_of(windows, path).len() > 0 && components_of(windows, path).last() == root_part(
            windows,
        ) ==> file_name_of(windows, path) is None,
        file_name_of(windows, path) matches Some(name) ==> name == components_of(
            windows,
            path,
        ).last(),
{
}

/// A path lies below a root where its parts begin with those of the root, and is told by the
/// rest, with slashes.
pub proof fn theorem_paths_below_a_root(
    windows: bool,
    path: Seq<char>,
    root: Seq<char>,
    rest: Seq<Seq<char>>,
)
    ensures
        components_of(windows, path) == components_of(windows, root) + rest ==> below_root(
            windows,
            path,
            root,
        ) == Some(joined(rest, "/"@)),
        below_root(windows, path, root) is Some ==> components_of(windows, path).len()
            >= components_of(windows, root).len() && components_of(windows, path).take(
            components_of(windows, root).len() as int,
        ) == components_of(windows, root),
{
    let c = components_of(windows, path);
    let r = components_of(windows, root);
    if c == r + rest {
        assert(c.take(r.len() as int) =~= r);
        assert(c.skip(r.len() as int) =~= rest);
    }
}

/// A step up takes the last name back, and a step in place changes nothing.
pub proof fn theorem_steps_are_settled(
    names: Seq<Seq<char>>,
    parts: Seq<Seq<char>>,
    name: Seq<char>,
)
    requires
        name != "."@,
        name != ".."@,
    ensures
        settled(names, parts.push(name)) == settled(names, parts).push(name),
        settled(names, parts.push("."@)) == settled(names, parts),
        settled(names, parts.push(name).push(".."@)) == settled(names, parts),
{
    reveal_strlit(".");
    reveal_strlit("..");
    assert("."@.len() == 1);
    assert(".."@.len() == 2);
    assert(parts.push(name).drop_last() =~= parts);
    assert(parts.push("."@).drop_last() =~= parts);
    let up = parts.push(name).push(".."@);
    assert(up.drop_last() =~= parts.push(name));
    assert(up.last() == ".."@);
    let before = settled(names, parts.push(name));
    assert(before.last() == name);
    assert(before.drop_last() =~= settled(names, parts));
}

/// The letter of a drive counts whatever its case.
pub proof fn theorem_drives_whatever_their_case(p: Seq<char>, c: char)
    ensures
        has_drive(p) && !is_verbatim(p) ==> prefix_part(p) == seq![capital(p[0])] + p.skip(1),
        capital('c') == 'C' && capital('z') == 'Z' && capital('a') == 'A',
        'A' <= c <= 'Z' ==> capital(c) == c,
        'a' <= c <= 'z' ==> 'A' <= capital(c) <= 'Z' && capital(c) as u32 + 32 == c as u32,
{
    if has_drive(p) && !is_verbatim(p) {
        assert(prefix_part(p) =~= seq![capital(p[0])] + p.skip(1));
    }
}

} // verus!
