//! Node ids: `path::Class::test[param]`.

use crate::text::{contains_sub, find_str, first_at, from_range, occurs_at, to_chars};
use vstd::prelude::*;

verus! {

/// Where `pat` first occurs in `s`; the length of `s` where it does not.
pub open spec fn sub_pos(s: Seq<char>, pat: Seq<char>) -> int {
    if contains_sub(s, pat) {
        choose|i: int| first_at(s, pat, i)
    } else {
        s.len() as int
    }
}

/// There is one first position.
pub proof fn lemma_sub_pos(s: Seq<char>, pat: Seq<char>, i: int)
    requires
        first_at(s, pat, i),
    ensures
        sub_pos(s, pat) == i,
{
    let j = choose|j: int| first_at(s, pat, j);
    assert(crate::text::occurs_at(s, pat, i));
    assert(first_at(s, pat, j));
    if i < j {
        assert(!crate::text::occurs_at(s, pat, i));
    } else if j < i {
        assert(!crate::text::occurs_at(s, pat, j));
    }
}

/// The test file of a node id: everything before the first `::`.
pub open spec fn file_part(nodeid: Seq<char>) -> Seq<char> {
    nodeid.take(sub_pos(nodeid, "::"@))
}

/// The test file of a node id.
pub fn file_of(nodeid: &str) -> (res: String)
    ensures
        res@ == file_part(nodeid@),
{
    match find_str(nodeid, "::") {
        Some(i) => {
            proof {
                lemma_sub_pos(nodeid@, "::"@, i as int);
            }
            let v = to_chars(nodeid);
            let r = from_range(&v, 0, i);
            assert(r@ =~= nodeid@.take(i as int));
            r
        },
        None => {
            assert(nodeid@.take(nodeid@.len() as int) =~= nodeid@);
            nodeid.to_owned()
        },
    }
}

/// What follows the test file in a node id.
pub open spec fn rest_part(nodeid: Seq<char>) -> Seq<char> {
    nodeid.skip(file_part(nodeid).len() as int)
}

/// What follows the test file in a node id.
pub fn rest_of(nodeid: &str) -> (res: String)
    ensures
        res@ == rest_part(nodeid@),
{
    let v = to_chars(nodeid);
    match find_str(nodeid, "::") {
        Some(i) => {
            proof {
                lemma_sub_pos(nodeid@, "::"@, i as int);
            }
            let r = from_range(&v, i, v.len());
            assert(r@ =~= nodeid@.skip(i as int));
            r
        },
        None => {
            let r = String::new();
            assert(r@ =~= nodeid@.skip(nodeid@.len() as int));
            r
        },
    }
}

/// A node id is its file followed by the rest.
pub proof fn theorem_parts_make_the_whole(nodeid: Seq<char>)
    ensures
        file_part(nodeid) + rest_part(nodeid) == nodeid,
{
    let p = sub_pos(nodeid, "::"@);
    if contains_sub(nodeid, "::"@) {
        let i = choose|i: int| crate::text::occurs_at(nodeid, "::"@, i);
        lemma_first_exists(nodeid, "::"@, i);
    }
    assert(0 <= p <= nodeid.len());
    assert(file_part(nodeid) + rest_part(nodeid) =~= nodeid);
}

/// A text that occurs has a first occurrence.
proof fn lemma_first_exists(s: Seq<char>, pat: Seq<char>, i: int)
    requires
        crate::text::occurs_at(s, pat, i),
    ensures
        first_at(s, pat, sub_pos(s, pat)),
    decreases i,
{
    if first_at(s, pat, i) {
        lemma_sub_pos(s, pat, i);
    } else {
        let j = choose|j: int| 0 <= j < i && crate::text::occurs_at(s, pat, j);
        lemma_first_exists(s, pat, j);
    }
}

/// The site and the parameters of a node id: what stands before the first `[`,
/// and what stands between it and the `]` at the end. A node id without both
/// has no parameters.
pub open spec fn param_split(nodeid: Seq<char>) -> (Seq<char>, Seq<char>) {
    let open = crate::text::pos(nodeid, '[');
    if nodeid.len() > 0 && nodeid.last() == ']' && open < nodeid.len() {
        (nodeid.take(open), nodeid.subrange(open + 1, nodeid.len() - 1))
    } else {
        (nodeid, Seq::empty())
    }
}

/// Splits a node id into its site and its parameters.
pub fn split_param(nodeid: &str) -> (res: (String, String))
    ensures
        (res.0@, res.1@) == param_split(nodeid@),
{
    let v = to_chars(nodeid);
    if v.len() > 0 && v[v.len() - 1] == ']' {
        assert(v@.skip(0) =~= v@);
        let open = crate::text::find_char(&v, 0, '[');
        if open < v.len() {
            let site = from_range(&v, 0, open);
            let param = from_range(&v, open + 1, v.len() - 1);
            assert(site@ =~= nodeid@.take(open as int));
            return (site, param);
        }
    }
    let none = String::new();
    assert(none@ =~= Seq::empty());
    (nodeid.to_owned(), none)
}

/// The file of a test is what stands before the first pair of colons; an id without one
/// is a file.
pub proof fn theorem_file_ends_at_the_first_colons(file: Seq<char>, rest: Seq<char>)
    requires
        !contains_sub(file + ":"@, "::"@),
    ensures
        file_part(file + "::"@ + rest) == file,
        rest_part(file + "::"@ + rest) == "::"@ + rest,
        file_part(file) == file,
{
    reveal_strlit("::");
    reveal_strlit(":");
    let id = file + "::"@ + rest;
    let n = file.len() as int;
    assert(id.subrange(n, n + 2) =~= "::"@);
    assert(occurs_at(id, "::"@, n));
    assert forall|j: int| 0 <= j < n implies !occurs_at(id, "::"@, j) by {
        if occurs_at(id, "::"@, j) {
            let f = file + ":"@;
            assert(f.subrange(j, j + 2) =~= id.subrange(j, j + 2));
            assert(occurs_at(f, "::"@, j));
        }
    }
    assert(first_at(id, "::"@, n));
    lemma_sub_pos(id, "::"@, n);
    assert(id.take(n) =~= file);
    assert(id.skip(n) =~= "::"@ + rest);
    assert forall|j: int| !occurs_at(file, "::"@, j) by {
        if occurs_at(file, "::"@, j) {
            let f = file + ":"@;
            assert(f.subrange(j, j + 2) =~= file.subrange(j, j + 2));
            assert(occurs_at(f, "::"@, j));
        }
    }
    assert(file.take(n) =~= file);
}

/// The parameters of a test stand in brackets at its end, from the first bracket on; a
/// test that does not end in a bracket has none.
pub proof fn theorem_parameters_stand_in_brackets(name: Seq<char>, params: Seq<char>)
    requires
        !name.contains('['),
    ensures
        param_split(name + "["@ + params + "]"@) == (name, params),
        name.len() > 0 && name.last() != ']' ==> param_split(name) == (name, Seq::<char>::empty()),
{
    reveal_strlit("[");
    reveal_strlit("]");
    let id = name + "["@ + params + "]"@;
    let n = name.len() as int;
    assert(id[n] == '[');
    assert forall|i: int| 0 <= i < n implies id[i] != '[' by {
        assert(name.contains(name[i]));
    }
    crate::text::lemma_pos_is(id, '[', n);
    assert(id.last() == ']');
    assert(id.take(n) =~= name);
    assert(id.subrange(n + 1, id.len() - 1) =~= params);
}

} // verus!
