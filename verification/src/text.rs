//! Strings as sequences of characters: the searching, splitting, trimming,
//! number and ordering operations that the rest of the crate is stated over.

use vstd::prelude::*;

verus! {

/// `String::push` appends one character.
pub assume_specification[ String::push ](s: &mut String, c: char)
    ensures
        final(s)@ == old(s)@.push(c),
;

/// The characters of every string of a list.
pub open spec fn texts(v: Seq<String>) -> Seq<Seq<char>> {
    Seq::new(v.len(), |i: int| v[i]@)
}

/// The characters of a string that may be missing.
pub open spec fn opt_text(s: Option<String>) -> Option<Seq<char>> {
    match s {
        Some(t) => Some(t@),
        None => None,
    }
}

/// Pushing a string pushes its characters.
pub broadcast proof fn lemma_texts_push(v: Seq<String>, s: String)
    ensures
        #[trigger] texts(v.push(s)) == texts(v).push(s@),
{
    assert(texts(v.push(s)) =~= texts(v).push(s@));
}

/// `texts` distributes over concatenation.
pub broadcast proof fn lemma_texts_add(a: Seq<String>, b: Seq<String>)
    ensures
        #[trigger] texts(a + b) == texts(a) + texts(b),
{
    assert(texts(a + b) =~= texts(a) + texts(b));
}

/// The characters of a string, as a vector.
pub fn to_chars(s: &str) -> (res: Vec<char>)
    ensures
        res@ == s@,
{
    let mut out: Vec<char> = Vec::new();
    for c in it: s.chars()
        invariant
            out@ == it.seq().take(it.index() as int),
            it.seq() == s@,
    {
        out.push(c);
    }
    out
}

/// The string made of `v[from..to]`.
pub fn from_range(v: &Vec<char>, from: usize, to: usize) -> (res: String)
    requires
        from <= to <= v.len(),
    ensures
        res@ == v@.subrange(from as int, to as int),
{
    let mut out = String::new();
    let mut i: usize = from;
    while i < to
        invariant
            from <= i <= to <= v.len(),
            out@ == v@.subrange(from as int, i as int),
        decreases to - i,
    {
        out.push(v[i]);
        i += 1;
        assert(v@.subrange(from as int, i as int) =~= v@.subrange(from as int, i - 1).push(
            v@[i - 1],
        ));
    }
    out
}

/// Whether two strings hold the same characters.
pub fn str_eq(a: &str, b: &str) -> (res: bool)
    ensures
        res == (a@ == b@),
{
    a.to_owned() == b.to_owned()
}

/// Copies a list of strings.
pub fn clone_texts(v: &[String]) -> (res: Vec<String>)
    ensures
        res@ == v@,
{
    let mut out: Vec<String> = Vec::new();
    let mut i: usize = 0;
    while i < v.len()
        invariant
            0 <= i <= v.len(),
            out@ == v@.take(i as int),
        decreases v.len() - i,
    {
        out.push(v[i].clone());
        i += 1;
    }
    out
}

/// Whether one of `v` holds exactly the characters of `s`.
pub fn contains_text(v: &[String], s: &str) -> (res: bool)
    ensures
        res == texts(v@).contains(s@),
{
    let mut i: usize = 0;
    while i < v.len()
        invariant
            0 <= i <= v.len(),
            forall|j: int| 0 <= j < i ==> texts(v@)[j] != s@,
        decreases v.len() - i,
    {
        if str_eq(v[i].as_str(), s) {
            assert(texts(v@)[i as int] == s@);
            return true;
        }
        i += 1;
    }
    false
}

/// Whether the characters of `pat` stand in `s` from position `i` on.
pub open spec fn occurs_at(s: Seq<char>, pat: Seq<char>, i: int) -> bool {
    0 <= i && i + pat.len() <= s.len() && s.subrange(i, i + pat.len()) == pat
}

/// Whether `pat` occurs somewhere in `s`.
pub open spec fn contains_sub(s: Seq<char>, pat: Seq<char>) -> bool {
    exists|i: int| occurs_at(s, pat, i)
}

/// Whether `i` is the first position at which `pat` occurs in `s`.
pub open spec fn first_at(s: Seq<char>, pat: Seq<char>, i: int) -> bool {
    occurs_at(s, pat, i) && forall|j: int| 0 <= j < i ==> !occurs_at(s, pat, j)
}

/// Whether `v` holds `pat` from position `i` on.
pub fn matches_at(v: &Vec<char>, pat: &Vec<char>, i: usize) -> (res: bool)
    ensures
        res == occurs_at(v@, pat@, i as int),
{
    if i > v.len() || pat.len() > v.len() - i {
        return false;
    }
    let mut k: usize = 0;
    while k < pat.len()
        invariant
            0 <= k <= pat.len(),
            i + pat.len() <= v.len(),
            forall|j: int| 0 <= j < k ==> v@[i + j] == pat@[j],
        decreases pat.len() - k,
    {
        if v[i + k] != pat[k] {
            assert(v@.subrange(i as int, i + pat.len())[k as int] != pat@[k as int]);
            return false;
        }
        k += 1;
    }
    assert(v@.subrange(i as int, i + pat.len()) =~= pat@);
    true
}

/// The first position at which `pat` occurs.
pub fn find_str(s: &str, pat: &str) -> (res: Option<usize>)
    ensures
        match res {
            Some(i) => first_at(s@, pat@, i as int),
            None => !contains_sub(s@, pat@),
        },
{
    let v = to_chars(s);
    let p = to_chars(pat);
    if p.len() > v.len() {
        return None;
    }
    let last: usize = v.len() - p.len();
    let mut i: usize = 0;
    while i <= last
        invariant
            v@ == s@,
            p@ == pat@,
            last == v.len() - p.len(),
            0 <= i <= last + 1,
            forall|j: int| 0 <= j < i ==> !occurs_at(s@, pat@, j),
        decreases last + 1 - i,
    {
        if matches_at(&v, &p, i) {
            return Some(i);
        }
        if i == last {
            return None;
        }
        i += 1;
    }
    None
}

/// Whether `pat` occurs in `s`.
pub fn contains_str(s: &str, pat: &str) -> (res: bool)
    ensures
        res == contains_sub(s@, pat@),
{
    match find_str(s, pat) {
        Some(i) => {
            assert(occurs_at(s@, pat@, i as int));
            true
        },
        None => false,
    }
}

/// Whether `s` starts with `p`.
pub open spec fn starts(s: Seq<char>, p: Seq<char>) -> bool {
    occurs_at(s, p, 0)
}

/// Whether `s` ends with `p`.
pub open spec fn ends(s: Seq<char>, p: Seq<char>) -> bool {
    occurs_at(s, p, s.len() - p.len())
}

/// Whether `s` starts with `p`.
pub fn starts_with(s: &str, p: &str) -> (res: bool)
    ensures
        res == starts(s@, p@),
{
    matches_at(&to_chars(s), &to_chars(p), 0)
}

/// Whether `s` ends with `p`.
pub fn ends_with(s: &str, p: &str) -> (res: bool)
    ensures
        res == ends(s@, p@),
{
    let v = to_chars(s);
    let q = to_chars(p);
    if q.len() > v.len() {
        return false;
    }
    matches_at(&v, &q, v.len() - q.len())
}

/// `s` without the prefix `p`, where it has it.
pub fn strip_prefix(s: &str, p: &str) -> (res: Option<String>)
    ensures
        match res {
            Some(r) => starts(s@, p@) && r@ == s@.skip(p@.len() as int),
            None => !starts(s@, p@),
        },
{
    let v = to_chars(s);
    let q = to_chars(p);
    if matches_at(&v, &q, 0) {
        let r = from_range(&v, q.len(), v.len());
        assert(r@ =~= s@.skip(p@.len() as int));
        Some(r)
    } else {
        None
    }
}

/// Position of the first `c` in `s`; the length of `s` where there is none.
pub open spec fn pos(s: Seq<char>, c: char) -> int
    decreases s.len(),
{
    if s.len() == 0 || s[0] == c {
        0
    } else {
        1 + pos(s.skip(1), c)
    }
}

/// What `pos` says: no `c` before it, and a `c` there unless it is the end.
pub proof fn lemma_pos(s: Seq<char>, c: char)
    ensures
        0 <= pos(s, c) <= s.len(),
        forall|i: int| 0 <= i < pos(s, c) ==> s[i] != c,
        pos(s, c) < s.len() ==> s[pos(s, c)] == c,
    decreases s.len(),
{
    if s.len() > 0 && s[0] != c {
        lemma_pos(s.skip(1), c);
        assert forall|i: int| 0 <= i < pos(s, c) implies s[i] != c by {
            if i > 0 {
                assert(s.skip(1)[i - 1] == s[i]);
            }
        }
        if pos(s, c) < s.len() {
            assert(s.skip(1)[pos(s, c) - 1] == s[pos(s, c)]);
        }
    }
}

/// The one position with the properties of `pos` is `pos`.
pub proof fn lemma_pos_is(s: Seq<char>, c: char, p: int)
    requires
        0 <= p <= s.len(),
        forall|i: int| 0 <= i < p ==> s[i] != c,
        p < s.len() ==> s[p] == c,
    ensures
        pos(s, c) == p,
{
    lemma_pos(s, c);
}

/// Position of the first `c` at or after `from`; the length where there is none.
pub fn find_char(v: &Vec<char>, from: usize, c: char) -> (res: usize)
    requires
        from <= v.len(),
    ensures
        from <= res <= v.len(),
        res == from + pos(v@.skip(from as int), c),
        forall|i: int| from <= i < res ==> v@[i] != c,
        res < v.len() ==> v@[res as int] == c,
{
    let mut i: usize = from;
    while i < v.len() && v[i] != c
        invariant
            from <= i <= v.len(),
            forall|j: int| from <= j < i ==> v@[j] != c,
        decreases v.len() - i,
    {
        i += 1;
    }
    proof {
        let t = v@.skip(from as int);
        assert forall|j: int| 0 <= j < i - from implies t[j] != c by {
            assert(t[j] == v@[from + j]);
        }
        if i < v.len() {
            assert(t[i - from] == v@[i as int]);
        }
        lemma_pos_is(t, c, i - from);
    }
    i
}

/// The pieces of `s` between the occurrences of `c`; one more than there are.
pub open spec fn split_on(s: Seq<char>, c: char) -> Seq<Seq<char>>
    decreases s.len(),
    via split_on_decreases
{
    let p = pos(s, c);
    if p >= s.len() {
        seq![s]
    } else {
        seq![s.take(p)] + split_on(s.skip(p + 1), c)
    }
}

#[via_fn]
proof fn split_on_decreases(s: Seq<char>, c: char) {
    lemma_pos(s, c);
}

/// Splits at every `c`.
pub fn split_char(s: &str, c: char) -> (res: Vec<String>)
    ensures
        texts(res@) == split_on(s@, c),
        res.len() > 0,
{
    let v = to_chars(s);
    let mut out: Vec<String> = Vec::new();
    let mut from: usize = 0;
    assert(v@.skip(0) =~= s@);
    assert(texts(out@) + split_on(s@, c) =~= split_on(s@, c));
    loop
        invariant
            v@ == s@,
            from <= v.len(),
            texts(out@) + split_on(v@.skip(from as int), c) == split_on(s@, c),
        decreases v.len() - from,
    {
        let end = find_char(&v, from, c);
        let ghost rest = v@.skip(from as int);
        let piece = from_range(&v, from, end);
        let ghost before = out@;
        assert(piece@ =~= rest.take(end - from));
        out.push(piece);
        assert(texts(out@) =~= texts(before).push(piece@));
        if end == v.len() {
            assert(rest.take(end - from) =~= rest);
            assert(texts(out@) =~= texts(before) + seq![rest]);
            return out;
        }
        proof {
            assert(rest.skip(end - from + 1) =~= v@.skip(end + 1));
            assert(texts(before) + (seq![piece@] + split_on(v@.skip(end + 1), c)) =~= texts(out@)
                + split_on(v@.skip(end + 1), c));
        }
        from = end + 1;
    }
}

/// What stands before and after the first `c`, where there is one.
pub open spec fn cut_at(s: Seq<char>, c: char) -> Option<(Seq<char>, Seq<char>)> {
    let p = pos(s, c);
    if p < s.len() {
        Some((s.take(p), s.skip(p + 1)))
    } else {
        None
    }
}

/// Splits at the first `c`.
pub fn split_once(s: &str, c: char) -> (res: Option<(String, String)>)
    ensures
        match res {
            Some((a, b)) => cut_at(s@, c) == Some((a@, b@)),
            None => cut_at(s@, c) is None,
        },
{
    let v = to_chars(s);
    let p = find_char(&v, 0, c);
    assert(v@.skip(0) =~= s@);
    if p < v.len() {
        let a = from_range(&v, 0, p);
        let b = from_range(&v, p + 1, v.len());
        assert(a@ =~= s@.take(p as int));
        assert(b@ =~= s@.skip(p + 1));
        Some((a, b))
    } else {
        None
    }
}

/// Whether `c` has the Unicode White_Space property.
pub open spec fn is_space(c: char) -> bool {
    ||| '\u{9}' <= c <= '\u{d}'
    ||| c == ' '
    ||| c == '\u{85}'
    ||| c == '\u{a0}'
    ||| c == '\u{1680}'
    ||| '\u{2000}' <= c <= '\u{200a}'
    ||| c == '\u{2028}'
    ||| c == '\u{2029}'
    ||| c == '\u{202f}'
    ||| c == '\u{205f}'
    ||| c == '\u{3000}'
}

/// Whether `c` has the Unicode White_Space property.
pub fn is_whitespace(c: char) -> (res: bool)
    ensures
        res == is_space(c),
{
    ('\u{9}' <= c && c <= '\u{d}') || c == ' ' || c == '\u{85}' || c == '\u{a0}' || c == '\u{1680}'
        || ('\u{2000}' <= c && c <= '\u{200a}') || c == '\u{2028}' || c == '\u{2029}' || c
        == '\u{202f}' || c == '\u{205f}' || c == '\u{3000}'
}

/// `s` without its leading whitespace.
pub open spec fn trim_front(s: Seq<char>) -> Seq<char>
    decreases s.len(),
{
    if s.len() > 0 && is_space(s[0]) {
        trim_front(s.skip(1))
    } else {
        s
    }
}

/// `s` without its trailing whitespace.
pub open spec fn trim_back(s: Seq<char>) -> Seq<char>
    decreases s.len(),
{
    if s.len() > 0 && is_space(s.last()) {
        trim_back(s.drop_last())
    } else {
        s
    }
}

/// `s` without leading and trailing whitespace.
pub open spec fn trimmed(s: Seq<char>) -> Seq<char> {
    trim_back(trim_front(s))
}

/// Removes leading whitespace.
pub fn trim_start(s: &str) -> (res: String)
    ensures
        res@ == trim_front(s@),
{
    let v = to_chars(s);
    let i = skip_space(&v, 0);
    assert(v@.skip(0) =~= v@);
    let r = from_range(&v, i, v.len());
    assert(r@ =~= v@.skip(i as int));
    r
}

/// Removes trailing whitespace.
pub fn trim_end(s: &str) -> (res: String)
    ensures
        res@ == trim_back(s@),
{
    let v = to_chars(s);
    let mut j: usize = v.len();
    assert(v@.take(j as int) =~= v@);
    while j > 0 && is_whitespace(v[j - 1])
        invariant
            j <= v.len(),
            trim_back(v@) == trim_back(v@.take(j as int)),
        decreases j,
    {
        assert(v@.take(j as int).drop_last() =~= v@.take(j - 1));
        j -= 1;
    }
    let r = from_range(&v, 0, j);
    assert(r@ =~= v@.take(j as int));
    r
}

/// Removes leading and trailing whitespace.
pub fn trim(s: &str) -> (res: String)
    ensures
        res@ == trimmed(s@),
{
    trim_end(trim_start(s).as_str())
}

/// The first position from `from` on that holds no whitespace, or the end.
fn skip_space(v: &Vec<char>, from: usize) -> (res: usize)
    requires
        from <= v.len(),
    ensures
        from <= res <= v.len(),
        trim_front(v@.skip(from as int)) == v@.skip(res as int),
        res < v.len() ==> !is_space(v@[res as int]),
{
    let mut i: usize = from;
    while i < v.len() && is_whitespace(v[i])
        invariant
            from <= i <= v.len(),
            trim_front(v@.skip(from as int)) == trim_front(v@.skip(i as int)),
        decreases v.len() - i,
    {
        assert(v@.skip(i as int).skip(1) =~= v@.skip(i + 1));
        i += 1;
    }
    i
}

/// Number of characters of `s` before its first whitespace.
pub open spec fn word_len(s: Seq<char>) -> int
    decreases s.len(),
{
    if s.len() == 0 || is_space(s[0]) {
        0
    } else {
        1 + word_len(s.skip(1))
    }
}

/// What `word_len` says.
pub proof fn lemma_word_len(s: Seq<char>)
    ensures
        0 <= word_len(s) <= s.len(),
    decreases s.len(),
{
    if s.len() > 0 && !is_space(s[0]) {
        lemma_word_len(s.skip(1));
    }
}

proof fn lemma_trim_front_len(s: Seq<char>)
    ensures
        trim_front(s).len() <= s.len(),
        trim_front(s).len() > 0 ==> !is_space(trim_front(s)[0]),
    decreases s.len(),
{
    if s.len() > 0 && is_space(s[0]) {
        lemma_trim_front_len(s.skip(1));
    }
}

/// The pieces of `s` between its runs of whitespace, none of them empty.
pub open spec fn words(s: Seq<char>) -> Seq<Seq<char>>
    decreases s.len(),
    via words_decreases
{
    let t = trim_front(s);
    if t.len() == 0 {
        Seq::empty()
    } else {
        seq![t.take(word_len(t))] + words(t.skip(word_len(t)))
    }
}

#[via_fn]
proof fn words_decreases(s: Seq<char>) {
    let t = trim_front(s);
    lemma_trim_front_len(s);
    lemma_word_len(t);
    if t.len() > 0 {
        lemma_word_len(t.skip(1));
    }
}

/// Splits at runs of whitespace.
pub fn split_whitespace(s: &str) -> (res: Vec<String>)
    ensures
        texts(res@) == words(s@),
{
    let v = to_chars(s);
    let mut out: Vec<String> = Vec::new();
    let mut i: usize = 0;
    proof {
        assert(v@.skip(0) =~= s@);
        assert(texts(out@) + words(s@) =~= words(s@));
    }
    loop
        invariant
            v@ == s@,
            i <= v.len(),
            texts(out@) + words(v@.skip(i as int)) == words(s@),
        decreases v.len() - i,
    {
        let from = skip_space(&v, i);
        let ghost t = v@.skip(from as int);
        let ghost before = texts(out@);
        if from == v.len() {
            assert(t.len() == 0);
            assert(texts(out@) + Seq::empty() =~= texts(out@));
            return out;
        }
        let mut end: usize = from;
        assert(t.skip(0) =~= t);
        while end < v.len() && !is_whitespace(v[end])
            invariant
                from <= end <= v.len(),
                t == v@.skip(from as int),
                word_len(t) == (end - from) + word_len(v@.skip(end as int)),
            decreases v.len() - end,
        {
            assert(v@.skip(end as int).skip(1) =~= v@.skip(end + 1));
            end += 1;
        }
        assert(word_len(t) == end - from);
        let piece = from_range(&v, from, end);
        assert(piece@ =~= t.take(end - from));
        out.push(piece);
        proof {
            assert(end > from) by {
                lemma_word_len(t.skip(1));
            }
            assert(t.skip(end - from) =~= v@.skip(end as int));
            assert(before + (seq![piece@] + words(v@.skip(end as int))) =~= texts(out@) + words(
                v@.skip(end as int),
            ));
        }
        i = end;
    }
}

/// A line without the carriage return that ended it.
pub open spec fn chomp(line: Seq<char>) -> Seq<char> {
    if line.len() > 0 && line.last() == '\r' {
        line.drop_last()
    } else {
        line
    }
}

/// The lines of `s`: ended by `\n` or `\r\n`, the last one possibly by neither.
pub open spec fn lines_of(s: Seq<char>) -> Seq<Seq<char>>
    decreases s.len(),
    via lines_of_decreases
{
    let p = pos(s, '\n');
    if s.len() == 0 {
        Seq::empty()
    } else if p >= s.len() {
        seq![s]
    } else {
        seq![chomp(s.take(p))] + lines_of(s.skip(p + 1))
    }
}

#[via_fn]
proof fn lines_of_decreases(s: Seq<char>) {
    lemma_pos(s, '\n');
}

/// Splits into lines.
pub fn lines(s: &str) -> (res: Vec<String>)
    ensures
        texts(res@) == lines_of(s@),
{
    let v = to_chars(s);
    let mut out: Vec<String> = Vec::new();
    let mut from: usize = 0;
    assert(v@.skip(0) =~= s@);
    assert(texts(out@) + lines_of(s@) =~= lines_of(s@));
    while from < v.len()
        invariant
            v@ == s@,
            from <= v.len(),
            texts(out@) + lines_of(v@.skip(from as int)) == lines_of(s@),
        decreases v.len() - from,
    {
        let end = find_char(&v, from, '\n');
        let ghost rest = v@.skip(from as int);
        let ghost before = out@;
        if end == v.len() {
            let piece = from_range(&v, from, end);
            assert(piece@ =~= rest);
            out.push(piece);
            assert(texts(out@) =~= texts(before) + seq![rest]);
            return out;
        }
        let stop: usize = if end > from && v[end - 1] == '\r' { end - 1 } else { end };
        let piece = from_range(&v, from, stop);
        assert(piece@ =~= chomp(rest.take(end - from)));
        out.push(piece);
        proof {
            assert(rest.skip(end - from + 1) =~= v@.skip(end + 1));
            assert(texts(before) + (seq![piece@] + lines_of(v@.skip(end + 1))) =~= texts(out@)
                + lines_of(v@.skip(end + 1)));
        }
        from = end + 1;
    }
    assert(v@.skip(from as int).len() == 0);
    assert(texts(out@) =~= lines_of(s@));
    out
}

/// `s` with every `c` replaced by `with`.
pub open spec fn replaced(s: Seq<char>, c: char, with: Seq<char>) -> Seq<char>
    decreases s.len(),
{
    if s.len() == 0 {
        s
    } else {
        replaced(s.drop_last(), c, with) + (if s.last() == c {
            with
        } else {
            seq![s.last()]
        })
    }
}

/// Replaces every `c` by `with`.
pub fn replace_char(s: &str, c: char, with: &str) -> (res: String)
    ensures
        res@ == replaced(s@, c, with@),
{
    let v = to_chars(s);
    let mut out = String::new();
    let mut i: usize = 0;
    while i < v.len()
        invariant
            0 <= i <= v.len(),
            v@ == s@,
            out@ == replaced(v@.take(i as int), c, with@),
        decreases v.len() - i,
    {
        let ghost before = out@;
        assert(v@.take(i + 1).drop_last() =~= v@.take(i as int));
        if v[i] == c {
            out.append(with);
        } else {
            out.push(v[i]);
            assert(out@ =~= before + seq![v@[i as int]]);
        }
        i += 1;
    }
    assert(v@.take(v.len() as int) =~= v@);
    out
}

/// The texts one after the other, with `sep` between two of them.
pub open spec fn joined(v: Seq<Seq<char>>, sep: Seq<char>) -> Seq<char>
    decreases v.len(),
{
    if v.len() == 0 {
        Seq::empty()
    } else if v.len() == 1 {
        v[0]
    } else {
        joined(v.drop_last(), sep) + sep + v.last()
    }
}

/// What a text before the first `c` is split into.
pub proof fn lemma_split_at_first(a: Seq<char>, c: char, b: Seq<char>)
    requires
        !a.contains(c),
    ensures
        split_on(a + seq![c] + b, c) == seq![a] + split_on(b, c),
        split_on(a, c) == seq![a],
{
    let s = a + seq![c] + b;
    assert forall|i: int| 0 <= i < a.len() implies s[i] != c && a[i] != c by {
        assert(a.contains(a[i]));
    }
    lemma_pos_is(s, c, a.len() as int);
    lemma_pos_is(a, c, a.len() as int);
    assert(s.take(a.len() as int) =~= a);
    assert(s.skip(a.len() as int + 1) =~= b);
}

/// The first of several joined texts.
pub proof fn lemma_joined_first(v: Seq<Seq<char>>, sep: Seq<char>)
    requires
        v.len() >= 2,
    ensures
        joined(v, sep) == v[0] + sep + joined(v.skip(1), sep),
    decreases v.len(),
{
    let init = v.drop_last();
    if v.len() == 2 {
        assert(joined(init, sep) == v[0]);
        assert(joined(v.skip(1), sep) == v[1]);
    } else {
        lemma_joined_first(init, sep);
        assert(init.skip(1) =~= v.skip(1).drop_last());
        assert(v.skip(1).last() == v.last());
        assert(joined(v, sep) =~= v[0] + sep + joined(v.skip(1), sep));
    }
}

/// Texts that are joined by a character that none of them holds are split again.
pub proof fn lemma_split_joined(v: Seq<Seq<char>>, c: char)
    requires
        v.len() > 0,
        forall|i: int| 0 <= i < v.len() ==> !(#[trigger] v[i]).contains(c),
    ensures
        split_on(joined(v, seq![c]), c) == v,
    decreases v.len(),
{
    if v.len() == 1 {
        lemma_split_at_first(v[0], c, Seq::empty());
        assert(v =~= seq![v[0]]);
    } else {
        let rest = v.skip(1);
        lemma_joined_first(v, seq![c]);
        assert forall|i: int| 0 <= i < rest.len() implies !(#[trigger] rest[i]).contains(c) by {
            assert(rest[i] == v[i + 1]);
        }
        lemma_split_joined(rest, c);
        lemma_split_at_first(v[0], c, joined(rest, seq![c]));
        assert(seq![v[0]] + rest =~= v);
    }
}

/// Texts on both sides of a `c` are split by themselves.
pub proof fn lemma_split_two(a: Seq<char>, c: char, b: Seq<char>)
    ensures
        split_on(a + seq![c] + b, c) == split_on(a, c) + split_on(b, c),
    decreases a.len(),
{
    let s = a + seq![c] + b;
    let p = pos(a, c);
    lemma_pos(a, c);
    if p == a.len() {
        assert(!a.contains(c)) by {
            if a.contains(c) {
                let i = choose|i: int| 0 <= i < a.len() && a[i] == c;
                assert(a[i] != c);
            }
        }
        lemma_split_at_first(a, c, b);
    } else {
        assert forall|i: int| 0 <= i < p implies s[i] != c by {
            assert(s[i] == a[i]);
        }
        lemma_pos_is(s, c, p);
        assert(s.take(p) =~= a.take(p));
        assert(s.skip(p + 1) =~= a.skip(p + 1) + seq![c] + b);
        lemma_split_two(a.skip(p + 1), c, b);
        assert(seq![a.take(p)] + (split_on(a.skip(p + 1), c) + split_on(b, c)) =~= seq![a.take(p)]
            + split_on(a.skip(p + 1), c) + split_on(b, c));
    }
}

/// Joins strings with a separator.
pub fn join(v: &[String], sep: &str) -> (res: String)
    ensures
        res@ == joined(texts(v@), sep@),
{
    let mut out = String::new();
    let mut i: usize = 0;
    while i < v.len()
        invariant
            0 <= i <= v.len(),
            out@ == joined(texts(v@).take(i as int), sep@),
        decreases v.len() - i,
    {
        let ghost before = out@;
        if i > 0 {
            out.append(sep);
        }
        out.append(v[i].as_str());
        proof {
            let t = texts(v@).take(i + 1);
            assert(t.drop_last() =~= texts(v@).take(i as int));
            assert(t.last() == v@[i as int]@);
            if i == 0 {
                assert(out@ =~= v@[0]@);
            } else {
                assert(out@ =~= before + sep@ + v@[i as int]@);
            }
        }
        i += 1;
    }
    assert(texts(v@).take(v.len() as int) =~= texts(v@));
    out
}

/// All the texts one after the other.
pub open spec fn concat_all(v: Seq<Seq<char>>) -> Seq<char>
    decreases v.len(),
{
    if v.len() == 0 {
        Seq::empty()
    } else {
        concat_all(v.drop_last()) + v.last()
    }
}

/// Concatenates strings.
pub fn concat_texts(v: &[String]) -> (res: String)
    ensures
        res@ == concat_all(texts(v@)),
{
    let mut out = String::new();
    let mut i: usize = 0;
    while i < v.len()
        invariant
            0 <= i <= v.len(),
            out@ == concat_all(texts(v@).take(i as int)),
        decreases v.len() - i,
    {
        out.append(v[i].as_str());
        assert(texts(v@).take(i + 1).drop_last() =~= texts(v@).take(i as int));
        i += 1;
    }
    assert(texts(v@).take(v.len() as int) =~= texts(v@));
    out
}

/// `s` with ASCII capitals made small.
pub open spec fn lower(s: Seq<char>) -> Seq<char> {
    Seq::new(s.len(), |i: int| lower_char(s[i]))
}

/// An ASCII capital made small; any other character unchanged.
pub open spec fn lower_char(c: char) -> char {
    if 'A' <= c <= 'Z' {
        (c as int + 32) as char
    } else {
        c
    }
}

/// Makes an ASCII capital small.
pub fn to_lower_char(c: char) -> (res: char)
    ensures
        res == lower_char(c),
{
    if 'A' <= c && c <= 'Z' {
        ((c as u8) + 32) as char
    } else {
        c
    }
}

/// Makes ASCII capitals small.
pub fn to_ascii_lower(s: &str) -> (res: String)
    ensures
        res@ == lower(s@),
{
    let v = to_chars(s);
    let mut out = String::new();
    let mut i: usize = 0;
    while i < v.len()
        invariant
            0 <= i <= v.len(),
            v@ == s@,
            out@ == lower(v@.take(i as int)),
        decreases v.len() - i,
    {
        let ghost before = out@;
        out.push(to_lower_char(v[i]));
        i += 1;
        assert(out@ =~= lower(v@.take(i as int)));
    }
    assert(v@.take(v.len() as int) =~= v@);
    out
}

/// Whether `c` is an ASCII digit.
pub open spec fn is_digit(c: char) -> bool {
    '0' <= c <= '9'
}

/// Whether `c` is an ASCII letter.
pub open spec fn is_letter(c: char) -> bool {
    'a' <= c <= 'z' || 'A' <= c <= 'Z'
}

/// A run of spaces.
pub open spec fn spaces(n: int) -> Seq<char>
    decreases n,
{
    if n <= 0 {
        Seq::empty()
    } else {
        spaces(n - 1).push(' ')
    }
}

/// A text with spaces before it, up to a width.
pub open spec fn right_aligned(s: Seq<char>, width: int) -> Seq<char> {
    spaces(width - s.len()) + s
}

/// A text with spaces behind it, up to a width.
pub open spec fn left_aligned(s: Seq<char>, width: int) -> Seq<char> {
    s + spaces(width - s.len())
}

fn blank(n: usize) -> (res: String)
    ensures
        res@ == spaces(n as int),
{
    let mut out = String::new();
    let mut i: usize = 0;
    assert(out@ =~= spaces(0));
    while i < n
        invariant
            i <= n,
            out@ == spaces(i as int),
        decreases n - i,
    {
        out.push(' ');
        i += 1;
    }
    out
}

/// Puts spaces before a text, up to a width.
pub fn align_right(s: &str, width: usize) -> (res: String)
    ensures
        res@ == right_aligned(s@, width as int),
{
    let n = to_chars(s).len();
    let mut out = if n < width { blank(width - n) } else { blank(0) };
    out.append(s);
    out
}

/// Puts spaces behind a text, up to a width.
pub fn align_left(s: &str, width: usize) -> (res: String)
    ensures
        res@ == left_aligned(s@, width as int),
{
    let n = to_chars(s).len();
    let mut out = s.to_owned();
    let more = if n < width { blank(width - n) } else { blank(0) };
    out.append(more.as_str());
    out
}

/// Only blanks at the ends of a text are trimmed, and all of them: what begins and ends
/// with something else stays as it is.
pub proof fn theorem_trimming(s: Seq<char>)
    ensures
        s.len() == 0 ==> trimmed(s) == s,
        s.len() > 0 && !is_space(s[0]) && !is_space(s.last()) ==> trimmed(s) == s,
        s.len() > 0 && !is_space(s[0]) && !is_space(s.last()) ==> trimmed(s.push('\n')) == s
            && trimmed(s.push(' ')) == s && trimmed(seq![' '] + s) == s && trimmed(seq!['\t'] + s)
            == s,
        trimmed(s).len() > 0 ==> !is_space(trimmed(s)[0]) && !is_space(trimmed(s).last()),
{
    if s.len() > 0 && !is_space(s[0]) && !is_space(s.last()) {
        let a = s.push('\n');
        assert(a[0] == s[0]);
        assert(a.drop_last() =~= s);
        let b = s.push(' ');
        assert(b[0] == s[0]);
        assert(b.drop_last() =~= s);
        let c = seq![' '] + s;
        assert(c[0] == ' ');
        assert(c.skip(1) =~= s);
        let d = seq!['\t'] + s;
        assert(d[0] == '\t');
        assert(d.skip(1) =~= s);
        reveal_with_fuel(trim_front, 2);
        reveal_with_fuel(trim_back, 2);
    }
    lemma_trim_front_starts(s);
    lemma_trim_back_ends(trim_front(s));
}

proof fn lemma_trim_front_starts(s: Seq<char>)
    ensures
        trim_front(s).len() > 0 ==> !is_space(trim_front(s)[0]),
    decreases s.len(),
{
    if s.len() > 0 && is_space(s[0]) {
        lemma_trim_front_starts(s.skip(1));
    }
}

proof fn lemma_trim_back_ends(s: Seq<char>)
    ensures
        trim_back(s).len() > 0 ==> !is_space(trim_back(s).last()) && trim_back(s)[0] == s[0],
    decreases s.len(),
{
    if s.len() > 0 && is_space(s.last()) {
        lemma_trim_back_ends(s.drop_last());
    }
}

/// What is white space: the blank, the tab, and the ends of lines are; letters, digits and
/// signs are not.
pub proof fn theorem_white_space(c: char)
    ensures
        is_space(' ') && is_space('\t') && is_space('\n') && is_space('\r'),
        '!' <= c <= '~' ==> !is_space(c),
{
}

/// Text that is split at a character and joined by it again is the same, and no piece
/// holds the character.
pub proof fn theorem_split_and_join(s: Seq<char>, c: char)
    ensures
        joined(split_on(s, c), seq![c]) == s,
        split_on(s, c).len() > 0,
        forall|i: int| 0 <= i < split_on(s, c).len() ==> !(#[trigger] split_on(s, c)[i]).contains(c),
    decreases s.len(),
{
    let p = pos(s, c);
    lemma_pos(s, c);
    let all = split_on(s, c);
    if p >= s.len() {
        assert(all == seq![s]);
        assert(!s.contains(c));
    } else {
        let rest = s.skip(p + 1);
        theorem_split_and_join(rest, c);
        let more = split_on(rest, c);
        assert(all == seq![s.take(p)] + more);
        lemma_joined_first(all, seq![c]);
        assert(all.skip(1) =~= more);
        assert(s.take(p) + seq![c] + rest =~= s);
        assert forall|i: int| 0 <= i < all.len() implies !(#[trigger] all[i]).contains(c) by {
            if i > 0 {
                assert(all[i] == more[i - 1]);
            } else if s.take(p).contains(c) {
                let j = choose|j: int| 0 <= j < p && s.take(p)[j] == c;
                assert(s[j] != c);
            }
        }
    }
}

/// Lines end at line feeds, which are not part of them, nor is a carriage return before one;
/// what follows the last one is a line where it is not empty.
pub proof fn theorem_lines(a: Seq<char>, b: Seq<char>)
    requires
        !a.contains('\n'),
    ensures
        lines_of(a + seq!['\n'] + b) == seq![chomp(a)] + lines_of(b),
        a.len() > 0 ==> lines_of(a) == seq![a],
        lines_of(Seq::empty()).len() == 0,
        a.len() > 0 && a.last() == '\r' ==> chomp(a) == a.drop_last(),
        a.len() == 0 || a.last() != '\r' ==> chomp(a) == a,
{
    let s = a + seq!['\n'] + b;
    lemma_pos_is(s, '\n', a.len() as int);
    assert(s.take(a.len() as int) =~= a);
    assert(s.skip(a.len() as int + 1) =~= b);
    lemma_pos_is(a, '\n', a.len() as int);
}

/// Words are what stands between white space.
pub proof fn theorem_words(a: Seq<char>, space: char, b: Seq<char>)
    requires
        a.len() > 0,
        forall|i: int| 0 <= i < a.len() ==> !is_space(#[trigger] a[i]),
        is_space(space),
    ensures
        words(a + seq![space] + b) == seq![a] + words(b),
        words(seq![space] + b) == words(b),
        words(a) == seq![a],
        words(Seq::empty()).len() == 0,
{
    let s = a + seq![space] + b;
    assert(s[0] == a[0]);
    lemma_whole_word(s, a.len() as int);
    assert(s.take(a.len() as int) =~= a);
    let rest = s.skip(a.len() as int);
    assert(rest =~= seq![space] + b);
    assert(rest.skip(1) =~= b);
    assert(trim_front(rest) == trim_front(b));
    assert(words(rest) == words(b));
    assert(trim_front(s) == s);
    assert(words(s) == seq![a] + words(rest));
    let t = seq![space] + b;
    assert(t.skip(1) =~= b);
    lemma_whole_word(a, a.len() as int);
    assert(a.take(a.len() as int) =~= a);
    assert(a.skip(a.len() as int) =~= Seq::empty());
    assert(words(Seq::<char>::empty()) =~= Seq::empty());
    assert(trim_front(Seq::<char>::empty()) == Seq::<char>::empty());
}

proof fn lemma_whole_word(s: Seq<char>, n: int)
    requires
        0 <= n <= s.len(),
        forall|i: int| 0 <= i < n ==> !is_space(#[trigger] s[i]),
        n < s.len() ==> is_space(s[n]),
    ensures
        word_len(s) == n,
    decreases n,
{
    if n > 0 {
        let t = s.skip(1);
        assert forall|i: int| 0 <= i < n - 1 implies !is_space(#[trigger] t[i]) by {
            assert(t[i] == s[i + 1]);
        }
        if n < s.len() {
            assert(t[n - 1] == s[n]);
        }
        lemma_whole_word(t, n - 1);
    }
}

/// Text is filled up with blanks to a width, before it or behind it, and never cut off.
pub proof fn theorem_alignment(s: Seq<char>, width: int, i: int)
    ensures
        s.len() <= width ==> right_aligned(s, width).len() == width && left_aligned(s, width).len()
            == width,
        s.len() >= width ==> right_aligned(s, width) == s && left_aligned(s, width) == s,
        s.len() <= width ==> right_aligned(s, width).skip(width - s.len()) == s,
        s.len() <= width ==> left_aligned(s, width).take(s.len() as int) == s,
        0 <= i < width - s.len() ==> right_aligned(s, width)[i] == ' ' && left_aligned(
            s,
            width,
        )[s.len() + i] == ' ',
{
    lemma_spaces(width - s.len());
    if s.len() <= width {
        assert(right_aligned(s, width).skip(width - s.len()) =~= s);
        assert(left_aligned(s, width).take(s.len() as int) =~= s);
    }
    if s.len() >= width {
        assert(right_aligned(s, width) =~= s);
        assert(left_aligned(s, width) =~= s);
    }
}

proof fn lemma_spaces(n: int)
    ensures
        spaces(n).len() == (if n > 0 {
            n
        } else {
            0
        }),
        forall|i: int| 0 <= i < n ==> #[trigger] spaces(n)[i] == ' ',
    decreases n,
{
    if n > 0 {
        lemma_spaces(n - 1);
    }
}

} // verus!
