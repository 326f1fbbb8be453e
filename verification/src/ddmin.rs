//! Delta debugging: shrink a list of tests to a subset that still reproduces
//! a failure, asking an oracle about ever finer subsets and complements.

use crate::sequences::{
    lemma_subsequence_len, lemma_subsequence_more, lemma_subsequence_reflexive,
    lemma_subsequence_transitive,
    lemma_without_range, subsequence,
};
use crate::text::{clone_texts, lemma_texts_add, texts};
use vstd::prelude::*;

verus! {

/// Where the search stands: the smallest list known to reproduce, the number
/// of chunks it is cut into, and which chunk is asked about next, by itself or
/// by leaving it out.
#[verifier::ext_equal]
pub struct Search {
    pub circ: Seq<Seq<char>>,
    pub n: int,
    pub complement: bool,
    pub i: int,
}

/// What the search does next.
#[verifier::ext_equal]
pub enum Step {
    /// Ask the oracle.
    Ask(Search),
    /// Stop with this list.
    Done(Seq<Seq<char>>),
}

/// `a / b`, rounded up.
pub open spec fn ceil_div(a: int, b: int) -> int {
    a / b + (if a % b == 0 {
        0int
    } else {
        1int
    })
}

/// The smaller of two numbers.
pub open spec fn least(a: int, b: int) -> int {
    if a < b {
        a
    } else {
        b
    }
}

impl Search {
    /// Size of every chunk but possibly the last.
    pub open spec fn chunk(self) -> int {
        ceil_div(self.circ.len() as int, self.n)
    }

    /// Number of chunks.
    pub open spec fn chunks(self) -> int {
        ceil_div(self.circ.len() as int, self.chunk())
    }

    /// Where chunk `i` begins.
    pub open spec fn begin(self) -> int {
        self.i * self.chunk()
    }

    /// Where chunk `i` ends.
    pub open spec fn end(self) -> int {
        least((self.i + 1) * self.chunk(), self.circ.len() as int)
    }

    /// The list to ask about.
    pub open spec fn question(self) -> Seq<Seq<char>> {
        if self.complement {
            self.circ.take(self.begin()) + self.circ.skip(self.end())
        } else {
            self.circ.subrange(self.begin(), self.end())
        }
    }

    /// The next step, once the oracle has said whether the list reproduces.
    pub open spec fn next(self, yes: bool) -> Step {
        if yes {
            begin_with(
                self.question(),
                if self.complement && self.n > 3 {
                    self.n - 1
                } else {
                    2
                },
            )
        } else if self.i + 1 < self.chunks() {
            Step::Ask(Search { i: self.i + 1, ..self })
        } else if !self.complement && self.chunks() > 2 {
            Step::Ask(Search { complement: true, i: 0, ..self })
        } else if self.n >= self.circ.len() {
            Step::Done(self.circ)
        } else {
            begin_with(self.circ, least(2 * self.n, self.circ.len() as int))
        }
    }

    /// The same search at another chunk.
    pub open spec fn at(self, complement: bool, j: int) -> Search {
        Search { complement, i: j, ..self }
    }

    /// What holds of every search that has something left to ask.
    pub open spec fn valid(self) -> bool {
        &&& self.circ.len() >= 2
        &&& self.n >= 2
        &&& 0 <= self.i < self.chunks()
        &&& self.complement ==> self.chunks() > 2
    }
}

/// Begin asking about the chunks of a list, unless it cannot be cut.
pub open spec fn begin_with(circ: Seq<Seq<char>>, n: int) -> Step {
    if circ.len() >= 2 {
        Step::Ask(Search { circ, n, complement: false, i: 0 })
    } else {
        Step::Done(circ)
    }
}

/// Whether a list is made of some of the tests of another in their order, but neither
/// of none nor of all of them.
pub open spec fn is_proper_part(part: Seq<Seq<char>>, all: Seq<Seq<char>>) -> bool {
    0 < part.len() < all.len() && subsequence(part, all)
}

/// Whether some call of the oracle on the tests `asked` gave `answer`.
pub open spec fn answered<E, F: FnMut(&[String]) -> Result<Option<bool>, E>>(
    oracle: F,
    asked: Seq<Seq<char>>,
    answer: Result<Option<bool>, E>,
) -> bool {
    exists|s: &[String]| texts(s@) == asked && #[trigger] call_ensures(oracle, (s,), answer)
}

/// Whether `res` is what the search gives from `step` on when the oracle, asked
/// one question after the other, gives `answers`.
pub open spec fn leads_to<E, F: FnMut(&[String]) -> Result<Option<bool>, E>>(
    oracle: F,
    step: Step,
    answers: Seq<Result<Option<bool>, E>>,
    res: Result<(Seq<Seq<char>>, bool), E>,
) -> bool
    decreases answers.len(),
{
    match step {
        Step::Done(circ) => answers.len() == 0 && res == Ok::<(Seq<Seq<char>>, bool), E>((circ, false)),
        Step::Ask(search) => answers.len() > 0 && answered::<E, F>(oracle, search.question(), answers[0]) && (
        match answers[0] {
            Err(e) => answers.len() == 1 && res == Err::<(Seq<Seq<char>>, bool), E>(e),
            Ok(None) => answers.len() == 1 && res == Ok::<(Seq<Seq<char>>, bool), E>(
                (search.circ, true),
            ),
            Ok(Some(yes)) => leads_to::<E, F>(oracle, search.next(yes), answers.skip(1), res),
        }),
    }
}

/// A result with the characters of its list.
pub open spec fn shown<E>(res: Result<(Vec<String>, bool), E>) -> Result<
    (Seq<Seq<char>>, bool),
    E,
> {
    match res {
        Ok((v, capped)) => Ok((texts(v@), capped)),
        Err(e) => Err(e),
    }
}

proof fn lemma_ceil_div(a: int, b: int)
    requires
        a >= 1,
        b >= 1,
    ensures
        ceil_div(a, b) >= 1,
        (ceil_div(a, b) - 1) * b < a <= ceil_div(a, b) * b,
        b >= 2 && a >= 2 ==> ceil_div(a, b) < a,
        b >= a ==> ceil_div(a, b) == 1,
{
    let q = a / b;
    let r = a % b;
    assert(a == q * b + r && 0 <= r < b && q >= 0) by (nonlinear_arith)
        requires
            a >= 1,
            b >= 1,
            q == a / b,
            r == a % b,
    ;
    let c = ceil_div(a, b);
    if r == 0 {
        assert(q >= 1 && (q - 1) * b < a) by (nonlinear_arith)
            requires
                a == q * b,
                a >= 1,
                b >= 1,
        ;
    } else {
        assert((q + 1) * b >= a) by (nonlinear_arith)
            requires
                a == q * b + r,
                r < b,
        ;
        assert(c - 1 == q);
        assert((c - 1) * b == q * b);
    }
    if b >= 2 && a >= 2 {
        assert(c < a) by (nonlinear_arith)
            requires
                (c - 1) * b < a,
                b >= 2,
                a >= 2,
        ;
    }
    if b >= a {
        assert(c == 1) by (nonlinear_arith)
            requires
                (c - 1) * b < a,
                b >= a,
                c >= 1,
                a >= 1,
        ;
    }
}

/// The chunks of a valid search lie inside the list, none is empty and none is
/// the whole list.
proof fn lemma_chunk(search: Search)
    requires
        search.valid(),
    ensures
        1 <= search.chunk() < search.circ.len(),
        search.chunks() >= 2,
        0 <= search.begin() < search.end() <= search.circ.len(),
        search.end() - search.begin() < search.circ.len(),
        search.i + 1 < search.chunks() ==> (search.i + 1) * search.chunk() < search.circ.len(),
{
    let len = search.circ.len() as int;
    let c = search.chunk();
    let i = search.i;
    lemma_ceil_div(len, search.n);
    lemma_ceil_div(len, c);
    let k = search.chunks();
    assert(k >= 2) by (nonlinear_arith)
        requires
            len <= k * c,
            c < len,
            c >= 1,
    ;
    assert(i * c < len && i * c >= 0 && i * c < (i + 1) * c) by (nonlinear_arith)
        requires
            (k - 1) * c < len,
            0 <= i < k,
            c >= 1,
    ;
    assert((i + 1) * c - i * c == c) by (nonlinear_arith);
    if i + 1 < k {
        assert((i + 1) * c < len) by (nonlinear_arith)
            requires
                (k - 1) * c < len,
                0 <= i,
                i + 1 < k,
                c >= 1,
        ;
    }
}

/// The search a loop of [`ddmin`] is in.
spec fn state(circ: Seq<String>, n: usize, complement: bool, i: usize) -> Search {
    Search { circ: texts(circ), n: n as int, complement, i: i as int }
}

/// `a / b`, rounded up.
fn div_ceil(a: usize, b: usize) -> (res: usize)
    requires
        a >= 1,
        b >= 1,
    ensures
        res == ceil_div(a as int, b as int),
{
    proof {
        lemma_ceil_div(a as int, b as int);
        let c = ceil_div(a as int, b as int);
        assert(c <= a) by (nonlinear_arith)
            requires
                (c - 1) * b < a,
                b >= 1,
        ;
    }
    a / b + if a % b == 0 {
        0
    } else {
        1
    }
}

/// A copy of `v[from..to]`.
fn copy_range(v: &Vec<String>, from: usize, to: usize) -> (res: Vec<String>)
    requires
        from <= to <= v.len(),
    ensures
        res@ == v@.subrange(from as int, to as int),
{
    let mut out: Vec<String> = Vec::new();
    let mut k: usize = from;
    while k < to
        invariant
            from <= k <= to <= v.len(),
            out@ == v@.subrange(from as int, k as int),
        decreases to - k,
    {
        out.push(v[k].clone());
        k += 1;
        assert(v@.subrange(from as int, k as int) =~= v@.subrange(from as int, k - 1).push(
            v@[k - 1],
        ));
    }
    out
}

/// One more answer in front of those that lead on from the next step.
proof fn lemma_leads_on<E, F: FnMut(&[String]) -> Result<Option<bool>, E>>(
    oracle: F,
    start: Step,
    asked: Seq<Result<Option<bool>, E>>,
    search: Search,
    yes: bool,
)
    requires
        forall|rest: Seq<Result<Option<bool>, E>>, res: Result<(Seq<Seq<char>>, bool), E>|
            leads_to::<E, F>(oracle, Step::Ask(search), rest, res) ==> #[trigger] leads_to::<E, F>(
                oracle,
                start,
                asked + rest,
                res,
            ),
        answered::<E, F>(oracle, search.question(), Ok(Some(yes))),
    ensures
        forall|rest: Seq<Result<Option<bool>, E>>, res: Result<(Seq<Seq<char>>, bool), E>|
            leads_to::<E, F>(oracle, search.next(yes), rest, res) ==> #[trigger] leads_to::<E, F>(
                oracle,
                start,
                asked.push(Ok(Some(yes))) + rest,
                res,
            ),
{
    assert forall|rest: Seq<Result<Option<bool>, E>>, res: Result<(Seq<Seq<char>>, bool), E>|
        leads_to::<E, F>(oracle, search.next(yes), rest, res) implies #[trigger] leads_to::<E, F>(
        oracle,
        start,
        asked.push(Ok(Some(yes))) + rest,
        res,
    ) by {
        let more: Seq<Result<Option<bool>, E>> = seq![Ok(Some(yes))] + rest;
        assert(more.skip(1) =~= rest);
        assert(leads_to::<E, F>(oracle, Step::Ask(search), more, res));
        assert(asked + more =~= asked.push(Ok(Some(yes))) + rest);
    }
}

/// Delta-debugging minimization of `preds`: ask `interesting` about chunks of
/// the list, never about none or all of it, narrowing to one that reproduces alone; else about the list
/// without one chunk; else about finer chunks. `None` from the oracle means
/// that its budget is spent: stop with the smallest list confirmed so far,
/// flagged.
pub fn ddmin<E, F: FnMut(&[String]) -> Result<Option<bool>, E>>(
    preds: &[String],
    interesting: F,
) -> (res: Result<(Vec<String>, bool), E>)
    requires
        forall|s: &[String]|
            is_proper_part(texts(s@), texts(preds@)) ==> #[trigger] call_requires(
                interesting,
                (s,),
            ),
    ensures
        exists|answers: Seq<Result<Option<bool>, E>>| #[trigger]
            leads_to::<E, F>(interesting, begin_with(texts(preds@), 2), answers, shown(res)),
{
    broadcast use lemma_texts_add;

    let ghost oracle = interesting;
    let mut ask = interesting;
    let mut circ: Vec<String> = clone_texts(preds);
    let mut n: usize = 2;
    let mut complement = false;
    let mut i: usize = 0;
    let ghost start = begin_with(texts(preds@), 2);
    let ghost mut asked: Seq<Result<Option<bool>, E>> = Seq::empty();
    proof {
        assert forall|rest: Seq<Result<Option<bool>, E>>, r: Result<(Seq<Seq<char>>, bool), E>|
            leads_to::<E, F>(oracle, start, rest, r) implies #[trigger] leads_to::<E, F>(
            oracle,
            start,
            asked + rest,
            r,
        ) by {
            assert(asked + rest =~= rest);
        }
        lemma_subsequence_reflexive(texts(preds@));
        if circ.len() >= 2 {
            lemma_ceil_div(circ.len() as int, 2);
            lemma_ceil_div(circ.len() as int, ceil_div(circ.len() as int, 2));
        }
    }
    while circ.len() >= 2
        invariant_except_break
            forall|s: &[String]|
                is_proper_part(texts(s@), texts(preds@)) ==> #[trigger] call_requires(ask, (s,)),
            ask == oracle,
            subsequence(texts(circ@), texts(preds@)),
            oracle == interesting,
            circ.len() >= 2 ==> state(circ@, n, complement, i).valid(),
            forall|rest: Seq<Result<Option<bool>, E>>, r: Result<(Seq<Seq<char>>, bool), E>|
                leads_to::<E, F>(
                    oracle,
                    if circ.len() >= 2 {
                        Step::Ask(state(circ@, n, complement, i))
                    } else {
                        Step::Done(texts(circ@))
                    },
                    rest,
                    r,
                ) ==> #[trigger] leads_to::<E, F>(oracle, start, asked + rest, r),
            start == begin_with(texts(preds@), 2),
        ensures
            start == begin_with(texts(preds@), 2),
            forall|rest: Seq<Result<Option<bool>, E>>, r: Result<(Seq<Seq<char>>, bool), E>|
                leads_to::<E, F>(oracle, Step::Done(texts(circ@)), rest, r) ==> #[trigger] leads_to::<E, F>(
                    oracle,
                    start,
                    asked + rest,
                    r,
                ),
        decreases
                circ.len(),
                (if n < circ.len() {
                    circ.len() - n
                } else {
                    0
                }),
                (if complement {
                    0int
                } else {
                    1int
                }),
                circ.len() - i,
    {
        let ghost search = state(circ@, n, complement, i);
        proof {
            lemma_chunk(search);
            lemma_ceil_div(circ.len() as int, n as int);
        }
        let len = circ.len();
        let chunk = div_ceil(len, n);
        let chunks = div_ceil(len, chunk);
        let begin = i * chunk;
        let end: usize = if chunk < len - begin { begin + chunk } else { len };
        assert(begin + chunk == (i + 1) * chunk) by (nonlinear_arith)
            requires
                begin == i * chunk,
        ;
        let sel = if complement {
            let mut head = copy_range(&circ, 0, begin);
            let mut tail = copy_range(&circ, end, len);
            head.append(&mut tail);
            head
        } else {
            copy_range(&circ, begin, end)
        };
        assert(texts(sel@) =~= search.question());
        proof {
            lemma_question_subsequence(search);
            lemma_subsequence_transitive(search.question(), texts(circ@), texts(preds@));
            lemma_subsequence_len(texts(circ@), texts(preds@));
        }
        let answer = ask(sel.as_slice());
        assert(answered::<E, F>(oracle, search.question(), answer));
        match answer {
            Err(e) => {
                proof {
                    let last: Seq<Result<Option<bool>, E>> = seq![Err(e)];
                    assert(leads_to::<E, F>(oracle, Step::Ask(search), last, Err(e)));
                    assert(leads_to::<E, F>(oracle, start, asked + last, Err(e)));
                }
                return Err(e);
            },
            Ok(None) => {
                proof {
                    let last: Seq<Result<Option<bool>, E>> = seq![Ok(None)];
                    let out: Result<(Seq<Seq<char>>, bool), E> = Ok((texts(circ@), true));
                    assert(leads_to::<E, F>(oracle, Step::Ask(search), last, out));
                    assert(leads_to::<E, F>(oracle, start, asked + last, out));
                }
                return Ok((circ, true));
            },
            Ok(Some(yes)) => {
                proof {
                    lemma_leads_on::<E, F>(oracle, start, asked, search, yes);
                    asked = asked.push(Ok(Some(yes)));
                }
                if yes {
                    n = if complement && n > 3 { n - 1 } else { 2 };
                    circ = sel;
                    complement = false;
                    i = 0;
                } else if i + 1 < chunks {
                    i += 1;
                } else if !complement && chunks > 2 {
                    complement = true;
                    i = 0;
                } else if n >= len {
                    break;
                } else {
                    n = if n < len - n { 2 * n } else { len };
                    complement = false;
                    i = 0;
                }
                proof {
                    if circ.len() >= 2 {
                        lemma_ceil_div(circ.len() as int, n as int);
                        lemma_ceil_div(circ.len() as int, ceil_div(circ.len() as int, n as int));
                    }
                }
            },
        }
    }
    proof {
        let none: Seq<Result<Option<bool>, E>> = Seq::empty();
        let out: Result<(Seq<Seq<char>>, bool), E> = Ok((texts(circ@), false));
        assert(leads_to::<E, F>(oracle, Step::Done(texts(circ@)), none, out));
        assert(leads_to::<E, F>(oracle, start, asked + none, out));
    }
    Ok((circ, false))
}

proof fn lemma_question_subsequence(search: Search)
    requires
        search.valid(),
    ensures
        subsequence(search.question(), search.circ),
{
    lemma_chunk(search);
    let b = search.circ;
    let from = search.begin();
    let to = search.end();
    if search.complement {
        lemma_without_range(b, from, to);
    } else {
        let head = b.take(to);
        lemma_without_range(head, 0, from);
        assert(head.take(0) + head.skip(from) =~= search.question());
        lemma_subsequence_more(search.question(), b, to);
    }
}

/// The next step of a valid search is valid, and its list is a subsequence.
proof fn lemma_next(search: Search, yes: bool)
    requires
        search.valid(),
    ensures
        match search.next(yes) {
            Step::Ask(s) => s.valid() && subsequence(s.circ, search.circ) && (s.circ == search.circ
                || (yes && s.circ == search.question())),
            Step::Done(c) => subsequence(c, search.circ) && (c == search.circ || (yes && c
                == search.question())),
        },
{
    lemma_chunk(search);
    lemma_question_subsequence(search);
    lemma_subsequence_reflexive(search.circ);
    match search.next(yes) {
        Step::Ask(s) => {
            lemma_ceil_div(s.circ.len() as int, s.n);
            lemma_ceil_div(s.circ.len() as int, s.chunk());
        },
        Step::Done(c) => {},
    }
}

/// What the answers given so far say of a search: no chunk before the current
/// one reproduced alone, or left out.
spec fn told<E, F: FnMut(&[String]) -> Result<Option<bool>, E>>(oracle: F, search: Search) -> bool {
    &&& forall|j: int|
        0 <= j < (if search.complement {
            search.chunks()
        } else {
            search.i
        }) ==> answered::<E, F>(
            oracle,
            (#[trigger] search.at(false, j)).question(),
            Ok(Some(false)),
        )
    &&& search.complement ==> forall|j: int|
        0 <= j < search.i ==> answered::<E, F>(
            oracle,
            (#[trigger] search.at(true, j)).question(),
            Ok(Some(false)),
        )
}

/// Whether the oracle said of `list` without any one element that it does not
/// reproduce.
pub open spec fn one_minimal<E, F: FnMut(&[String]) -> Result<Option<bool>, E>>(
    oracle: F,
    list: Seq<Seq<char>>,
) -> bool {
    forall|k: int|
        0 <= k < list.len() ==> answered::<E, F>(oracle, #[trigger] list.remove(k), Ok(Some(false)))
}

/// Whether the oracle said that `list` reproduces.
pub open spec fn confirmed<E, F: FnMut(&[String]) -> Result<Option<bool>, E>>(
    oracle: F,
    list: Seq<Seq<char>>,
) -> bool {
    answered::<E, F>(oracle, list, Ok(Some(true)))
}

proof fn lemma_done_is_minimal<E, F: FnMut(&[String]) -> Result<Option<bool>, E>>(oracle: F, search: Search)
    requires
        search.valid(),
        told::<E, F>(oracle, search),
        answered::<E, F>(oracle, search.question(), Ok(Some(false))),
        search.next(false) is Done,
    ensures
        one_minimal::<E, F>(oracle, search.circ),
{
    let len = search.circ.len() as int;
    lemma_chunk(search);
    lemma_ceil_div(len, search.n);
    assert(search.chunk() == 1);
    lemma_ceil_div(len, 1);
    assert(ceil_div(len, 1) == len);
    assert(search.chunks() == len);
    assert(search.i == len - 1);
    assert forall|k: int| 0 <= k < len implies answered::<E, F>(
        oracle,
        #[trigger] search.circ.remove(k),
        Ok(Some(false)),
    ) by {
        if search.complement {
            let at = search.at(true, k);
            assert(at.chunk() == 1);
            assert(k * 1 == k && (k + 1) * 1 == k + 1);
            assert(at.begin() == k && at.end() == k + 1);
            assert(at.question() =~= search.circ.remove(k));
            if k == search.i {
                assert(at =~= search);
            } else {
                assert(answered::<E, F>(oracle, at.question(), Ok(Some(false))));
            }
        } else {
            let j = 1 - k;
            assert(len == 2);
            let at = search.at(false, j);
            assert(at.chunk() == 1);
            assert(j * 1 == j && (j + 1) * 1 == j + 1);
            assert(at.begin() == j && at.end() == j + 1);
            assert(at.question() =~= search.circ.remove(k));
            if j == search.i {
                assert(at =~= search);
            } else {
                assert(answered::<E, F>(oracle, at.question(), Ok(Some(false))));
            }
        }
    }
}

proof fn lemma_told_next<E, F: FnMut(&[String]) -> Result<Option<bool>, E>>(
    oracle: F,
    search: Search,
    yes: bool,
)
    requires
        search.valid(),
        told::<E, F>(oracle, search),
        answered::<E, F>(oracle, search.question(), Ok(Some(yes))),
    ensures
        match search.next(yes) {
            Step::Ask(s) => told::<E, F>(oracle, s),
            Step::Done(c) => !yes ==> one_minimal::<E, F>(oracle, c),
        },
{
    match search.next(yes) {
        Step::Ask(s) => {
            if !yes && s.circ == search.circ && s.n == search.n {
                if search.i + 1 < search.chunks() {
                    assert forall|j: int|
                        0 <= j < (if s.complement {
                            s.chunks()
                        } else {
                            s.i
                        }) implies answered::<E, F>(
                        oracle,
                        (#[trigger] s.at(false, j)).question(),
                        Ok(Some(false)),
                    ) by {
                        let at = search.at(false, j);
                        assert(at =~= s.at(false, j));
                        if j == search.i && !search.complement {
                            assert(at =~= search);
                        }
                    }
                    if s.complement {
                        assert forall|j: int| 0 <= j < s.i implies answered::<E, F>(
                            oracle,
                            (#[trigger] s.at(true, j)).question(),
                            Ok(Some(false)),
                        ) by {
                            let at = search.at(true, j);
                            assert(at =~= s.at(true, j));
                            if j == search.i {
                                assert(at =~= search);
                            }
                        }
                    }
                } else if s.complement {
                    assert forall|j: int| 0 <= j < s.chunks() implies answered::<E, F>(
                        oracle,
                        (#[trigger] s.at(false, j)).question(),
                        Ok(Some(false)),
                    ) by {
                        let at = search.at(false, j);
                        assert(at =~= s.at(false, j));
                        if j == search.i {
                            assert(at =~= search);
                        }
                    }
                }
            }
        },
        Step::Done(c) => {
            if !yes {
                lemma_done_is_minimal::<E, F>(oracle, search);
            }
        },
    }
}

/// What holds of every result that the search gives from a valid state on.
proof fn lemma_result<E, F: FnMut(&[String]) -> Result<Option<bool>, E>>(
    oracle: F,
    search: Search,
    answers: Seq<Result<Option<bool>, E>>,
    res: Result<(Seq<Seq<char>>, bool), E>,
)
    requires
        search.valid(),
        told::<E, F>(oracle, search),
        leads_to::<E, F>(oracle, Step::Ask(search), answers, res),
    ensures
        res matches Ok((out, capped)) ==> {
            &&& subsequence(out, search.circ)
            &&& out == search.circ || confirmed::<E, F>(oracle, out)
            &&& !capped && out.len() >= 2 ==> one_minimal::<E, F>(oracle, out)
            &&& capped == (answers.last() == Ok::<Option<bool>, E>(None))
        },
        res is Err == answers.last() is Err,
    decreases answers.len(),
{
    match answers[0] {
        Err(e) => {},
        Ok(None) => {
            lemma_subsequence_reflexive(search.circ);
        },
        Ok(Some(yes)) => {
            lemma_next(search, yes);
            lemma_told_next::<E, F>(oracle, search, yes);
            match search.next(yes) {
                Step::Ask(s) => {
                    lemma_result::<E, F>(oracle, s, answers.skip(1), res);
                    assert(leads_to::<E, F>(oracle, Step::Ask(s), answers.skip(1), res));
                    assert(answers.skip(1).last() == answers.last());
                    if let Ok((out, capped)) = res {
                        lemma_subsequence_transitive(out, s.circ, search.circ);
                    }
                },
                Step::Done(c) => {
                    assert(leads_to::<E, F>(oracle, Step::Done(c), answers.skip(1), res));
                    assert(answers.len() == 1);
                },
            }
        },
    }
}

/// What every outcome of [`ddmin`] has: the list keeps the order of `preds`, it
/// is `preds` itself or a list that the oracle confirmed, and it is flagged
/// just when the oracle's last answer was that its budget is spent. Unflagged,
/// and with at least two tests, it is minimal: the oracle denied it without any
/// one of them. An error comes just when the oracle's last answer was one.
pub proof fn theorem_ddmin<E, F: FnMut(&[String]) -> Result<Option<bool>, E>>(
    oracle: F,
    preds: Seq<Seq<char>>,
    answers: Seq<Result<Option<bool>, E>>,
    res: Result<(Seq<Seq<char>>, bool), E>,
)
    requires
        leads_to::<E, F>(oracle, begin_with(preds, 2), answers, res),
    ensures
        res matches Ok((out, capped)) ==> {
            &&& subsequence(out, preds)
            &&& out == preds || confirmed::<E, F>(oracle, out)
            &&& !capped && out.len() >= 2 ==> one_minimal::<E, F>(oracle, out)
            &&& capped == (answers.len() > 0 && answers.last() == Ok::<Option<bool>, E>(None))
        },
        res is Err == (answers.len() > 0 && answers.last() is Err),
{
    if preds.len() >= 2 {
        let search = Search { circ: preds, n: 2, complement: false, i: 0 };
        lemma_ceil_div(preds.len() as int, 2);
        lemma_ceil_div(preds.len() as int, search.chunk());
        assert(search.valid());
        lemma_result::<E, F>(oracle, search, answers, res);
    } else {
        lemma_subsequence_reflexive(preds);
    }
}

/// A list of at most one test is returned as it is, and nothing is asked.
pub proof fn theorem_ddmin_asks_nothing_of_one<
    E,
    F: FnMut(&[String]) -> Result<Option<bool>, E>,
>(
    oracle: F,
    preds: Seq<Seq<char>>,
    answers: Seq<Result<Option<bool>, E>>,
    res: Result<(Seq<Seq<char>>, bool), E>,
)
    requires
        leads_to::<E, F>(oracle, begin_with(preds, 2), answers, res),
        preds.len() < 2,
    ensures
        answers.len() == 0,
        res == Ok::<(Seq<Seq<char>>, bool), E>((preds, false)),
{
}

/// Once the budget is spent, or the oracle has failed, nothing more is asked.
pub proof fn theorem_ddmin_stops_at_once<E, F: FnMut(&[String]) -> Result<Option<bool>, E>>(
    oracle: F,
    step: Step,
    answers: Seq<Result<Option<bool>, E>>,
    res: Result<(Seq<Seq<char>>, bool), E>,
    k: int,
)
    requires
        leads_to::<E, F>(oracle, step, answers, res),
        0 <= k < answers.len(),
        answers[k] is Err || answers[k] == Ok::<Option<bool>, E>(None),
    ensures
        k == answers.len() - 1,
    decreases k,
{
    if k > 0 {
        if let Step::Ask(search) = step {
            if let Ok(Some(yes)) = answers[0] {
                assert(answers.skip(1)[k - 1] == answers[k]);
                theorem_ddmin_stops_at_once::<E, F>(
                    oracle,
                    search.next(yes),
                    answers.skip(1),
                    res,
                    k - 1,
                );
            }
        }
    }
}

/// Whether the oracle finds a list interesting just where it has `culprit`.
pub open spec fn answers_for<E, F: FnMut(&[String]) -> Result<Option<bool>, E>>(
    oracle: F,
    culprit: Seq<char>,
) -> bool {
    forall|asked: Seq<Seq<char>>, answer: bool| #[trigger]
        answered::<E, F>(oracle, asked, Ok(Some(answer))) ==> answer == asked.contains(culprit)
}

/// Where one test makes a list interesting, it is what is left.
pub proof fn theorem_one_culprit<E, F: FnMut(&[String]) -> Result<Option<bool>, E>>(
    oracle: F,
    preds: Seq<Seq<char>>,
    answers: Seq<Result<Option<bool>, E>>,
    out: Seq<Seq<char>>,
    culprit: Seq<char>,
)
    requires
        leads_to::<E, F>(oracle, begin_with(preds, 2), answers, Ok((out, false))),
        preds.contains(culprit),
        answers_for::<E, F>(oracle, culprit),
    ensures
        out == seq![culprit],
{
    theorem_ddmin::<E, F>(oracle, preds, answers, Ok((out, false)));
    if out != preds {
        assert(answered::<E, F>(oracle, out, Ok(Some(true))));
    }
    assert(out.contains(culprit));
    let at = choose|at: int| 0 <= at < out.len() && out[at] == culprit;
    if out.len() >= 2 {
        let k = if at == 0 {
            1int
        } else {
            0
        };
        assert(answered::<E, F>(oracle, out.remove(k), Ok(Some(false))));
        if at == 0 {
            assert(out.remove(k)[0] == culprit);
        } else {
            assert(out.remove(k)[at - 1] == culprit);
        }
    }
    assert(out =~= seq![culprit]);
}

/// A list that is interesting takes the place of the whole: one part is split in two anew,
/// and the rest of a part stays split as finely as before, in one part fewer. Where nothing
/// was, parts are halved until there is one for each test.
pub proof fn theorem_how_finely_a_list_is_split(search: Search)
    requires
        search.valid(),
    ensures
        search.next(true) == (if search.question().len() < 2 {
            Step::Done(search.question())
        } else {
            Step::Ask(
                Search {
                    circ: search.question(),
                    n: if search.complement && search.n >= 4 {
                        search.n - 1
                    } else {
                        2
                    },
                    complement: false,
                    i: 0,
                },
            )
        }),
        search.i == search.chunks() - 1 && (search.complement || search.chunks() == 2) ==> match search.next(
            false,
        ) {
            Step::Done(list) => search.n >= search.circ.len() && list == search.circ,
            Step::Ask(next) => search.n < search.circ.len() && next.circ == search.circ
                && !next.complement && next.i == 0 && search.n < next.n <= 2 * search.n && next.n
                <= search.circ.len() && (next.n == 2 * search.n || next.n == search.circ.len()),
        },
        search.i < search.chunks() - 1 ==> search.next(false) == Step::Ask(
            Search { i: search.i + 1, ..search },
        ),
{
}

/// The parts of a list are asked for one by one, and together they are the list.
pub proof fn theorem_a_part_and_the_rest(search: Search, x: Seq<char>)
    requires
        search.valid(),
    ensures
        search.circ.contains(x) <==> search.at(false, search.i).question().contains(x)
            || search.at(true, search.i).question().contains(x),
        search.at(false, search.i).question().len() + search.at(true, search.i).question().len()
            == search.circ.len(),
{
    let a = search.begin();
    let b = search.end();
    lemma_chunk(search);
    let part = search.circ.subrange(a, b);
    let rest = search.circ.take(a) + search.circ.skip(b);
    assert(search.at(false, search.i).question() == part);
    assert(search.at(true, search.i).question() == rest);
    if search.circ.contains(x) {
        let k = choose|k: int| 0 <= k < search.circ.len() && search.circ[k] == x;
        if k < a {
            assert(rest[k] == x);
        } else if k < b {
            assert(part[k - a] == x);
        } else {
            assert(rest[k - b + a] == x);
        }
    }
}

} // verus!
