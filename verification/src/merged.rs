//! What many workers report, put together: warnings and fixtures.

use crate::double::Double;
use crate::explain::{one, shown, spans, two, Span, Style};
use crate::numbers::{dec, decimal};
use crate::ordered_map::{OrderedKey, OrderedMap};
use crate::text::{lines, lines_of, texts};
use vstd::prelude::*;

verus! {

/// A warning as a worker reports it.
pub struct WarningEntry {
    pub filename: String,
    pub lineno: u64,
    pub category: String,
    pub message: String,
    pub count: u64,
}

/// What tells warnings apart: the place, then the category and the message.
pub type WarningKey = ((String, u64), (String, String));

/// What tells warnings apart, in characters.
pub type WarningPlace = ((Seq<char>, u64), (Seq<char>, Seq<char>));

/// What tells a warning from others.
pub open spec fn place_of(w: WarningEntry) -> WarningPlace {
    ((w.filename@, w.lineno), (w.category@, w.message@))
}

/// How often there was a warning.
pub open spec fn times(ws: Seq<WarningEntry>, k: WarningPlace) -> nat
    decreases ws.len(),
{
    if ws.len() == 0 {
        0
    } else {
        times(ws.drop_last(), k) + (if place_of(ws.last()) == k {
            ws.last().count as nat
        } else {
            0
        })
    }
}

/// How many warnings there were.
pub open spec fn warnings_total(ws: Seq<WarningEntry>) -> nat
    decreases ws.len(),
{
    if ws.len() == 0 {
        0
    } else {
        warnings_total(ws.drop_last()) + ws.last().count as nat
    }
}

/// Whether a warning is in a list.
pub open spec fn warned(ws: Seq<WarningEntry>, k: WarningPlace) -> bool {
    exists|i: int| 0 <= i < ws.len() && place_of(#[trigger] ws[i]) == k
}

/// Whether a map says how often there was a warning.
pub open spec fn tells(m: Map<WarningPlace, u64>, ws: Seq<WarningEntry>, k: WarningPlace) -> bool {
    m.contains_key(k) == warned(ws, k) && (m.contains_key(k) ==> m[k] == times(ws, k))
}

proof fn lemma_times_fit(ws: Seq<WarningEntry>, k: WarningPlace)
    ensures
        times(ws, k) <= warnings_total(ws),
    decreases ws.len(),
{
    if ws.len() > 0 {
        lemma_times_fit(ws.drop_last(), k);
    }
}

/// Fewer warnings are no more.
pub proof fn lemma_totals_grow(ws: Seq<WarningEntry>, n: int)
    requires
        0 <= n <= ws.len(),
    ensures
        warnings_total(ws.take(n)) <= warnings_total(ws),
    decreases ws.len(),
{
    if n < ws.len() {
        lemma_totals_grow(ws.drop_last(), n);
        assert(ws.drop_last().take(n) =~= ws.take(n));
    } else {
        assert(ws.take(n) =~= ws);
    }
}

proof fn lemma_not_warned(ws: Seq<WarningEntry>, k: WarningPlace)
    requires
        !warned(ws, k),
    ensures
        times(ws, k) == 0,
    decreases ws.len(),
{
    if ws.len() > 0 {
        assert(place_of(ws[ws.len() - 1]) != k);
        assert(!warned(ws.drop_last(), k)) by {
            if warned(ws.drop_last(), k) {
                let i = choose|i: int|
                    0 <= i < ws.drop_last().len() && place_of(#[trigger] ws.drop_last()[i]) == k;
                assert(place_of(ws[i]) == k);
            }
        }
        lemma_not_warned(ws.drop_last(), k);
    }
}

/// Counts warnings, those at one place with one message together.
pub fn merge_warnings(ws: &[WarningEntry]) -> (res: OrderedMap<WarningKey, u64>)
    requires
        warnings_total(ws@) <= u64::MAX,
    ensures
        forall|k: WarningPlace| #[trigger] tells(res@, ws@, k),
{
    let mut out: OrderedMap<WarningKey, u64> = OrderedMap::new();
    let mut i: usize = 0;
    while i < ws.len()
        invariant
            i <= ws.len(),
            warnings_total(ws@) <= u64::MAX,
            forall|k: WarningPlace| #[trigger] tells(out@, ws@.take(i as int), k),
        decreases ws.len() - i,
    {
        let w = &ws[i];
        let ghost sofar = ws@.take(i as int);
        let ghost more = ws@.take(i + 1);
        let ghost before = out@;
        let ghost here = place_of(*w);
        proof {
            assert(more.drop_last() =~= sofar);
            assert(more.last() == *w);
            lemma_totals_grow(ws@, i + 1);
            lemma_times_fit(more, here);
            assert(tells(before, sofar, here));
            if !warned(sofar, here) {
                lemma_not_warned(sofar, here);
            }
        }
        let key: WarningKey = (
            (w.filename.clone(), w.lineno),
            (w.category.clone(), w.message.clone()),
        );
        assert(key.model() == here);
        let n: u64 = match out.get(&key) {
            Some(n) => *n,
            None => 0,
        };
        assert(n == times(sofar, here));
        out.insert(key, n + w.count);
        proof {
            assert forall|k: WarningPlace| #[trigger] tells(out@, more, k) by {
                assert(tells(before, sofar, k));
                assert(warned(more, k) == (warned(sofar, k) || k == here)) by {
                    if warned(sofar, k) {
                        let j = choose|j: int|
                            0 <= j < sofar.len() && place_of(#[trigger] sofar[j]) == k;
                        assert(place_of(more[j]) == k);
                    }
                    if k == here {
                        assert(place_of(more[i as int]) == k);
                    }
                    if warned(more, k) {
                        let j = choose|j: int|
                            0 <= j < more.len() && place_of(#[trigger] more[j]) == k;
                        if j < i {
                            assert(place_of(sofar[j]) == k);
                        }
                    }
                }
            }
        }
        i += 1;
    }
    assert(ws@.take(ws.len() as int) =~= ws@);
    out
}

/// The lines on a warning and how often there was one.
pub open spec fn warning_rows(k: WarningKey, n: u64) -> Seq<Seq<(Style, Seq<char>)>> {
    let head = k.0.0@ + ":"@ + decimal(k.0.1 as nat) + ": "@ + k.1.0@;
    let full = if n > 1 {
        head + "  ("@ + decimal(n as nat) + " occurrences)"@
    } else {
        head
    };
    let ls = lines_of(k.1.1@);
    let m: nat = if ls.len() < 3 {
        ls.len()
    } else {
        3
    };
    seq![seq![(Style::Plain, full)]] + Seq::new(m, |i: int| seq![(Style::Plain, "  "@ + ls[i])])
}

fn list_warning(k: &WarningKey, n: u64) -> (res: Vec<Vec<Span>>)
    ensures
        shown(res@) == warning_rows(*k, n),
{
    let mut out: Vec<Vec<Span>> = Vec::new();
    let mut head = k.0.0.clone();
    head.append(":");
    head.append(dec(k.0.1).as_str());
    head.append(": ");
    head.append(k.1.0.as_str());
    if n > 1 {
        head.append("  (");
        head.append(dec(n).as_str());
        head.append(" occurrences)");
    }
    let ghost full = head@;
    out.push(one(Style::Plain, head));
    let ls = lines(k.1.1.as_str());
    let ghost all = lines_of(k.1.1@);
    assert(texts(ls@).len() == ls@.len());
    let m: usize = if ls.len() < 3 { ls.len() } else { 3 };
    let mut i: usize = 0;
    while i < m
        invariant
            i <= m <= ls.len(),
            all == texts(ls@),
            out.len() == i + 1,
            spans(out@[0]@) == seq![(Style::Plain, full)],
            forall|j: int|
                1 <= j < i + 1 ==> spans((#[trigger] out@[j])@) == seq![
                    (Style::Plain, "  "@ + all[j - 1]),
                ],
        decreases m - i,
    {
        let mut line = String::from_str("  ");
        line.append(ls[i].as_str());
        assert(all[i as int] == ls@[i as int]@);
        out.push(one(Style::Plain, line));
        i += 1;
    }
    assert(shown(out@) =~= warning_rows(*k, n));
    out
}

/// The lines on the first `n` warnings.
pub open spec fn all_rows(list: Seq<(WarningKey, u64)>, n: nat) -> Seq<Seq<(Style, Seq<char>)>>
    decreases n,
{
    if n == 0 {
        Seq::empty()
    } else {
        all_rows(list, (n - 1) as nat) + warning_rows(list[n - 1].0, list[n - 1].1)
    }
}

/// The lines on warnings; none where there were none.
pub open spec fn summary_rows(list: Seq<(WarningKey, u64)>) -> Seq<Seq<(Style, Seq<char>)>> {
    if list.len() == 0 {
        Seq::empty()
    } else {
        (seq![
            seq![
                (Style::Plain, "\n"@),
                (Style::Yellow, "=========== warnings summary ==========="@),
            ],
        ] + all_rows(list, list.len())).push(
            seq![(Style::Yellow, "-- use -W error::... to turn warnings into errors --"@)],
        )
    }
}

/// Writes the lines on warnings, by place.
pub fn warnings_summary(merged: &OrderedMap<WarningKey, u64>) -> (res: Vec<Vec<Span>>)
    ensures
        shown(res@) == summary_rows(merged.list()),
{
    let n = merged.len();
    let ghost list = merged.list();
    let mut out: Vec<Vec<Span>> = Vec::new();
    assert(shown(out@) =~= Seq::empty());
    if n == 0 {
        return out;
    }
    out.push(
        two(
            Style::Plain,
            "\n",
            Style::Yellow,
            "=========== warnings summary ===========".to_owned(),
        ),
    );
    let ghost head = seq![
        seq![
            (Style::Plain, "\n"@),
            (Style::Yellow, "=========== warnings summary ==========="@),
        ],
    ];
    let mut i: usize = 0;
    assert(shown(out@) =~= head + all_rows(list, 0));
    while i < n
        invariant
            i <= n,
            n == list.len(),
            list == merged.list(),
            shown(out@) == head + all_rows(list, i as nat),
        decreases n - i,
    {
        let (k, c) = merged.at(i);
        let mut more = list_warning(k, *c);
        let ghost before = out@;
        let ghost added = more@;
        out.append(&mut more);
        assert(shown(out@) =~= shown(before) + shown(added));
        assert(head + all_rows(list, (i + 1) as nat) =~= head + all_rows(list, i as nat)
            + warning_rows(list[i as int].0, list[i as int].1));
        i += 1;
    }
    let ghost before = out@;
    let last = one(
        Style::Yellow,
        "-- use -W error::... to turn warnings into errors --".to_owned(),
    );
    let ghost tail = spans(last@);
    out.push(last);
    assert(shown(out@) =~= shown(before).push(tail));
    out
}

/// What a worker reports of a fixture.
pub struct FixtureStat {
    pub name: String,
    pub scope: String,
    /// How often it was set up.
    pub count: u64,
    /// How long that took.
    pub total: Double,
}

/// What all workers report of a fixture.
pub struct MergedFixture {
    pub name: String,
    pub scope: String,
    /// How often it was set up.
    pub count: u64,
    /// How long that took on each worker.
    pub totals: Vec<Double>,
}

/// How often a fixture was set up.
pub open spec fn uses(all: Seq<FixtureStat>, name: Seq<char>, scope: Seq<char>) -> nat
    decreases all.len(),
{
    if all.len() == 0 {
        0
    } else {
        uses(all.drop_last(), name, scope) + (if all.last().name@ == name && all.last().scope@
            == scope {
            all.last().count as nat
        } else {
            0
        })
    }
}

/// How long the setup of a fixture took, report by report.
pub open spec fn spent(all: Seq<FixtureStat>, name: Seq<char>, scope: Seq<char>) -> Seq<Double>
    decreases all.len(),
{
    if all.len() == 0 {
        Seq::empty()
    } else {
        let before = spent(all.drop_last(), name, scope);
        if all.last().name@ == name && all.last().scope@ == scope {
            before.push(all.last().total)
        } else {
            before
        }
    }
}

/// How often fixtures were set up.
pub open spec fn uses_total(all: Seq<FixtureStat>) -> nat
    decreases all.len(),
{
    if all.len() == 0 {
        0
    } else {
        uses_total(all.drop_last()) + all.last().count as nat
    }
}

proof fn lemma_uses_fit(all: Seq<FixtureStat>, name: Seq<char>, scope: Seq<char>)
    ensures
        uses(all, name, scope) <= uses_total(all),
    decreases all.len(),
{
    if all.len() > 0 {
        lemma_uses_fit(all.drop_last(), name, scope);
    }
}

proof fn lemma_uses_grow(all: Seq<FixtureStat>, n: int)
    requires
        0 <= n <= all.len(),
    ensures
        uses_total(all.take(n)) <= uses_total(all),
    decreases all.len(),
{
    if n < all.len() {
        lemma_uses_grow(all.drop_last(), n);
        assert(all.drop_last().take(n) =~= all.take(n));
    } else {
        assert(all.take(n) =~= all);
    }
}

/// Whether a map says of a fixture what was reported.
spec fn sums(
    m: Map<(Seq<char>, Seq<char>), (u64, Vec<Double>)>,
    all: Seq<FixtureStat>,
    k: (Seq<char>, Seq<char>),
) -> bool {
    if spent(all, k.0, k.1).len() == 0 {
        !m.contains_key(k) && uses(all, k.0, k.1) == 0
    } else {
        m.contains_key(k) && m[k].0 == uses(all, k.0, k.1) && m[k].1@ == spent(all, k.0, k.1)
    }
}

/// Whether fixtures are listed by name, then by scope, none twice.
pub open spec fn fixtures_ascend(v: Seq<MergedFixture>) -> bool {
    forall|i: int, j: int|
        0 <= i < j < v.len() ==> <(String, String) as OrderedKey>::before(
            ((#[trigger] v[i]).name@, v[i].scope@),
            ((#[trigger] v[j]).name@, v[j].scope@),
        )
}

/// Whether a fixture is in a list.
pub open spec fn fixture_listed(v: Seq<MergedFixture>, name: Seq<char>, scope: Seq<char>) -> bool {
    exists|i: int| 0 <= i < v.len() && (#[trigger] v[i]).name@ == name && v[i].scope@ == scope
}

/// Puts together what workers report of the same fixture. The times are left to be
/// added.
pub fn merge_fixtures(all: &[FixtureStat]) -> (res: Vec<MergedFixture>)
    requires
        uses_total(all@) <= u64::MAX,
    ensures
        fixtures_ascend(res@),
        forall|i: int|
            0 <= i < res@.len() ==> (#[trigger] res@[i]).count == uses(
                all@,
                res@[i].name@,
                res@[i].scope@,
            ) && res@[i].totals@ == spent(all@, res@[i].name@, res@[i].scope@),
        forall|i: int| 0 <= i < res@.len() ==> (#[trigger] res@[i]).totals@.len() > 0,
        forall|i: int|
            0 <= i < all@.len() ==> fixture_listed(
                res@,
                (#[trigger] all@[i]).name@,
                all@[i].scope@,
            ),
{
    let mut map: OrderedMap<(String, String), (u64, Vec<Double>)> = OrderedMap::new();
    let mut i: usize = 0;
    while i < all.len()
        invariant
            i <= all.len(),
            uses_total(all@) <= u64::MAX,
            forall|k: (Seq<char>, Seq<char>)| #[trigger] sums(map@, all@.take(i as int), k),
        decreases all.len() - i,
    {
        let f = &all[i];
        let ghost sofar = all@.take(i as int);
        let ghost more = all@.take(i + 1);
        let ghost before = map@;
        let ghost here = (f.name@, f.scope@);
        proof {
            assert(more.drop_last() =~= sofar);
            assert(more.last() == *f);
            lemma_uses_grow(all@, i + 1);
            lemma_uses_fit(more, here.0, here.1);
            assert(sums(before, sofar, here));
        }
        let key = (f.name.clone(), f.scope.clone());
        assert(key.model() == here);
        let (count, totals) = match map.remove(&key) {
            Some(p) => p,
            None => (0, Vec::new()),
        };
        let mut totals = totals;
        assert(count == uses(sofar, here.0, here.1));
        assert(totals@ =~= spent(sofar, here.0, here.1));
        totals.push(f.total);
        map.insert(key, (count + f.count, totals));
        proof {
            assert forall|k: (Seq<char>, Seq<char>)| #[trigger] sums(map@, more, k) by {
                assert(sums(before, sofar, k));
            }
        }
        i += 1;
    }
    assert(all@.take(all.len() as int) =~= all@);
    let n = map.len();
    let ghost list = map.list();
    let mut out: Vec<MergedFixture> = Vec::new();
    let mut j: usize = 0;
    while j < n
        invariant
            j <= n,
            n == list.len(),
            list == map.list(),
            map.listed(),
            forall|k: (Seq<char>, Seq<char>)| #[trigger] sums(map@, all@, k),
            out.len() == j,
            forall|x: int|
                0 <= x < j ==> (#[trigger] out@[x]).name@ == list[x].0.0@ && out@[x].scope@
                    == list[x].0.1@ && out@[x].count == uses(all@, out@[x].name@, out@[x].scope@)
                    && out@[x].totals@ == spent(all@, out@[x].name@, out@[x].scope@)
                    && out@[x].totals@.len() > 0,
        decreases n - j,
    {
        let (k, v) = map.at(j);
        proof {
            assert(map@.contains_key(list[j as int].0.model()));
            assert(map@[list[j as int].0.model()] == list[j as int].1);
            assert(sums(map@, all@, (k.0@, k.1@)));
        }
        let totals = copy_doubles(&v.1);
        out.push(
            MergedFixture { name: k.0.clone(), scope: k.1.clone(), count: v.0, totals },
        );
        j += 1;
    }
    proof {
        assert forall|a: int, b: int| 0 <= a < b < out@.len() implies <(
            String,
            String,
        ) as OrderedKey>::before(
            ((#[trigger] out@[a]).name@, out@[a].scope@),
            ((#[trigger] out@[b]).name@, out@[b].scope@),
        ) by {
            assert(<(String, String) as OrderedKey>::before(
                list[a].0.model(),
                list[b].0.model(),
            ));
        }
        assert forall|i: int| 0 <= i < all@.len() implies fixture_listed(
            out@,
            (#[trigger] all@[i]).name@,
            all@[i].scope@,
        ) by {
            let k = (all@[i].name@, all@[i].scope@);
            lemma_spent_nonempty(all@, i);
            assert(sums(map@, all@, k));
            let x = choose|x: int| #[trigger] crate::ordered_map::key_at(list, x, k);
            assert(out@[x].name@ == k.0);
        }
    }
    out
}

proof fn lemma_spent_nonempty(all: Seq<FixtureStat>, i: int)
    requires
        0 <= i < all.len(),
    ensures
        spent(all, all[i].name@, all[i].scope@).len() > 0,
    decreases all.len(),
{
    if i < all.len() - 1 {
        lemma_spent_nonempty(all.drop_last(), i);
    }
}

fn copy_doubles(v: &Vec<Double>) -> (res: Vec<Double>)
    ensures
        res@ == v@,
{
    let mut out: Vec<Double> = Vec::new();
    let mut i: usize = 0;
    while i < v.len()
        invariant
            i <= v.len(),
            out@ == v@.take(i as int),
        decreases v.len() - i,
    {
        let ghost before = out@;
        out.push(v[i]);
        i += 1;
        assert(v@.take(i as int) =~= before.push(v@[i - 1]));
    }
    assert(v@.take(v.len() as int) =~= v@);
    out
}

proof fn lemma_times_add(a: Seq<WarningEntry>, b: Seq<WarningEntry>, k: WarningPlace)
    ensures
        times(a + b, k) == times(a, k) + times(b, k),
    decreases b.len(),
{
    if b.len() == 0 {
        assert(a + b =~= a);
    } else {
        lemma_times_add(a, b.drop_last(), k);
        assert((a + b).drop_last() =~= a + b.drop_last());
    }
}

/// Warnings of workers can be put together in any order.
pub proof fn theorem_order_of_workers_is_free(
    a: Seq<WarningEntry>,
    b: Seq<WarningEntry>,
    k: WarningPlace,
)
    ensures
        times(a + b, k) == times(b + a, k),
        warned(a + b, k) == warned(b + a, k),
{
    lemma_times_add(a, b, k);
    lemma_times_add(b, a, k);
    let ab = a + b;
    let ba = b + a;
    if warned(ab, k) {
        let i = choose|i: int| 0 <= i < ab.len() && place_of(#[trigger] ab[i]) == k;
        let j = if i < a.len() {
            i + b.len()
        } else {
            i - a.len()
        };
        assert(place_of(ba[j]) == k);
    }
    if warned(ba, k) {
        let i = choose|i: int| 0 <= i < ba.len() && place_of(#[trigger] ba[i]) == k;
        let j = if i < b.len() {
            i + a.len()
        } else {
            i - b.len()
        };
        assert(place_of(ab[j]) == k);
    }
}

/// A warning counts as often as it was given at its place, and for no other place.
pub proof fn theorem_warnings_add_up(ws: Seq<WarningEntry>, w: WarningEntry, k: WarningPlace)
    ensures
        times(ws.push(w), place_of(w)) == times(ws, place_of(w)) + w.count,
        k != place_of(w) ==> times(ws.push(w), k) == times(ws, k),
        times(Seq::<WarningEntry>::empty(), k) == 0,
        warned(ws.push(w), place_of(w)),
        k != place_of(w) ==> (warned(ws.push(w), k) <==> warned(ws, k)),
{
    let all = ws.push(w);
    assert(all.drop_last() =~= ws);
    assert(place_of(all[ws.len() as int]) == place_of(w));
    if k != place_of(w) && warned(all, k) {
        let i = choose|i: int| 0 <= i < all.len() && place_of(#[trigger] all[i]) == k;
        assert(ws[i] == all[i]);
    }
    if warned(ws, k) {
        let i = choose|i: int| 0 <= i < ws.len() && place_of(#[trigger] ws[i]) == k;
        assert(all[i] == ws[i]);
    }
}

/// A place is where a warning is from, what kind it is and what it says: warnings that differ
/// in one of them are told apart.
pub proof fn theorem_warnings_are_told_apart(a: WarningEntry, b: WarningEntry)
    ensures
        place_of(a) == place_of(b) <==> a.filename@ == b.filename@ && a.lineno == b.lineno
            && a.category@ == b.category@ && a.message@ == b.message@,
{
}

/// A warning is shown with its place and its kind, with how often it was given where that was
/// more than once, and with the first three lines of what it says.
pub proof fn theorem_how_a_warning_is_shown(k: WarningKey, n: u64, i: int)
    ensures
        ({
            let rows = warning_rows(k, n);
            let head = k.0.0@ + ":"@ + decimal(k.0.1 as nat) + ": "@ + k.1.0@;
            let said = lines_of(k.1.1@);
            &&& n <= 1 ==> rows[0] == seq![(Style::Plain, head)]
            &&& n >= 2 ==> rows[0] == seq![
                (Style::Plain, head + "  ("@ + decimal(n as nat) + " occurrences)"@),
            ]
            &&& said.len() >= 3 ==> rows.len() == 4
            &&& said.len() < 3 ==> rows.len() == 1 + said.len()
            &&& 1 <= i < rows.len() ==> rows[i] == seq![(Style::Plain, "  "@ + said[i - 1])]
        }),
{
}

/// A summary is shown where there was a warning.
pub proof fn theorem_a_summary_needs_a_warning(list: Seq<(WarningKey, u64)>)
    ensures
        summary_rows(list).len() == 0 <==> list.len() == 0,
        list.len() > 0 ==> summary_rows(list).last() == seq![
            (Style::Yellow, "-- use -W error::... to turn warnings into errors --"@),
        ] && summary_rows(list).subrange(1, summary_rows(list).len() - 1) == all_rows(
            list,
            list.len(),
        ),
{
    if list.len() > 0 {
        assert(summary_rows(list).subrange(1, summary_rows(list).len() - 1) =~= all_rows(
            list,
            list.len(),
        ));
    }
}

/// A fixture was set up as often as on all workers together, and took the time that each of
/// them gave; fixtures are told apart by name and by scope.
pub proof fn theorem_fixtures_add_up(
    all: Seq<FixtureStat>,
    f: FixtureStat,
    name: Seq<char>,
    scope: Seq<char>,
)
    ensures
        name == f.name@ && scope == f.scope@ ==> uses(all.push(f), name, scope) == uses(
            all,
            name,
            scope,
        ) + f.count && spent(all.push(f), name, scope) == spent(all, name, scope).push(f.total),
        name != f.name@ || scope != f.scope@ ==> uses(all.push(f), name, scope) == uses(
            all,
            name,
            scope,
        ) && spent(all.push(f), name, scope) == spent(all, name, scope),
        uses(Seq::<FixtureStat>::empty(), name, scope) == 0,
        spent(Seq::<FixtureStat>::empty(), name, scope).len() == 0,
{
    assert(all.push(f).drop_last() =~= all);
}

} // verus!
