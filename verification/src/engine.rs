//! Derivation algorithms over relation snapshots.
//!
//! Set difference keyed on identity, point-in-time follower counts, the
//! partition of a collection by observed calendar date, and the month-by-month
//! growth series. All are pure functions over immutable inputs.

use vstd::prelude::*;
use crate::date::{Date, Month, date_key, date_of_timestamp, triple_le, triple_lt, date_le,
    date_lt, month_wf, month_key, month_index, month_succ, month_pred, month_plus, first_day,
    next_month, prev_month};
use crate::model::{Relation, Relationships, RelationError};
use crate::order::{chars_le, lemma_chars_le_refl, lemma_chars_le_total, lemma_chars_le_trans};
use vstd::multiset::Multiset;

verus! {

/// Some relation in `s` has identity `n`, whatever its timestamp.
pub open spec fn has_name(s: Seq<Relation>, n: Seq<char>) -> bool {
    exists|i: int| 0 <= i < s.len() && s[i]@.name == n
}

/// The relations of `f` whose identity appears nowhere in `w`, in the order
/// they stand in `f`.
pub open spec fn not_reciprocated(f: Seq<Relation>, w: Seq<Relation>) -> Seq<Relation>
    decreases f.len(),
{
    if f.len() == 0 {
        Seq::empty()
    } else {
        let rest = not_reciprocated(f.drop_last(), w);
        if has_name(w, f.last()@.name) {
            rest
        } else {
            rest.push(f.last())
        }
    }
}

/// How many relations of `s` were first observed on or before the date `d`.
pub open spec fn count_on_or_before(s: Seq<Relation>, d: (int, int, int)) -> int
    decreases s.len(),
{
    if s.len() == 0 {
        0int
    } else {
        count_on_or_before(s.drop_last(), d)
            + if triple_le(date_of_timestamp(s.last()@.ts), d) { 1int } else { 0int }
    }
}

/// Counting on-or-before is monotonic non-decreasing in the date.
pub proof fn lemma_count_monotonic(s: Seq<Relation>, d1: (int, int, int), d2: (int, int, int))
    requires
        triple_le(d1, d2),
    ensures
        count_on_or_before(s, d1) <= count_on_or_before(s, d2),
    decreases s.len(),
{
    if s.len() > 0 {
        lemma_count_monotonic(s.drop_last(), d1, d2);
    }
}

/// Whether some relation of `v` has the identity of `x`.
fn contains_name(v: &Vec<Relation>, x: &Relation) -> (r: bool)
    ensures
        r == has_name(v@, x@.name),
{
    let mut j: usize = 0;
    while j < v.len()
        invariant
            0 <= j <= v@.len(),
            forall|i: int| 0 <= i < j ==> v@[i]@.name != x@.name,
        decreases v@.len() - j,
    {
        if v[j] == *x {
            return true;
        }
        j += 1;
    }
    false
}

/// How many relations of `rels` were first observed on or before `date`.
pub fn count_observed_on_or_before(rels: &Vec<Relation>, date: Date) -> (r: usize)
    ensures
        r == count_on_or_before(rels@, date_key(date)),
{
    let mut c: usize = 0;
    let mut i: usize = 0;
    while i < rels.len()
        invariant
            0 <= i <= rels@.len(),
            c == count_on_or_before(rels@.take(i as int), date_key(date)),
            c <= i,
        decreases rels@.len() - i,
    {
        let d = rels[i].started_at();
        if date_le(&d, &date) {
            c += 1;
        }
        i += 1;
        proof {
            assert(rels@.take(i as int).drop_last() =~= rels@.take(i - 1));
        }
    }
    proof {
        assert(rels@.take(rels@.len() as int) =~= rels@);
    }
    c
}

/// How many relations of `s` were first observed exactly on the date `d`.
pub open spec fn count_on_date(s: Seq<Relation>, d: (int, int, int)) -> int
    decreases s.len(),
{
    if s.len() == 0 {
        0int
    } else {
        count_on_date(s.drop_last(), d)
            + if date_of_timestamp(s.last()@.ts) == d { 1int } else { 0int }
    }
}

/// The date `d` is the key of some group in `g`.
pub open spec fn date_covered(d: (int, int, int), g: Seq<(Date, usize)>) -> bool {
    exists|k: int| 0 <= k < g.len() && date_key(g[k].0) == d
}

/// Group keys come in strictly ascending calendar order, so no key repeats.
pub open spec fn groups_sorted(g: Seq<(Date, usize)>) -> bool {
    forall|k1: int, k2: int| 0 <= k1 < k2 < g.len()
        ==> triple_lt(date_key(g[k1].0), date_key(g[k2].0))
}

/// A date that no relation of `s` was observed on has a zero count.
proof fn lemma_count_on_date_zero(s: Seq<Relation>, d: (int, int, int))
    requires
        forall|j: int| 0 <= j < s.len() ==> date_of_timestamp(s[j]@.ts) != d,
    ensures
        count_on_date(s, d) == 0,
    decreases s.len(),
{
    if s.len() > 0 {
        lemma_count_on_date_zero(s.drop_last(), d);
    }
}

/// The first position in `g` whose key is not strictly before `d`.
fn find_slot(g: &Vec<(Date, usize)>, d: &Date) -> (p: usize)
    ensures
        0 <= p <= g@.len(),
        forall|k: int| 0 <= k < p ==> triple_lt(date_key(g@[k].0), date_key(*d)),
        p < g@.len() ==> triple_le(date_key(*d), date_key(g@[p as int].0)),
{
    let mut p: usize = 0;
    while p < g.len()
        invariant
            0 <= p <= g@.len(),
            forall|k: int| 0 <= k < p ==> triple_lt(date_key(g@[k].0), date_key(*d)),
        decreases g@.len() - p,
    {
        if !date_lt(&g[p].0, d) {
            return p;
        }
        p += 1;
    }
    p
}

/// Partitions `rels` by observed calendar date: one group per distinct date,
/// in ascending date order, counting the relations observed on that date.
/// Adjacency in the input is not required — this is a full partition.
pub fn group_by_observed_date(rels: &Vec<Relation>) -> (g: Vec<(Date, usize)>)
    ensures
        groups_sorted(g@),
        forall|k: int| 0 <= k < g@.len()
            ==> g@[k].1 == count_on_date(rels@, date_key(g@[k].0)),
        forall|i: int| 0 <= i < rels@.len()
            ==> date_covered(date_of_timestamp(rels@[i]@.ts), g@),
        forall|k: int| 0 <= k < g@.len() ==> g@[k].1 >= 1,
{
    let mut g: Vec<(Date, usize)> = Vec::new();
    let mut i: usize = 0;
    while i < rels.len()
        invariant
            0 <= i <= rels@.len(),
            groups_sorted(g@),
            forall|k: int| 0 <= k < g@.len()
                ==> g@[k].1 == count_on_date(rels@.take(i as int), date_key(g@[k].0)),
            forall|k: int| 0 <= k < g@.len() ==> g@[k].1 <= i,
            forall|j: int| 0 <= j < i
                ==> date_covered(date_of_timestamp(rels@[j]@.ts), g@),
            forall|k: int| 0 <= k < g@.len() ==> g@[k].1 >= 1,
        decreases rels@.len() - i,
    {
        let ghost old_g = g@;
        let ghost oldi = i as int;
        let d = rels[i].started_at();
        let ghost dk = date_key(d);
        let p = find_slot(&g, &d);
        if p < g.len() && g[p].0 == d {
            let e = g[p];
            g.remove(p);
            g.insert(p, (e.0, e.1 + 1));
            proof {
                assert(g@ =~= old_g.update(p as int, (e.0, (e.1 + 1) as usize)));
                assert(forall|k: int| 0 <= k < g@.len() ==> (#[trigger] g@[k]).0 == old_g[k].0);
                assert forall|k: int| 0 <= k < g@.len() && k != p implies
                    date_key((#[trigger] g@[k]).0) != dk by {
                    if k < p {
                        assert(triple_lt(date_key(old_g[k].0), date_key(old_g[p as int].0)));
                    } else {
                        assert(triple_lt(date_key(old_g[p as int].0), date_key(old_g[k].0)));
                    }
                }
                assert forall|k1: int, k2: int| 0 <= k1 < k2 < g@.len() implies
                    triple_lt(date_key((#[trigger] g@[k1]).0), date_key((#[trigger] g@[k2]).0)) by {
                    assert(triple_lt(date_key(old_g[k1].0), date_key(old_g[k2].0)));
                }
                assert forall|k: int| 0 <= k < g@.len() implies (#[trigger] g@[k]).1
                    == count_on_date(rels@.take(oldi), date_key(g@[k].0))
                    + (if date_key(g@[k].0) == dk { 1int } else { 0int }) by {
                    if k != p {
                        assert(g@[k].1 == old_g[k].1);
                    }
                }
                assert forall|j: int| 0 <= j < oldi implies
                    date_covered(date_of_timestamp(rels@[j]@.ts), g@) by {
                    let dj = date_of_timestamp(rels@[j]@.ts);
                    assert(date_covered(dj, old_g));
                    let k = choose|k: int| 0 <= k < old_g.len() && date_key(old_g[k].0) == dj;
                    assert(0 <= k < g@.len() && date_key(g@[k].0) == dj);
                }
                assert(0 <= (p as int) < g@.len() && date_key(g@[p as int].0) == dk);
                assert(forall|k: int| 0 <= k < g@.len() ==> (#[trigger] g@[k]).1 <= oldi + 1);
            }
        } else {
            proof {
                assert forall|k: int| 0 <= k < old_g.len() implies
                    date_key((#[trigger] old_g[k]).0) != dk by {
                    if k < p {
                        assert(triple_lt(date_key(old_g[k].0), dk));
                    } else {
                        assert(triple_le(dk, date_key(old_g[p as int].0)));
                        if k > p {
                            assert(triple_lt(date_key(old_g[p as int].0), date_key(old_g[k].0)));
                        }
                    }
                }
                assert forall|j: int| 0 <= j < oldi implies
                    date_of_timestamp(rels@[j]@.ts) != dk by {
                    let dj = date_of_timestamp(rels@[j]@.ts);
                    assert(date_covered(dj, old_g));
                    if dj == dk {
                        let k = choose|k: int| 0 <= k < old_g.len() && date_key(old_g[k].0) == dj;
                    }
                }
                lemma_count_on_date_zero(rels@.take(oldi), dk);
            }
            g.insert(p, (d, 1));
            proof {
                assert(g@ =~= old_g.insert(p as int, (d, 1usize)));
                assert(forall|k: int| 0 <= k < p ==> #[trigger] g@[k] == old_g[k]);
                assert(g@[p as int] == (d, 1usize));
                assert(forall|k: int| p < k < g@.len() ==> #[trigger] g@[k] == old_g[k - 1]);
                assert forall|k: int| 0 <= k < g@.len() && k != p implies
                    date_key((#[trigger] g@[k]).0) != dk by {}
                assert forall|k1: int, k2: int| 0 <= k1 < k2 < g@.len() implies
                    triple_lt(date_key((#[trigger] g@[k1]).0), date_key((#[trigger] g@[k2]).0)) by {
                    if k2 == p {
                        assert(triple_lt(date_key(old_g[k1].0), dk));
                    } else if k1 == p {
                        assert(triple_le(dk, date_key(old_g[p as int].0)));
                        assert(date_key(old_g[p as int].0) != dk);
                        if k2 - 1 > p {
                            assert(triple_lt(date_key(old_g[p as int].0), date_key(old_g[k2 - 1].0)));
                        }
                    } else if k1 < p && k2 > p {
                        assert(triple_lt(date_key(old_g[k1].0), date_key(old_g[k2 - 1].0)));
                    }
                }
                assert forall|k: int| 0 <= k < g@.len() implies (#[trigger] g@[k]).1
                    == count_on_date(rels@.take(oldi), date_key(g@[k].0))
                    + (if date_key(g@[k].0) == dk { 1int } else { 0int }) by {
                    if k == p {
                        assert(count_on_date(rels@.take(oldi), dk) == 0);
                    }
                }
                assert forall|j: int| 0 <= j < oldi implies
                    date_covered(date_of_timestamp(rels@[j]@.ts), g@) by {
                    let dj = date_of_timestamp(rels@[j]@.ts);
                    assert(date_covered(dj, old_g));
                    let k = choose|k: int| 0 <= k < old_g.len() && date_key(old_g[k].0) == dj;
                    if k < p {
                        assert(0 <= k < g@.len() && date_key(g@[k].0) == dj);
                    } else {
                        assert(0 <= k + 1 < g@.len() && date_key(g@[k + 1].0) == dj);
                    }
                }
                assert(0 <= (p as int) < g@.len() && date_key(g@[p as int].0) == dk);
                assert(forall|k: int| 0 <= k < g@.len() ==> (#[trigger] g@[k]).1 <= oldi + 1);
            }
        }
        i += 1;
        proof {
            assert(dk == date_of_timestamp(rels@[oldi]@.ts));
            assert(rels@.take(i as int).drop_last() =~= rels@.take(oldi));
            assert(rels@.take(i as int).last() == rels@[oldi]);
            assert forall|k: int| 0 <= k < g@.len() implies
                (#[trigger] g@[k]).1 == count_on_date(rels@.take(i as int), date_key(g@[k].0)) by {
                assert(count_on_date(rels@.take(i as int), date_key(g@[k].0))
                    == count_on_date(rels@.take(oldi), date_key(g@[k].0))
                    + if date_of_timestamp(rels@[oldi]@.ts) == date_key(g@[k].0) { 1int }
                        else { 0int });
            }
            assert forall|j: int| 0 <= j < i implies
                date_covered(date_of_timestamp(rels@[j]@.ts), g@) by {
                if j == oldi {
                    assert(0 <= (p as int) < g@.len() && date_key(g@[p as int].0) == dk);
                }
            }
        }
    }
    proof {
        assert(rels@.take(rels@.len() as int) =~= rels@);
    }
    g
}

impl Relationships {
    /// The accounts the subject follows that do not follow back: every
    /// relation of `following` whose identity has no equal in `followers`,
    /// in `following` order. Timestamps play no part in the match.
    pub fn following_not_followers(&self) -> (r: Vec<Relation>)
        ensures
            r@ == not_reciprocated(self@.following, self@.followers),
    {
        let f = self.following();
        let w = self.followers();
        let mut out: Vec<Relation> = Vec::new();
        let mut i: usize = 0;
        while i < f.len()
            invariant
                0 <= i <= f@.len(),
                f@ == self@.following,
                w@ == self@.followers,
                out@ == not_reciprocated(f@.take(i as int), w@),
            decreases f@.len() - i,
        {
            if !contains_name(w, &f[i]) {
                let rel = f[i].clone();
                out.push(rel);
            }
            i += 1;
            proof {
                assert(f@.take(i as int).drop_last() =~= f@.take(i - 1));
            }
        }
        proof {
            assert(f@.take(f@.len() as int) =~= f@);
        }
        out
    }

    /// The follower count as of the end of `date`: how many followers were
    /// first observed on or before it.
    pub fn follower_count_on(&self, date: Date) -> (r: usize)
        ensures
            r == count_on_or_before(self@.followers, date_key(date)),
    {
        count_observed_on_or_before(self.followers(), date)
    }

    /// Walks the calendar months from `start` to `end` inclusive, stepping by
    /// one calendar month. Each row carries the first day of its month, the
    /// follower count as of that day, and the growth since the previous
    /// month's row (for the first row, since the month before `start`).
    /// Fails with `EmptyRange`, returning no rows at all, exactly when `end`
    /// precedes `start`.
    pub fn monthly_series(&self, start: Month, end: Month) -> (r: Result<
        Vec<MonthEntry>,
        RelationError,
    >)
        requires
            month_wf(start),
            month_wf(end),
            start.year > i32::MIN,
        ensures
            match r {
                Ok(v) => {
                    &&& month_index(month_key(start)) <= month_index(month_key(end))
                    &&& v@.len() == month_index(month_key(end)) - month_index(month_key(start))
                        + 1
                    &&& forall|k: int| 0 <= k < v@.len()
                        ==> date_key((#[trigger] v@[k]).month_start) == first_day(
                            month_plus(month_key(start), k as nat),
                        )
                    &&& forall|k: int| 0 <= k < v@.len()
                        ==> (#[trigger] v@[k]).cumulative == count_on_or_before(
                            self@.followers,
                            first_day(month_plus(month_key(start), k as nat)),
                        )
                    &&& v@[0].delta == v@[0].cumulative - count_on_or_before(
                        self@.followers,
                        first_day(month_pred(month_key(start))),
                    )
                    &&& forall|k: int| 1 <= k < v@.len()
                        ==> (#[trigger] v@[k]).delta == v@[k].cumulative - v@[k
                            - 1].cumulative
                },
                Err(e) => e == RelationError::EmptyRange && month_index(month_key(end))
                    < month_index(month_key(start)),
            },
    {
        if end.year < start.year || (end.year == start.year && end.month < start.month) {
            return Err(RelationError::EmptyRange);
        }
        let followers = self.followers();
        let base = prev_month(&start);
        let mut prev_count = count_observed_on_or_before(
            followers,
            Date { year: base.year, month: base.month, day: 1 },
        );
        let mut out: Vec<MonthEntry> = Vec::new();
        let mut cur = start;
        loop
            invariant_except_break
                month_wf(cur),
                followers@ == self@.followers,
                month_key(cur) == month_plus(month_key(start), out@.len() as nat),
                month_index(month_key(cur)) <= month_index(month_key(end)),
                out@.len() == month_index(month_key(cur)) - month_index(month_key(start)),
                prev_count as int == if out@.len() == 0 {
                    count_on_or_before(followers@, first_day(month_pred(month_key(start))))
                } else {
                    out@[out@.len() - 1].cumulative as int
                },
            invariant
                month_wf(start),
                month_wf(end),
                followers@ == self@.followers,
                forall|k: int| 0 <= k < out@.len()
                    ==> date_key((#[trigger] out@[k]).month_start) == first_day(
                        month_plus(month_key(start), k as nat),
                    ),
                forall|k: int| 0 <= k < out@.len()
                    ==> (#[trigger] out@[k]).cumulative == count_on_or_before(
                        followers@,
                        first_day(month_plus(month_key(start), k as nat)),
                    ),
                out@.len() > 0 ==> out@[0].delta == out@[0].cumulative - count_on_or_before(
                    followers@,
                    first_day(month_pred(month_key(start))),
                ),
                forall|k: int| 1 <= k < out@.len()
                    ==> (#[trigger] out@[k]).delta == out@[k].cumulative - out@[k - 1].cumulative,
            ensures
                out@.len() == month_index(month_key(end)) - month_index(month_key(start)) + 1,
            decreases month_index(month_key(end)) - month_index(month_key(cur)),
        {
            let ghost n = out@.len() as int;
            let ms = Date { year: cur.year, month: cur.month, day: 1 };
            proof {
                assert(date_key(ms) == first_day(month_key(cur)));
                let prevpair = if n == 0 {
                    month_pred(month_key(start))
                } else {
                    month_plus(month_key(start), (n - 1) as nat)
                };
                assert(month_key(cur) == month_succ(prevpair));
                assert(triple_le(first_day(prevpair), first_day(month_key(cur))));
                lemma_count_monotonic(
                    followers@,
                    first_day(prevpair),
                    first_day(month_key(cur)),
                );
            }
            let c = count_observed_on_or_before(followers, ms);
            out.push(MonthEntry { month_start: ms, cumulative: c, delta: c - prev_count });
            if cur.year == end.year && cur.month == end.month {
                break;
            }
            proof {
                assert(month_key(cur) != month_key(end));
                assert(month_index(month_key(cur)) < month_index(month_key(end)));
            }
            cur = next_month(&cur);
            prev_count = c;
        }
        Ok(out)
    }
}

/// One row of the month-by-month growth series: the first day of the month,
/// the follower count as of that day, and the growth since the previous row.
#[derive(Clone, Copy, PartialEq, Eq, Structural, Debug)]
pub struct MonthEntry {
    pub month_start: Date,
    pub cumulative: usize,
    pub delta: usize,
}

/// The set difference is exactly identity-keyed: an identity appears in the
/// result iff it stands in `f` and nowhere in `w` — timestamps play no part —
/// every returned relation is a relation of `f`, and the result is empty when
/// every identity of `f` appears in `w`.
pub proof fn lemma_not_reciprocated_exact(f: Seq<Relation>, w: Seq<Relation>)
    ensures
        forall|n: Seq<char>| #[trigger] has_name(not_reciprocated(f, w), n) <==> (has_name(f, n)
            && !has_name(w, n)),
        forall|k: int| 0 <= k < not_reciprocated(f, w).len() ==> f.contains(
            #[trigger] not_reciprocated(f, w)[k],
        ),
        (forall|i: int| 0 <= i < f.len() ==> has_name(w, (#[trigger] f[i])@.name))
            ==> not_reciprocated(f, w).len() == 0,
    decreases f.len(),
{
    let nr = not_reciprocated(f, w);
    if f.len() == 0 {
        assert(forall|n: Seq<char>| !has_name(nr, n));
        assert(forall|n: Seq<char>| !has_name(f, n));
    } else {
        let fp = f.drop_last();
        let rest = not_reciprocated(fp, w);
        lemma_not_reciprocated_exact(fp, w);
        assert forall|n: Seq<char>| #[trigger] has_name(f, n) implies (has_name(fp, n)
            || f.last()@.name == n) by {
            let i = choose|i: int| 0 <= i < f.len() && f[i]@.name == n;
            if i < f.len() - 1 {
                assert(fp[i]@.name == n);
            }
        }
        assert forall|n: Seq<char>| has_name(fp, n) implies #[trigger] has_name(f, n) by {
            let i = choose|i: int| 0 <= i < fp.len() && fp[i]@.name == n;
            assert(f[i]@.name == n);
        }
        assert(has_name(f, f.last()@.name)) by {
            assert(f[f.len() - 1]@.name == f.last()@.name);
        }
        if has_name(w, f.last()@.name) {
            assert(nr == rest);
        } else {
            assert(nr == rest.push(f.last()));
            assert forall|n: Seq<char>| #[trigger] has_name(nr, n) implies (has_name(rest, n)
                || f.last()@.name == n) by {
                let i = choose|i: int| 0 <= i < nr.len() && nr[i]@.name == n;
                if i < rest.len() {
                    assert(rest[i]@.name == n);
                }
            }
            assert forall|n: Seq<char>| has_name(rest, n) implies #[trigger] has_name(nr, n) by {
                let i = choose|i: int| 0 <= i < rest.len() && rest[i]@.name == n;
                assert(nr[i]@.name == n);
            }
            assert(has_name(nr, f.last()@.name)) by {
                assert(nr[nr.len() - 1]@.name == f.last()@.name);
            }
        }
        assert forall|k: int| 0 <= k < nr.len() implies f.contains(#[trigger] nr[k]) by {
            if k < rest.len() {
                assert(fp.contains(rest[k]));
                let i = choose|i: int| 0 <= i < fp.len() && fp[i] == rest[k];
                assert(f[i] == nr[k]);
            } else {
                assert(nr[k] == f[f.len() - 1]);
            }
        }
        if forall|i: int| 0 <= i < f.len() ==> has_name(w, (#[trigger] f[i])@.name) {
            assert forall|i: int| 0 <= i < fp.len() implies has_name(
                w,
                (#[trigger] fp[i])@.name,
            ) by {
                assert(fp[i] == f[i]);
            }
            assert(has_name(w, f[f.len() - 1]@.name));
        }
    }
}

/// The sum of the count column of a date grouping.
pub open spec fn sum_group_counts(g: Seq<(Date, usize)>) -> int
    decreases g.len(),
{
    if g.len() == 0 {
        0int
    } else {
        sum_group_counts(g.drop_last()) + g.last().1
    }
}

/// How many relations of `s` were observed on a date that is a key of `g`.
spec fn count_covered(s: Seq<Relation>, g: Seq<(Date, usize)>) -> int
    decreases s.len(),
{
    if s.len() == 0 {
        0int
    } else {
        count_covered(s.drop_last(), g) + if date_covered(date_of_timestamp(s.last()@.ts), g) {
            1int
        } else {
            0int
        }
    }
}

/// No relation is covered by a grouping with no groups.
proof fn lemma_count_covered_empty(s: Seq<Relation>, g: Seq<(Date, usize)>)
    requires
        g.len() == 0,
    ensures
        count_covered(s, g) == 0,
    decreases s.len(),
{
    if s.len() > 0 {
        lemma_count_covered_empty(s.drop_last(), g);
    }
}

/// When every relation's date is covered, the covered count is the whole
/// collection.
proof fn lemma_count_covered_all(s: Seq<Relation>, g: Seq<(Date, usize)>)
    requires
        forall|i: int| 0 <= i < s.len() ==> date_covered(
            date_of_timestamp((#[trigger] s[i])@.ts),
            g,
        ),
    ensures
        count_covered(s, g) == s.len(),
    decreases s.len(),
{
    if s.len() > 0 {
        lemma_count_covered_all(s.drop_last(), g);
    }
}

/// Adding one fresh key to a grouping grows the covered count by exactly the
/// count on that key's date.
proof fn lemma_count_covered_push(s: Seq<Relation>, g: Seq<(Date, usize)>, e: (Date, usize))
    requires
        forall|k: int| 0 <= k < g.len() ==> date_key((#[trigger] g[k]).0) != date_key(e.0),
    ensures
        count_covered(s, g.push(e)) == count_covered(s, g) + count_on_date(s, date_key(e.0)),
    decreases s.len(),
{
    if s.len() > 0 {
        lemma_count_covered_push(s.drop_last(), g, e);
        let d = date_of_timestamp(s.last()@.ts);
        assert(date_covered(d, g.push(e)) <==> (date_covered(d, g) || d == date_key(e.0))) by {
            if date_covered(d, g.push(e)) {
                let k = choose|k: int| 0 <= k < g.push(e).len() && date_key(g.push(e)[k].0) == d;
                if k < g.len() {
                    assert(date_key(g[k].0) == d);
                }
            }
            if date_covered(d, g) {
                let k = choose|k: int| 0 <= k < g.len() && date_key(g[k].0) == d;
                assert(date_key(g.push(e)[k].0) == d);
            }
            if d == date_key(e.0) {
                assert(date_key(g.push(e)[g.len() as int].0) == d);
            }
        }
    }
}

/// With distinct keys, the group counts sum to the covered count.
proof fn lemma_sum_is_covered(s: Seq<Relation>, g: Seq<(Date, usize)>)
    requires
        groups_sorted(g),
        forall|k: int| 0 <= k < g.len() ==> (#[trigger] g[k]).1 == count_on_date(
            s,
            date_key(g[k].0),
        ),
    ensures
        sum_group_counts(g) == count_covered(s, g),
    decreases g.len(),
{
    if g.len() > 0 {
        let g2 = g.drop_last();
        lemma_sum_is_covered(s, g2);
        assert forall|k: int| 0 <= k < g2.len() implies date_key((#[trigger] g2[k]).0) != date_key(
            g.last().0,
        ) by {
            assert(triple_lt(date_key(g[k].0), date_key(g[g.len() - 1].0)));
        }
        lemma_count_covered_push(s, g2, g.last());
        assert(g2.push(g.last()) =~= g);
        assert(g.last() == g[g.len() - 1]);
        assert(g.last().1 == count_on_date(s, date_key(g.last().0)));
    } else {
        lemma_count_covered_empty(s, g);
    }
}

/// A date partition is exhaustive and disjoint: the group counts of
/// `group_by_observed_date` sum to the size of the collection grouped, every
/// relation falling in exactly the one group keyed by its observed date.
pub proof fn lemma_partition_counts_sum(s: Seq<Relation>, g: Seq<(Date, usize)>)
    requires
        groups_sorted(g),
        forall|k: int| 0 <= k < g.len() ==> (#[trigger] g[k]).1 == count_on_date(
            s,
            date_key(g[k].0),
        ),
        forall|i: int| 0 <= i < s.len() ==> date_covered(
            date_of_timestamp((#[trigger] s[i])@.ts),
            g,
        ),
    ensures
        sum_group_counts(g) == s.len(),
{
    lemma_sum_is_covered(s, g);
    lemma_count_covered_all(s, g);
}

/// Relations stand in nondecreasing identity order.
pub open spec fn sorted_by_name(s: Seq<Relation>) -> bool {
    forall|i: int, j: int| 0 <= i <= j < s.len() ==> chars_le(s[i]@.name, s[j]@.name)
}

/// Stable insertion of `x` into `s`: `x` goes before the first relation whose
/// identity is not strictly below its own, so earlier input stays first
/// among equal identities.
pub open spec fn insert_by_name(x: Relation, s: Seq<Relation>) -> Seq<Relation>
    decreases s.len(),
{
    if s.len() == 0 {
        seq![x]
    } else if chars_le(x@.name, s[0]@.name) {
        seq![x] + s
    } else {
        seq![s[0]] + insert_by_name(x, s.skip(1))
    }
}

/// Stable insertion sort by identity: the canonical display order.
pub open spec fn sort_by_name(s: Seq<Relation>) -> Seq<Relation>
    decreases s.len(),
{
    if s.len() == 0 {
        Seq::empty()
    } else {
        insert_by_name(s[0], sort_by_name(s.skip(1)))
    }
}

/// Inserting at the first position whose identity is not strictly below that
/// of `x` is what `insert_by_name` denotes.
proof fn lemma_insert_by_name_at(x: Relation, s: Seq<Relation>, p: int)
    requires
        0 <= p <= s.len(),
        forall|k: int| 0 <= k < p ==> !chars_le(x@.name, (#[trigger] s[k])@.name),
        p < s.len() ==> chars_le(x@.name, s[p]@.name),
    ensures
        insert_by_name(x, s) == s.take(p) + seq![x] + s.skip(p),
    decreases s.len(),
{
    if s.len() == 0 {
        assert(s.take(0) + seq![x] + s.skip(0) =~= seq![x]);
    } else if chars_le(x@.name, s[0]@.name) {
        assert(p == 0);
        assert(s.take(0) + seq![x] + s.skip(0) =~= seq![x] + s);
    } else {
        assert(p >= 1) by {
            if p == 0 {
                assert(chars_le(x@.name, s[0]@.name));
            }
        }
        assert forall|k: int| 0 <= k < p - 1 implies !chars_le(
            x@.name,
            (#[trigger] s.skip(1)[k])@.name,
        ) by {
            assert(s.skip(1)[k] == s[k + 1]);
        }
        assert(p - 1 < s.skip(1).len() ==> chars_le(x@.name, s.skip(1)[p - 1]@.name)) by {
            if p < s.len() {
                assert(s.skip(1)[p - 1] == s[p]);
            }
        }
        lemma_insert_by_name_at(x, s.skip(1), p - 1);
        assert(seq![s[0]] + (s.skip(1).take(p - 1) + seq![x] + s.skip(1).skip(p - 1)) =~= s.take(p)
            + seq![x] + s.skip(p));
    }
}

/// Inserting into a sorted sequence keeps it sorted.
proof fn lemma_insert_by_name_sorted(x: Relation, s: Seq<Relation>)
    requires
        sorted_by_name(s),
    ensures
        sorted_by_name(insert_by_name(x, s)),
        insert_by_name(x, s).len() == s.len() + 1,
        insert_by_name(x, s)[0] == x || (s.len() > 0 && insert_by_name(x, s)[0] == s[0]),
    decreases s.len(),
{
    let r = insert_by_name(x, s);
    if s.len() == 0 {
        lemma_chars_le_refl(x@.name);
    } else if chars_le(x@.name, s[0]@.name) {
        assert forall|i: int, j: int| 0 <= i <= j < r.len() implies chars_le(
            r[i]@.name,
            r[j]@.name,
        ) by {
            if i == 0 {
                lemma_chars_le_refl(x@.name);
                if j > 0 {
                    assert(r[j] == s[j - 1]);
                    assert(chars_le(s[0]@.name, s[j - 1]@.name));
                    lemma_chars_le_trans(x@.name, s[0]@.name, s[j - 1]@.name);
                }
            } else {
                assert(r[i] == s[i - 1] && r[j] == s[j - 1]);
            }
        }
    } else {
        assert forall|i: int, j: int| 0 <= i <= j < s.skip(1).len() implies chars_le(
            (#[trigger] s.skip(1)[i])@.name,
            (#[trigger] s.skip(1)[j])@.name,
        ) by {
            assert(s.skip(1)[i] == s[i + 1] && s.skip(1)[j] == s[j + 1]);
        }
        lemma_insert_by_name_sorted(x, s.skip(1));
        let t = insert_by_name(x, s.skip(1));
        lemma_chars_le_total(x@.name, s[0]@.name);
        assert(chars_le(s[0]@.name, t[0]@.name)) by {
            if t[0] != x {
                assert(t[0] == s.skip(1)[0]);
                assert(s.skip(1)[0] == s[1]);
            }
        }
        assert forall|i: int, j: int| 0 <= i <= j < r.len() implies chars_le(
            r[i]@.name,
            r[j]@.name,
        ) by {
            if i == 0 {
                lemma_chars_le_refl(s[0]@.name);
                if j > 0 {
                    assert(r[j] == t[j - 1]);
                    assert(chars_le(t[0]@.name, t[j - 1]@.name));
                    lemma_chars_le_trans(s[0]@.name, t[0]@.name, t[j - 1]@.name);
                }
            } else {
                assert(r[i] == t[i - 1] && r[j] == t[j - 1]);
            }
        }
    }
}

/// Sorting by identity yields a sequence in nondecreasing identity order.
pub proof fn lemma_sort_by_name_sorted(s: Seq<Relation>)
    ensures
        sorted_by_name(sort_by_name(s)),
    decreases s.len(),
{
    if s.len() > 0 {
        lemma_sort_by_name_sorted(s.skip(1));
        lemma_insert_by_name_sorted(s[0], sort_by_name(s.skip(1)));
    }
}

/// Inserting adds exactly the inserted relation to the contents.
proof fn lemma_insert_by_name_multiset(x: Relation, s: Seq<Relation>)
    ensures
        insert_by_name(x, s).to_multiset() =~= s.to_multiset().insert(x),
    decreases s.len(),
{
    broadcast use vstd::seq_lib::lemma_multiset_commutative;
    broadcast use vstd::seq_lib::group_to_multiset_ensures;
    broadcast use vstd::multiset::group_multiset_axioms;
    broadcast use vstd::multiset::lemma_multiset_empty_len;

    assert(Seq::<Relation>::empty().to_multiset() =~= Multiset::<Relation>::empty());
    if s.len() == 0 {
        assert(s =~= Seq::<Relation>::empty());
        assert(seq![x] =~= Seq::<Relation>::empty().push(x));
    } else if chars_le(x@.name, s[0]@.name) {
        assert(seq![x] =~= Seq::<Relation>::empty().push(x));
        assert((seq![x] + s).to_multiset() =~= seq![x].to_multiset().add(s.to_multiset()));
    } else {
        lemma_insert_by_name_multiset(x, s.skip(1));
        assert(seq![s[0]] =~= Seq::<Relation>::empty().push(s[0]));
        assert(s =~= seq![s[0]] + s.skip(1));
        assert((seq![s[0]] + s.skip(1)).to_multiset() =~= seq![s[0]].to_multiset().add(
            s.skip(1).to_multiset(),
        ));
        assert((seq![s[0]] + insert_by_name(x, s.skip(1))).to_multiset()
            =~= seq![s[0]].to_multiset().add(insert_by_name(x, s.skip(1)).to_multiset()));
    }
}

/// Sorting permutes the collection: the same relations, each the same number
/// of times, in the new order.
pub proof fn lemma_sort_by_name_permutes(s: Seq<Relation>)
    ensures
        sort_by_name(s).to_multiset() =~= s.to_multiset(),
    decreases s.len(),
{
    broadcast use vstd::seq_lib::lemma_multiset_commutative;
    broadcast use vstd::seq_lib::group_to_multiset_ensures;
    broadcast use vstd::multiset::group_multiset_axioms;
    broadcast use vstd::multiset::lemma_multiset_empty_len;

    if s.len() == 0 {
        assert(s =~= Seq::<Relation>::empty());
        assert(s.to_multiset() =~= Multiset::<Relation>::empty());
    } else {
        lemma_sort_by_name_permutes(s.skip(1));
        lemma_insert_by_name_multiset(s[0], sort_by_name(s.skip(1)));
        assert(s =~= seq![s[0]] + s.skip(1));
        assert((seq![s[0]] + s.skip(1)).to_multiset() =~= seq![s[0]].to_multiset().add(
            s.skip(1).to_multiset(),
        ));
        assert(seq![s[0]] =~= Seq::<Relation>::empty().push(s[0]));
        assert(Seq::<Relation>::empty().to_multiset() =~= Multiset::<Relation>::empty());
    }
}

/// The first position in `out` whose identity is not strictly below that of
/// `x`.
fn find_name_slot(out: &Vec<Relation>, x: &Relation) -> (p: usize)
    ensures
        0 <= p <= out@.len(),
        forall|k: int| 0 <= k < p ==> !chars_le(x@.name, (#[trigger] out@[k])@.name),
        p < out@.len() ==> chars_le(x@.name, out@[p as int]@.name),
{
    let mut p: usize = 0;
    while p < out.len()
        invariant
            0 <= p <= out@.len(),
            forall|k: int| 0 <= k < p ==> !chars_le(x@.name, (#[trigger] out@[k])@.name),
        decreases out@.len() - p,
    {
        if x.le_by_identity(&out[p]) {
            return p;
        }
        p += 1;
    }
    p
}

/// Inserts `x` at its stable position in `out`.
fn insert_sorted(out: &mut Vec<Relation>, x: Relation)
    ensures
        final(out)@ == insert_by_name(x, old(out)@),
{
    let ghost prev = out@;
    let p = find_name_slot(out, &x);
    proof {
        lemma_insert_by_name_at(x, prev, p as int);
    }
    out.insert(p, x);
    proof {
        assert(out@ =~= prev.take(p as int) + seq![x] + prev.skip(p as int));
    }
}

/// Sorts relations by identity: a stable sort in the canonical lexicographic
/// identity order, ties keeping their original relative order. The engine's
/// own outputs carry no order promise beyond their contracts; callers apply
/// this before display.
pub fn sorted_by_identity(rels: &Vec<Relation>) -> (r: Vec<Relation>)
    ensures
        r@ == sort_by_name(rels@),
{
    let mut out: Vec<Relation> = Vec::new();
    let mut i: usize = rels.len();
    proof {
        assert(rels@.skip(i as int) =~= Seq::<Relation>::empty());
    }
    while i > 0
        invariant
            0 <= i <= rels@.len(),
            out@ == sort_by_name(rels@.skip(i as int)),
        decreases i,
    {
        i -= 1;
        let x = rels[i].clone();
        insert_sorted(&mut out, x);
        proof {
            assert(rels@.skip(i as int)[0] == rels@[i as int]);
            assert(rels@.skip(i as int).skip(1) =~= rels@.skip(i as int + 1));
        }
    }
    proof {
        assert(rels@.skip(0) =~= rels@);
    }
    out
}

/// The sum of the delta column of a month series.
pub open spec fn sum_deltas(v: Seq<MonthEntry>) -> int
    decreases v.len(),
{
    if v.len() == 0 {
        0int
    } else {
        sum_deltas(v.drop_last()) + v.last().delta
    }
}

/// The deltas of a month series telescope: they sum to the last row's
/// cumulative count minus the count just before the first emitted month.
pub proof fn lemma_series_telescopes(v: Seq<MonthEntry>, base: int)
    requires
        v.len() > 0,
        v[0].delta == v[0].cumulative - base,
        forall|k: int| 1 <= k < v.len() ==> (#[trigger] v[k]).delta == v[k].cumulative - v[k
            - 1].cumulative,
    ensures
        sum_deltas(v) == v[v.len() - 1].cumulative - base,
    decreases v.len(),
{
    if v.len() > 1 {
        assert(v.drop_last()[0] == v[0]);
        assert forall|k: int| 1 <= k < v.drop_last().len() implies (#[trigger] v.drop_last()[k]).delta
            == v.drop_last()[k].cumulative - v.drop_last()[k - 1].cumulative by {
            assert(v.drop_last()[k] == v[k]);
            assert(v.drop_last()[k - 1] == v[k - 1]);
            assert(v[k].delta == v[k].cumulative - v[k - 1].cumulative);
        }
        lemma_series_telescopes(v.drop_last(), base);
        assert(v.drop_last()[v.len() - 2] == v[v.len() - 2]);
        assert(v[v.len() - 1].delta == v[v.len() - 1].cumulative - v[v.len() - 2].cumulative);
        assert(v.last() == v[v.len() - 1]);
    } else {
        assert(v.drop_last().len() == 0);
        assert(sum_deltas(v.drop_last()) == 0);
    }
}

} // verus!
