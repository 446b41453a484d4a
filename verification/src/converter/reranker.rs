//! Ranking of the paths that the search found.

use vstd::prelude::*;

use super::cost::{self, conn_cost, script_cost};
use super::viterbi::{PathView, RichSegment, RichView, ScoredPath};
use crate::arith::{self, count_of, sat_add, sat_mul, sat_sub};
use crate::dict::connection::{self, ConnView, ConnectionMatrix};
use crate::ordering::{self, stable_sort};
use crate::text;
use crate::user_history::{HistoryView, UserHistory};

verus! {

/// Weight of the penalty on uneven segment lengths.
pub const LENGTH_VARIANCE_WEIGHT: i64 = 2000;

/// How far the structure cost of a path may exceed the lowest one.
pub const STRUCTURE_COST_FILTER: i64 = 4000;

/// The transition costs between the segments of a path.
pub open spec fn transitions(segs: Seq<RichView>, conn: Option<ConnView>) -> Seq<i64> {
    Seq::new(
        if segs.len() == 0 {
            0
        } else {
            (segs.len() - 1) as nat
        },
        |i: int| cost::link_cost(conn, segs[i].right_id, segs[i + 1].left_id),
    )
}

/// The sum of the transition costs along a path.
pub open spec fn structure_cost(segs: Seq<RichView>, conn: Option<ConnView>) -> i64 {
    arith::total(transitions(segs, conn))
}

pub open spec fn lengths(segs: Seq<RichView>) -> Seq<i64> {
    Seq::new(segs.len(), |i: int| arith::count(segs[i].reading.len()))
}

pub open spec fn squares(s: Seq<i64>) -> Seq<i64> {
    Seq::new(s.len(), |i: int| arith::times(s[i], s[i]))
}

/// The variance of the reading lengths, weighted: with `n` lengths,
/// `(n * sum of squares - square of sum) * weight / n²`.
pub open spec fn variance_penalty(segs: Seq<RichView>) -> i64 {
    if segs.len() < 2 {
        0
    } else {
        let n = arith::count(segs.len());
        let ls = lengths(segs);
        let sum = arith::total(ls);
        let spread = arith::minus(
            arith::times(n, arith::total(squares(ls))),
            arith::times(sum, sum),
        );
        arith::quotient(
            arith::times(spread, LENGTH_VARIANCE_WEIGHT),
            arith::times(n, n) as int,
        )
    }
}

pub open spec fn script_costs(segs: Seq<RichView>) -> Seq<i64> {
    Seq::new(segs.len(), |i: int| cost::script_cost_of(segs[i].surface))
}

/// A path with a quarter of its structure cost, its variance penalty and its
/// script costs added.
pub open spec fn adjusted(path: PathView, conn: Option<ConnView>) -> PathView {
    PathView {
        segments: path.segments,
        viterbi_cost: arith::plus(
            arith::plus(
                arith::plus(
                    path.viterbi_cost,
                    arith::quotient(structure_cost(path.segments, conn), 4),
                ),
                variance_penalty(path.segments),
            ),
            arith::total(script_costs(path.segments)),
        ),
    }
}

pub open spec fn all_adjusted(paths: Seq<PathView>, conn: Option<ConnView>) -> Seq<PathView> {
    Seq::new(paths.len(), |i: int| adjusted(paths[i], conn))
}

/// The lowest structure cost of a non-empty list of paths.
pub open spec fn lowest_structure(paths: Seq<PathView>, conn: Option<ConnView>) -> i64
    decreases paths.len(),
{
    let here = structure_cost(paths.last().segments, conn);
    if paths.len() <= 1 {
        here
    } else {
        let before = lowest_structure(paths.drop_last(), conn);
        if before <= here {
            before
        } else {
            here
        }
    }
}

/// The predicate of paths whose structure cost is at most `limit`.
pub open spec fn within(conn: Option<ConnView>, limit: i64) -> spec_fn(PathView) -> bool {
    |p: PathView| structure_cost(p.segments, conn) <= limit
}

/// The paths whose structure cost is near the lowest one.
pub open spec fn near_lowest(paths: Seq<PathView>, conn: Option<ConnView>) -> Seq<PathView> {
    paths.filter(
        within(conn, arith::plus(lowest_structure(paths, conn), STRUCTURE_COST_FILTER)),
    )
}

/// The result of ranking: fragmented paths are dropped, costs are adjusted, and
/// the rest is ordered by cost. A single path stays as it is.
pub open spec fn reranked(paths: Seq<PathView>, conn: Option<ConnView>) -> Seq<PathView> {
    if paths.len() <= 1 {
        paths
    } else {
        ordering::ranked_order(all_adjusted(near_lowest(paths, conn), conn))
    }
}

fn structure_cost_of(path: &ScoredPath, conn: Option<&ConnectionMatrix>) -> (r: i64)
    ensures
        r == structure_cost(path@.segments, connection::conn_view(conn)),
{
    let segs: &Vec<RichSegment> = &path.segments;
    let ghost ts = transitions(path@.segments, connection::conn_view(conn));
    let mut sc: i64 = 0;
    let mut i: usize = 1;
    proof {
        assert(ts.take(0) =~= Seq::empty());
    }
    while i < segs.len()
        invariant
            1 <= i,
            segs == &path.segments,
            ts == transitions(path@.segments, connection::conn_view(conn)),
            segs@.len() > 0 ==> i <= segs@.len(),
            segs@.len() == 0 ==> i == 1,
            sc == arith::total(ts.take(i - 1)),
        decreases segs.len() - i,
    {
        let c: i64 = conn_cost(conn, segs[i - 1].right_id, segs[i].left_id);
        proof {
            assert(c == ts[i - 1]);
            assert(ts.take(i as int).drop_last() =~= ts.take(i - 1));
        }
        sc = sat_add(sc, c);
        i = i + 1;
    }
    proof {
        assert(ts.take(ts.len() as int) =~= ts);
        if segs@.len() <= 1 {
            assert(ts =~= Seq::empty());
        }
    }
    sc
}

fn variance_penalty_of(path: &ScoredPath) -> (r: i64)
    ensures
        r == variance_penalty(path@.segments),
{
    let segs: &Vec<RichSegment> = &path.segments;
    if segs.len() < 2 {
        return 0;
    }
    let ghost ls = lengths(path@.segments);
    let mut sum: i64 = 0;
    let mut sum_sq: i64 = 0;
    let mut i: usize = 0;
    proof {
        assert(ls.take(0) =~= Seq::empty());
        assert(squares(ls).take(0) =~= Seq::empty());
    }
    while i < segs.len()
        invariant
            i <= segs@.len(),
            segs == &path.segments,
            ls == lengths(path@.segments),
            sum == arith::total(ls.take(i as int)),
            sum_sq == arith::total(squares(ls).take(i as int)),
        decreases segs.len() - i,
    {
        let n: i64 = count_of(segs[i].reading.as_str().unicode_len());
        proof {
            assert(n == ls[i as int]);
            assert(ls.take(i + 1).drop_last() =~= ls.take(i as int));
            assert(squares(ls).take(i + 1).drop_last() =~= squares(ls).take(i as int));
        }
        sum = sat_add(sum, n);
        sum_sq = sat_add(sum_sq, sat_mul(n, n));
        i = i + 1;
    }
    proof {
        assert(ls.take(ls.len() as int) =~= ls);
        assert(squares(ls).take(ls.len() as int) =~= squares(ls));
    }
    let n: i64 = count_of(segs.len());
    let spread: i64 = sat_sub(sat_mul(n, sum_sq), sat_mul(sum, sum));
    let square: i64 = sat_mul(n, n);
    proof {
        assert(n * n >= 4) by (nonlinear_arith)
            requires
                n >= 2,
        ;
    }
    sat_mul(spread, LENGTH_VARIANCE_WEIGHT) / square
}

fn script_total(path: &ScoredPath) -> (r: i64)
    ensures
        r == arith::total(script_costs(path@.segments)),
{
    let segs: &Vec<RichSegment> = &path.segments;
    let ghost cs = script_costs(path@.segments);
    let mut sum: i64 = 0;
    let mut i: usize = 0;
    proof {
        assert(cs.take(0) =~= Seq::empty());
    }
    while i < segs.len()
        invariant
            i <= segs@.len(),
            segs == &path.segments,
            cs == script_costs(path@.segments),
            sum == arith::total(cs.take(i as int)),
        decreases segs.len() - i,
    {
        let c: i64 = script_cost(segs[i].surface.as_str());
        proof {
            assert(c == cs[i as int]);
            assert(cs.take(i + 1).drop_last() =~= cs.take(i as int));
        }
        sum = sat_add(sum, c);
        i = i + 1;
    }
    proof {
        assert(cs.take(cs.len() as int) =~= cs);
    }
    sum
}

/// The cost of `path` with its adjustments.
fn adjusted_cost(path: &ScoredPath, conn: Option<&ConnectionMatrix>) -> (r: i64)
    ensures
        r == adjusted(path@, connection::conn_view(conn)).viterbi_cost,
{
    let structure: i64 = structure_cost_of(path, conn);
    let a: i64 = sat_add(path.viterbi_cost, structure / 4);
    let b: i64 = sat_add(a, variance_penalty_of(path));
    sat_add(b, script_total(path))
}

/// The lowest structure cost of `paths`.
fn lowest_structure_of(paths: &Vec<ScoredPath>, conn: Option<&ConnectionMatrix>) -> (r: i64)
    requires
        paths@.len() > 0,
    ensures
        r == lowest_structure(text::views(paths@), connection::conn_view(conn)),
{
    let ghost vs = text::views(paths@);
    let mut lowest: i64 = structure_cost_of(&paths[0], conn);
    let mut i: usize = 1;
    while i < paths.len()
        invariant
            1 <= i <= paths@.len(),
            vs == text::views(paths@),
            lowest == lowest_structure(vs.take(i as int), connection::conn_view(conn)),
        decreases paths.len() - i,
    {
        let here: i64 = structure_cost_of(&paths[i], conn);
        proof {
            assert(vs.take(i + 1).drop_last() =~= vs.take(i as int));
            assert(vs.take(i + 1).last() == paths@[i as int]@);
        }
        if here < lowest {
            lowest = here;
        }
        i = i + 1;
    }
    proof {
        assert(vs.take(vs.len() as int) =~= vs);
    }
    lowest
}

/// Drops the paths whose structure cost is above `limit`.
fn drop_above(paths: &mut Vec<ScoredPath>, conn: Option<&ConnectionMatrix>, limit: i64)
    ensures
        text::views(final(paths)@) == text::views(old(paths)@).filter(
            within(connection::conn_view(conn), limit),
        ),
{
    let ghost all = paths@;
    let ghost f = within(connection::conn_view(conn), limit);
    let ghost mut seen: int = 0;
    let mut i: usize = 0;
    proof {
        assert(text::views(all).take(0).filter(f) =~= Seq::empty()) by {
            reveal(Seq::filter);
        }
    }
    while i < paths.len()
        invariant
            f == within(connection::conn_view(conn), limit),
            0 <= seen <= all.len(),
            i <= paths@.len(),
            paths@.len() - i == all.len() - seen,
            forall|k: int| 0 <= k < all.len() - seen ==> #[trigger] paths@[i + k] == all[seen + k],
            text::views(paths@.take(i as int)) == text::views(all).take(seen).filter(f),
        decreases all.len() - seen,
    {
        let sc: i64 = structure_cost_of(&paths[i], conn);
        let ghost before = paths@;
        proof {
            assert(before[i + 0] == all[seen + 0]);
            text::views(all).take(seen).lemma_filter_push(text::views(all)[seen], f);
            assert(text::views(all).take(seen + 1) =~= text::views(all).take(seen).push(
                text::views(all)[seen],
            ));
        }
        if sc <= limit {
            proof {
                assert(text::views(before.take(i + 1)) =~= text::views(before.take(i as int)).push(
                    before[i as int]@,
                ));
                assert forall|k: int| 0 <= k < all.len() - seen - 1 implies #[trigger] paths@[i + 1
                    + k] == all[seen + 1 + k] by {
                    assert(paths@[i + (k + 1)] == all[seen + (k + 1)]);
                }
            }
            i = i + 1;
        } else {
            let _ = paths.remove(i);
            proof {
                assert(paths@.take(i as int) =~= before.take(i as int));
                assert forall|k: int| 0 <= k < all.len() - seen - 1 implies #[trigger] paths@[i + k]
                    == all[seen + 1 + k] by {
                    assert(before[i + (k + 1)] == all[seen + (k + 1)]);
                }
            }
        }
        proof {
            seen = seen + 1;
        }
    }
    proof {
        assert(paths@.take(i as int) =~= paths@);
        assert(text::views(all).take(all.len() as int) =~= text::views(all));
    }
}

/// Ranks paths by what the search does not see: drops fragmented paths, then
/// adds a share of the structure cost, a penalty on uneven segment lengths and
/// the script costs, and orders by the new cost.
pub fn rerank(paths: &mut Vec<ScoredPath>, conn: Option<&ConnectionMatrix>)
    ensures
        text::views(final(paths)@) == reranked(
            text::views(old(paths)@),
            connection::conn_view(conn),
        ),
{
    if paths.len() <= 1 {
        return ;
    }
    let ghost cv = connection::conn_view(conn);
    let lowest: i64 = lowest_structure_of(paths, conn);
    let limit: i64 = sat_add(lowest, STRUCTURE_COST_FILTER);
    drop_above(paths, conn, limit);
    let ghost near = text::views(paths@);
    let mut i: usize = 0;
    while i < paths.len()
        invariant
            i <= paths@.len(),
            paths@.len() == near.len(),
            cv == connection::conn_view(conn),
            forall|k: int| 0 <= k < i ==> (#[trigger] paths@[k])@ == adjusted(near[k], cv),
            forall|k: int| i <= k < near.len() ==> (#[trigger] paths@[k])@ == near[k],
        decreases paths.len() - i,
    {
        let c: i64 = adjusted_cost(&paths[i], conn);
        let ghost before = paths@;
        set_cost(paths, i, c);
        i = i + 1;
    }
    proof {
        assert(text::views(paths@) =~= all_adjusted(near, cv));
        ordering::lemma_ranked_order_views(paths@);
    }
    stable_sort(paths);
}

/// Gives path `i` the cost `c`.
fn set_cost(paths: &mut Vec<ScoredPath>, i: usize, c: i64)
    requires
        i < old(paths)@.len(),
    ensures
        final(paths)@.len() == old(paths)@.len(),
        forall|k: int|
            0 <= k < old(paths)@.len() && k != i ==> #[trigger] final(paths)@[k] == old(paths)@[k],
        final(paths)@[i as int]@.segments == old(paths)@[i as int]@.segments,
        final(paths)@[i as int].viterbi_cost == c,
{
    let path = &mut paths[i];
    path.viterbi_cost = c;
}

/// The boosts of a path: one for each segment, then one for each pair of
/// neighbours.
pub open spec fn boosts(segs: Seq<RichView>, h: HistoryView) -> Seq<i64> {
    Seq::new(segs.len(), |i: int| h.unigram_boost(segs[i].reading, segs[i].surface)) + Seq::new(
        if segs.len() == 0 {
            0
        } else {
            (segs.len() - 1) as nat
        },
        |i: int| h.bigram_boost(segs[i].surface, segs[i + 1].reading, segs[i + 1].surface),
    )
}

pub open spec fn boosted(path: PathView, h: HistoryView) -> PathView {
    PathView {
        segments: path.segments,
        viterbi_cost: arith::minus(path.viterbi_cost, arith::total(boosts(path.segments, h))),
    }
}

/// Paths with their history boosts taken off, ordered by the new cost.
pub open spec fn history_ranked(paths: Seq<PathView>, h: HistoryView) -> Seq<PathView> {
    ordering::ranked_order(Seq::new(paths.len(), |i: int| boosted(paths[i], h)))
}

pub(crate) fn boost_of_path(path: &ScoredPath, history: &UserHistory) -> (r: i64)
    ensures
        r == arith::total(boosts(path@.segments, history@)),
{
    let segs: &Vec<RichSegment> = &path.segments;
    let ghost bs = boosts(path@.segments, history@);
    let mut boost: i64 = 0;
    let mut i: usize = 0;
    proof {
        assert(bs.take(0) =~= Seq::empty());
    }
    while i < segs.len()
        invariant
            i <= segs@.len(),
            segs == &path.segments,
            bs == boosts(path@.segments, history@),
            boost == arith::total(bs.take(i as int)),
        decreases segs.len() - i,
    {
        let b: i64 = history.unigram_boost(segs[i].reading.as_str(), segs[i].surface.as_str());
        proof {
            assert(b == bs[i as int]);
            assert(bs.take(i + 1).drop_last() =~= bs.take(i as int));
        }
        boost = sat_add(boost, b);
        i = i + 1;
    }
    let mut j: usize = 1;
    while j < segs.len()
        invariant
            1 <= j,
            segs == &path.segments,
            bs == boosts(path@.segments, history@),
            segs@.len() > 0 ==> j <= segs@.len(),
            segs@.len() == 0 ==> j == 1,
            boost == arith::total(bs.take(segs@.len() + j - 1)) || (segs@.len() == 0 && boost
                == arith::total(bs.take(0))),
        decreases segs.len() - j,
    {
        let b: i64 = history.bigram_boost(
            segs[j - 1].surface.as_str(),
            segs[j].reading.as_str(),
            segs[j].surface.as_str(),
        );
        proof {
            assert(b == bs[segs@.len() + j - 1]);
            assert(bs.take(segs@.len() + j).drop_last() =~= bs.take(segs@.len() + j - 1));
        }
        boost = sat_add(boost, b);
        j = j + 1;
    }
    proof {
        assert(bs.take(bs.len() as int) =~= bs);
        if segs@.len() == 0 {
            assert(bs =~= Seq::empty());
        }
    }
    boost
}

/// Takes the user's history boosts off the cost of each path, then orders by
/// the new cost.
pub fn history_rerank(paths: &mut Vec<ScoredPath>, history: &UserHistory)
    ensures
        text::views(final(paths)@) == history_ranked(text::views(old(paths)@), history@),
{
    let ghost vs = text::views(paths@);
    let mut i: usize = 0;
    while i < paths.len()
        invariant
            i <= paths@.len(),
            paths@.len() == vs.len(),
            forall|k: int| 0 <= k < i ==> (#[trigger] paths@[k])@ == boosted(vs[k], history@),
            forall|k: int| i <= k < vs.len() ==> (#[trigger] paths@[k])@ == vs[k],
        decreases paths.len() - i,
    {
        let c: i64 = sat_sub(paths[i].viterbi_cost, boost_of_path(&paths[i], history));
        set_cost(paths, i, c);
        i = i + 1;
    }
    proof {
        assert(text::views(paths@) =~= Seq::new(vs.len(), |i: int| boosted(vs[i], history@)));
        ordering::lemma_ranked_order_views(paths@);
    }
    stable_sort(paths);
}

/// Ranking by history neither adds nor drops a path, and orders by cost.
pub proof fn history_ranking_keeps_every_path(paths: Seq<PathView>, h: HistoryView)
    ensures
        history_ranked(paths, h).len() == paths.len(),
        ordering::ascending(history_ranked(paths, h)),
{
    ordering::ranked_order_sorts(Seq::new(paths.len(), |i: int| boosted(paths[i], h)));
}

proof fn lemma_lowest_is_reached(paths: Seq<PathView>, conn: Option<ConnView>) -> (i: int)
    requires
        paths.len() > 0,
    ensures
        0 <= i < paths.len(),
        structure_cost(paths[i].segments, conn) == lowest_structure(paths, conn),
        forall|j: int|
            0 <= j < paths.len() ==> lowest_structure(paths, conn) <= structure_cost(
                (#[trigger] paths[j]).segments,
                conn,
            ),
    decreases paths.len(),
{
    if paths.len() == 1 {
        assert(paths[0] == paths.last());
        0
    } else {
        let p = paths.drop_last();
        let i = lemma_lowest_is_reached(p, conn);
        assert forall|j: int| 0 <= j < paths.len() implies lowest_structure(paths, conn)
            <= structure_cost((#[trigger] paths[j]).segments, conn) by {
            if j < p.len() {
                assert(paths[j] == p[j]);
            }
        }
        assert(paths[i] == p[i]);
        if lowest_structure(p, conn) <= structure_cost(paths.last().segments, conn) {
            i
        } else {
            paths.len() - 1
        }
    }
}

/// Ranking never drops every path: of a non-empty list at least the path of
/// lowest structure cost remains. The result is ordered by cost unless it was a
/// single path to begin with.
pub proof fn ranking_keeps_the_least_fragmented(paths: Seq<PathView>, conn: Option<ConnView>)
    requires
        paths.len() > 0,
    ensures
        0 < reranked(paths, conn).len() <= paths.len(),
        ordering::ascending(reranked(paths, conn)),
{
    if paths.len() > 1 {
        let limit = arith::plus(lowest_structure(paths, conn), STRUCTURE_COST_FILTER);
        let f = within(conn, limit);
        let near = near_lowest(paths, conn);
        let i = lemma_lowest_is_reached(paths, conn);
        assert(f(paths[i]));
        paths.lemma_filter_contains(f, i);
        paths.lemma_filter_len(f);
        assert(near.len() > 0);
        ordering::ranked_order_sorts(all_adjusted(near, conn));
    }
}

} // verus!
