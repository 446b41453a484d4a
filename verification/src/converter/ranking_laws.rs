//! How paths are ranked, and how words are grouped into phrases.

use vstd::prelude::*;

use super::convert;
use super::cost;
use super::path_laws;
use super::postprocess;
use super::reranker;
use super::viterbi::{self, PathView, RichView};
use crate::arith;
use crate::dict::connection::ConnView;
use crate::ordering::{self, Ranked};
use crate::user_history::HistoryView;

verus! {

/// The sum of some numbers.
pub open spec fn sum(s: Seq<int>) -> int
    decreases s.len(),
{
    if s.len() == 0 {
        0
    } else {
        sum(s.drop_last()) + s.last()
    }
}

/// Division that rounds towards zero.
pub open spec fn rounded(a: int, b: int) -> int {
    if a < 0 {
        -((-a) / b)
    } else {
        a / b
    }
}

proof fn lemma_total(t: Seq<i64>, s: Seq<int>, b: int)
    requires
        t.len() == s.len() <= 1_000_000,
        0 <= b <= 0x1_0000_0000,
        forall|i: int| 0 <= i < s.len() ==> t[i] == #[trigger] s[i] && -b <= s[i] <= b,
    ensures
        arith::total(t) == sum(s),
        -b * s.len() <= sum(s) <= b * s.len(),
    decreases s.len(),
{
    if s.len() > 0 {
        let u = s.drop_last();
        assert forall|i: int| 0 <= i < u.len() implies t.drop_last()[i] == #[trigger] u[i] && -b
            <= u[i] <= b by {
            assert(u[i] == s[i]);
        }
        lemma_total(t.drop_last(), u, b);
        assert(s[s.len() - 1] == s.last());
        assert(b * s.len() == b * u.len() + b) by (nonlinear_arith)
            requires
                s.len() == u.len() + 1,
        ;
        assert(-b * s.len() == -b * u.len() - b) by (nonlinear_arith)
            requires
                s.len() == u.len() + 1,
        ;
        assert(b * s.len() <= 0x1_0000_0000 * 1_000_000) by (nonlinear_arith)
            requires
                0 <= b <= 0x1_0000_0000,
                s.len() <= 1_000_000,
        ;
        assert(-b * s.len() >= -0x1_0000_0000 * 1_000_000) by (nonlinear_arith)
            requires
                0 <= b <= 0x1_0000_0000,
                s.len() <= 1_000_000,
        ;
    }
}

/// The connection costs between the segments of a path.
pub open spec fn joints(segs: Seq<RichView>, conn: Option<ConnView>) -> Seq<int> {
    Seq::new(
        if segs.len() == 0 {
            0
        } else {
            (segs.len() - 1) as nat
        },
        |i: int| path_laws::joint(conn, segs[i].right_id, segs[i + 1].left_id),
    )
}

/// The script costs of the segments of a path.
pub open spec fn scripts(segs: Seq<RichView>) -> Seq<int> {
    Seq::new(segs.len(), |i: int| cost::script_cost_of(segs[i].surface) as int)
}

/// The lengths of the readings of the segments of a path.
pub open spec fn lengths(segs: Seq<RichView>) -> Seq<int> {
    Seq::new(segs.len(), |i: int| segs[i].reading.len() as int)
}

/// The squares of some numbers.
pub open spec fn squares(s: Seq<int>) -> Seq<int> {
    Seq::new(s.len(), |i: int| s[i] * s[i])
}

/// The structure cost of a path is the sum of the connection costs between its
/// segments.
pub proof fn structure_costs_are_sums(segs: Seq<RichView>, conn: Option<ConnView>)
    requires
        segs.len() <= 1_000_000,
    ensures
        reranker::structure_cost(segs, conn) == sum(joints(segs, conn)),
        -0x8000 * segs.len() <= sum(joints(segs, conn)) <= 0x8000 * segs.len(),
{
    let t = reranker::transitions(segs, conn);
    let s = joints(segs, conn);
    assert forall|i: int| 0 <= i < s.len() implies t[i] == #[trigger] s[i] && -0x8000 <= s[i]
        <= 0x8000 by {}
    lemma_total(t, s, 0x8000);
}

/// The structure cost of a path that is no more than 4000 above that of any other.
pub open spec fn is_near(paths: Seq<PathView>, conn: Option<ConnView>, i: int) -> bool {
    forall|j: int|
        0 <= j < paths.len() ==> sum(joints(paths[i].segments, conn)) <= sum(
            joints((#[trigger] paths[j]).segments, conn),
        ) + 4000
}

proof fn lemma_lowest(paths: Seq<PathView>, conn: Option<ConnView>)
    requires
        paths.len() > 0,
    ensures
        forall|j: int|
            0 <= j < paths.len() ==> reranker::lowest_structure(paths, conn)
                <= reranker::structure_cost((#[trigger] paths[j]).segments, conn),
        exists|j: int|
            0 <= j < paths.len() && reranker::lowest_structure(paths, conn)
                == reranker::structure_cost((#[trigger] paths[j]).segments, conn),
    decreases paths.len(),
{
    let last = paths.len() - 1;
    assert(paths[last] == paths.last());
    if paths.len() > 1 {
        let t = paths.drop_last();
        lemma_lowest(t, conn);
        let j = choose|j: int|
            0 <= j < t.len() && reranker::lowest_structure(t, conn) == reranker::structure_cost(
                (#[trigger] t[j]).segments,
                conn,
            );
        assert(paths[j] == t[j]);
        assert forall|k: int| 0 <= k < paths.len() implies reranker::lowest_structure(paths, conn)
            <= reranker::structure_cost((#[trigger] paths[k]).segments, conn) by {
            if k < last {
                assert(paths[k] == t[k]);
            }
        }
    }
}

proof fn lemma_near(paths: Seq<PathView>, conn: Option<ConnView>, i: int)
    requires
        0 <= i < paths.len(),
        forall|j: int| 0 <= j < paths.len() ==> (#[trigger] paths[j]).segments.len() <= 1_000_000,
    ensures
        is_near(paths, conn, i) <==> reranker::structure_cost(paths[i].segments, conn)
            <= arith::plus(reranker::lowest_structure(paths, conn), 4000),
{
    lemma_lowest(paths, conn);
    assert forall|j: int| 0 <= j < paths.len() implies reranker::structure_cost(
        (#[trigger] paths[j]).segments,
        conn,
    ) == sum(joints(paths[j].segments, conn)) && -0x8000 * 1_000_000 <= sum(
        joints(paths[j].segments, conn),
    ) <= 0x8000 * 1_000_000 by {
        structure_costs_are_sums(paths[j].segments, conn);
    }
    let m = choose|j: int|
        0 <= j < paths.len() && reranker::lowest_structure(paths, conn) == reranker::structure_cost(
            (#[trigger] paths[j]).segments,
            conn,
        );
    let low = reranker::lowest_structure(paths, conn);
    assert(sum(joints(paths[m].segments, conn)) == low);
    if reranker::structure_cost(paths[i].segments, conn) <= arith::plus(low, 4000) {
        assert forall|j: int| 0 <= j < paths.len() implies sum(joints(paths[i].segments, conn))
            <= sum(joints((#[trigger] paths[j]).segments, conn)) + 4000 by {
            assert(low <= reranker::structure_cost(paths[j].segments, conn));
        }
    }
}

proof fn lemma_kept<T: Ranked>(s: Seq<T>, x: T)
    ensures
        s.contains(x) <==> ordering::ranked_order(s).contains(x),
{
    broadcast use vstd::seq_lib::group_to_multiset_ensures;

    ordering::ranked_order_sorts(s);
    assert(s.to_multiset().contains(x) == ordering::ranked_order(s).to_multiset().contains(x));
}

proof fn lemma_filtered(paths: Seq<PathView>, f: spec_fn(PathView) -> bool, x: PathView)
    ensures
        paths.filter(f).contains(x) <==> paths.contains(x) && f(x),
    decreases paths.len(),
{
    broadcast use vstd::seq_lib::group_filter_ensures;

    if paths.contains(x) && f(x) {
        let i = choose|i: int| 0 <= i < paths.len() && paths[i] == x;
        paths.lemma_filter_contains(f, i);
    }
    if paths.filter(f).contains(x) {
        let s = paths.filter(f);
        let k = choose|k: int| 0 <= k < s.len() && s[k] == x;
        paths.lemma_filter_pred(f, k);
        paths.lemma_filter_contains_rev(f, x);
    }
}

/// Of several paths those are kept whose structure cost is no more than 4000 above
/// that of any other, each with its segments.
pub proof fn near_paths_are_kept(paths: Seq<PathView>, conn: Option<ConnView>, i: int) -> (k: int)
    requires
        paths.len() >= 2,
        0 <= i < paths.len(),
        forall|j: int| 0 <= j < paths.len() ==> (#[trigger] paths[j]).segments.len() <= 1_000_000,
        is_near(paths, conn, i),
    ensures
        0 <= k < reranker::reranked(paths, conn).len(),
        reranker::reranked(paths, conn)[k] == reranker::adjusted(paths[i], conn),
        reranker::reranked(paths, conn)[k].segments == paths[i].segments,
{
    lemma_near(paths, conn, i);
    let f = reranker::within(
        conn,
        arith::plus(reranker::lowest_structure(paths, conn), reranker::STRUCTURE_COST_FILTER),
    );
    lemma_filtered(paths, f, paths[i]);
    let near = reranker::near_lowest(paths, conn);
    assert(paths.contains(paths[i]));
    let m = choose|m: int| 0 <= m < near.len() && near[m] == paths[i];
    let all = reranker::all_adjusted(near, conn);
    lemma_kept(all, all[m]);
    assert(all.contains(all[m]));
    let r = reranker::reranked(paths, conn);
    let k = choose|k: int| 0 <= k < r.len() && r[k] == all[m];
    k
}

/// Every path that ranking leaves is one of those, and the order is that of the
/// adjusted costs.
pub proof fn ranked_paths_are_near(paths: Seq<PathView>, conn: Option<ConnView>, k: int) -> (i: int)
    requires
        paths.len() >= 2,
        0 <= k < reranker::reranked(paths, conn).len(),
        forall|j: int| 0 <= j < paths.len() ==> (#[trigger] paths[j]).segments.len() <= 1_000_000,
    ensures
        0 <= i < paths.len(),
        is_near(paths, conn, i),
        reranker::reranked(paths, conn)[k] == reranker::adjusted(paths[i], conn),
        k > 0 ==> reranker::reranked(paths, conn)[k - 1].viterbi_cost <= reranker::reranked(
            paths,
            conn,
        )[k].viterbi_cost,
{
    let f = reranker::within(
        conn,
        arith::plus(reranker::lowest_structure(paths, conn), reranker::STRUCTURE_COST_FILTER),
    );
    let near = reranker::near_lowest(paths, conn);
    let all = reranker::all_adjusted(near, conn);
    let r = reranker::reranked(paths, conn);
    ordering::ranked_order_sorts(all);
    lemma_kept(all, r[k]);
    assert(r.contains(r[k]));
    let m = choose|m: int| 0 <= m < all.len() && all[m] == r[k];
    lemma_filtered(paths, f, near[m]);
    assert(near.contains(near[m]));
    let i = choose|i: int| 0 <= i < paths.len() && paths[i] == near[m];
    lemma_near(paths, conn, i);
    if k > 0 {
        assert(r[k - 1].rank() <= r[k].rank());
    }
    i
}

proof fn lemma_counts(segs: Seq<RichView>)
    requires
        segs.len() <= 1000,
        forall|i: int| 0 <= i < segs.len() ==> (#[trigger] segs[i]).reading.len() <= 1000,
    ensures
        ({
            let l = lengths(segs);
            &&& arith::total(reranker::lengths(segs)) == sum(l)
            &&& 0 <= sum(l) <= 1_000_000
            &&& arith::total(reranker::squares(reranker::lengths(segs))) == sum(squares(l))
            &&& 0 <= sum(squares(l)) <= 1_000_000_000
        }),
{
    let l = lengths(segs);
    let t = reranker::lengths(segs);
    assert forall|i: int| 0 <= i < l.len() implies t[i] == #[trigger] l[i] && -1000 <= l[i]
        <= 1000 by {
        assert(segs[i].reading.len() <= 1000);
    }
    lemma_total(t, l, 1000);
    lemma_not_negative(l);
    let q = squares(l);
    let u = reranker::squares(t);
    assert forall|i: int| 0 <= i < q.len() implies u[i] == #[trigger] q[i] && -1_000_000 <= q[i]
        <= 1_000_000 by {
        assert(t[i] == l[i] && 0 <= l[i] <= 1000);
        assert(0 <= l[i] * l[i] <= 1_000_000) by (nonlinear_arith)
            requires
                0 <= l[i] <= 1000,
        ;
    }
    assert forall|i: int| 0 <= i < q.len() implies 0 <= #[trigger] q[i] by {
        assert(0 <= l[i] * l[i]) by (nonlinear_arith);
    }
    lemma_total(u, q, 1_000_000);
    lemma_not_negative(q);
}

proof fn lemma_not_negative(s: Seq<int>)
    requires
        forall|i: int| 0 <= i < s.len() ==> 0 <= #[trigger] s[i],
    ensures
        0 <= sum(s),
    decreases s.len(),
{
    if s.len() > 0 {
        let t = s.drop_last();
        assert forall|i: int| 0 <= i < t.len() implies 0 <= #[trigger] t[i] by {
            assert(t[i] == s[i]);
        }
        lemma_not_negative(t);
        assert(0 <= s[s.len() - 1]);
    }
}

/// What ranking adds to the cost of a path: a quarter of its structure cost, 2000
/// times the variance of the lengths of its readings where it has two segments or
/// more, and its script costs once more.
pub proof fn adjusted_costs_are_sums(path: PathView, conn: Option<ConnView>)
    requires
        path.segments.len() <= 1000,
        forall|i: int|
            0 <= i < path.segments.len() ==> (#[trigger] path.segments[i]).reading.len() <= 1000,
        -0x1000_0000_0000_0000 <= path.viterbi_cost <= 0x1000_0000_0000_0000,
    ensures
        ({
            let segs = path.segments;
            let n = segs.len() as int;
            let l = lengths(segs);
            let spread = n * sum(squares(l)) - sum(l) * sum(l);
            reranker::adjusted(path, conn).viterbi_cost == path.viterbi_cost + rounded(
                sum(joints(segs, conn)),
                4,
            ) + sum(scripts(segs)) + if n < 2 {
                0
            } else {
                rounded(spread * 2000, n * n)
            }
        }),
        reranker::adjusted(path, conn).segments == path.segments,
{
    let segs = path.segments;
    let n = segs.len() as int;
    structure_costs_are_sums(segs, conn);
    lemma_counts(segs);
    let l = lengths(segs);
    let s = scripts(segs);
    let t = reranker::script_costs(segs);
    assert forall|i: int| 0 <= i < s.len() implies t[i] == #[trigger] s[i] && -20000 <= s[i]
        <= 20000 by {}
    lemma_total(t, s, 20000);
    let a = sum(squares(l));
    let b = sum(l);
    assert(0 <= n * a <= 1_000_000_000_000) by (nonlinear_arith)
        requires
            0 <= n <= 1000,
            0 <= a <= 1_000_000_000,
    ;
    assert(0 <= b * b <= 1_000_000_000_000) by (nonlinear_arith)
        requires
            0 <= b <= 1_000_000,
    ;
    if n >= 2 {
        assert(4 <= n * n <= 1_000_000) by (nonlinear_arith)
            requires
                2 <= n <= 1000,
        ;
        let x = (n * a - b * b) * 2000;
        let nn = n * n;
        assert(x >= 0 ==> 0 <= x / nn <= x) by (nonlinear_arith)
            requires
                nn >= 4,
        ;
        assert(x < 0 ==> 0 <= (-x) / nn <= -x) by (nonlinear_arith)
            requires
                nn >= 4,
        ;
    }
}

/// The boosts of the segments of a path, each by itself.
pub open spec fn word_boosts(segs: Seq<RichView>, h: HistoryView) -> Seq<int> {
    Seq::new(segs.len(), |i: int| h.unigram_boost(segs[i].reading, segs[i].surface) as int)
}

/// The boosts of the segments of a path behind their neighbours.
pub open spec fn pair_boosts(segs: Seq<RichView>, h: HistoryView) -> Seq<int> {
    Seq::new(
        if segs.len() == 0 {
            0
        } else {
            (segs.len() - 1) as nat
        },
        |i: int|
            h.bigram_boost(segs[i].surface, segs[i + 1].reading, segs[i + 1].surface) as int,
    )
}

proof fn lemma_sum_of_both(a: Seq<int>, b: Seq<int>)
    ensures
        sum(a + b) == sum(a) + sum(b),
    decreases b.len(),
{
    if b.len() == 0 {
        assert(a + b =~= a);
    } else {
        lemma_sum_of_both(a, b.drop_last());
        assert((a + b).drop_last() =~= a + b.drop_last());
        assert((a + b).last() == b.last());
    }
}

/// The history takes off the cost of a path the boosts of its words, by themselves and
/// behind their neighbours, as long as no word was used too often to count; every path
/// stays, and the cheapest come first.
pub proof fn history_takes_boosts_off(paths: Seq<PathView>, h: HistoryView, i: int) -> (k: int)
    requires
        0 <= i < paths.len(),
        paths[i].segments.len() <= 400_000,
        -0x1000_0000_0000_0000 <= paths[i].viterbi_cost <= 0x1000_0000_0000_0000,
        forall|j: int|
            0 <= j < paths[i].segments.len() ==> -0x1_0000_0000 <= #[trigger] word_boosts(
                paths[i].segments,
                h,
            )[j] <= 0x1_0000_0000,
        forall|j: int|
            0 <= j < paths[i].segments.len() - 1 ==> -0x1_0000_0000 <= #[trigger] pair_boosts(
                paths[i].segments,
                h,
            )[j] <= 0x1_0000_0000,
    ensures
        0 <= k < reranker::history_ranked(paths, h).len(),
        reranker::history_ranked(paths, h)[k].segments == paths[i].segments,
        reranker::history_ranked(paths, h)[k].viterbi_cost == paths[i].viterbi_cost - sum(
            word_boosts(paths[i].segments, h),
        ) - sum(pair_boosts(paths[i].segments, h)),
{
    boosts_are_sums(paths[i].segments, h);
    let all = Seq::new(paths.len(), |i: int| reranker::boosted(paths[i], h));
    lemma_kept(all, all[i]);
    assert(all.contains(all[i]));
    let r = reranker::history_ranked(paths, h);
    let k = choose|k: int| 0 <= k < r.len() && r[k] == all[i];
    k
}

/// A word that goes to the phrase before it: a function word, whose ids have a range of
/// their own, or a suffix.
pub open spec fn leans_back(conn: ConnView, s: RichView) -> bool {
    ||| conn.fw_min != 0 && conn.fw_min <= s.left_id && s.left_id <= conn.fw_max
    ||| (s.left_id as int) < conn.roles.len() && conn.roles[s.left_id as int] == 2
}

/// A word that the next content word joins.
pub open spec fn leans_on(conn: ConnView, s: RichView) -> bool {
    &&& !leans_back(conn, s)
    &&& (s.left_id as int) < conn.roles.len()
    &&& conn.roles[s.left_id as int] == 3
}

/// There is a word that does not lean back.
pub open spec fn has_content(conn: ConnView, segs: Seq<RichView>) -> bool {
    exists|i: int| 0 <= i < segs.len() && !leans_back(conn, #[trigger] segs[i])
}

/// The last word that does not lean back waits for the next one.
pub open spec fn prefix_waits(conn: ConnView, segs: Seq<RichView>) -> bool
    decreases segs.len(),
{
    if segs.len() == 0 {
        false
    } else if leans_back(conn, segs.last()) {
        prefix_waits(conn, segs.drop_last())
    } else {
        leans_on(conn, segs.last())
    }
}

/// A phrase with one more word: read and written one behind the other, with the left
/// id and the cost of the first and the right id of the last.
pub open spec fn is_joined(a: RichView, b: RichView, r: RichView) -> bool {
    &&& r.reading == a.reading + b.reading
    &&& r.surface == a.surface + b.surface
    &&& r.left_id == a.left_id
    &&& r.right_id == b.right_id
    &&& r.word_cost == a.word_cost
}

proof fn lemma_same_groups(segs: Seq<RichView>, x: RichView, conn: ConnView, i: nat)
    requires
        i <= segs.len(),
    ensures
        postprocess::group_upto(segs.push(x), conn, i) == postprocess::group_upto(segs, conn, i),
    decreases i,
{
    if i > 0 {
        lemma_same_groups(segs, x, conn, (i - 1) as nat);
        assert(segs.push(x)[i - 1] == segs[i - 1]);
    }
}

proof fn lemma_grouping(segs: Seq<RichView>, conn: ConnView)
    ensures
        ({
            let g = postprocess::group_upto(segs, conn, segs.len());
            &&& g.current is Some <==> has_content(conn, segs)
            &&& g.pending <==> prefix_waits(conn, segs)
            &&& segs.len() > 0 ==> postprocess::grouped(segs, conn) == postprocess::flushed(g)
            &&& segs.len() > 0 ==> postprocess::flushed(g).len() > 0
            &&& g.pending ==> g.current is Some
        }),
    decreases segs.len(),
{
    if segs.len() > 0 {
        let t = segs.drop_last();
        let x = segs.last();
        lemma_grouping(t, conn);
        lemma_same_groups(t, x, conn, t.len());
        assert(t.push(x) =~= segs);
        if has_content(conn, t) {
            let i = choose|i: int| 0 <= i < t.len() && !leans_back(conn, #[trigger] t[i]);
            assert(!leans_back(conn, segs[i]));
        }
        if !leans_back(conn, x) {
            assert(!leans_back(conn, segs[segs.len() - 1]));
        } else if has_content(conn, segs) {
            let i = choose|i: int| 0 <= i < segs.len() && !leans_back(conn, #[trigger] segs[i]);
            assert(segs[i] == t[i]);
        }
        if segs.len() == 1 {
            assert(t =~= Seq::<RichView>::empty());
            let g = postprocess::group_upto(segs, conn, 1);
            assert(postprocess::group_upto(segs, conn, 0).done == Seq::<RichView>::empty());
            assert(postprocess::flushed(g) =~= segs);
        }
    }
}

/// One more word either joins the last phrase or starts a phrase of its own. It joins
/// where it leans back and there is a word that does not, and where it is a content
/// word that a prefix waits for. All other phrases stay.
pub proof fn words_join_or_start_a_phrase(segs: Seq<RichView>, x: RichView, conn: ConnView)
    requires
        segs.len() > 0,
    ensures
        ({
            let before = postprocess::grouped(segs, conn);
            let after = postprocess::grouped(segs.push(x), conn);
            let joins = if leans_back(conn, x) {
                has_content(conn, segs)
            } else {
                prefix_waits(conn, segs) && !leans_on(conn, x)
            };
            &&& before.len() > 0
            &&& joins ==> after.len() == before.len() && after.drop_last() == before.drop_last()
                && is_joined(before.last(), x, after.last())
            &&& !joins ==> after == before.push(x)
        }),
{
    lemma_grouping(segs, conn);
    lemma_grouping(segs.push(x), conn);
    lemma_same_groups(segs, x, conn, segs.len());
    let g = postprocess::group_upto(segs, conn, segs.len());
    let n = postprocess::group_step(g, x, conn);
    assert(postprocess::group_upto(segs.push(x), conn, (segs.len() + 1) as nat) == n);
    let before = postprocess::flushed(g);
    let after = postprocess::flushed(n);
    if g.current is Some {
        assert(before.drop_last() =~= g.done);
        assert(before.last() == g.current->0);
    }
    if n.current is Some {
        assert(after.drop_last() =~= n.done);
        assert(after.last() == n.current->0);
    }
}

/// A single word is a phrase.
pub proof fn single_words_are_phrases(x: RichView, conn: ConnView)
    ensures
        postprocess::grouped(seq![x], conn) == seq![x],
{
}

/// The segments of a path as phrases: without a matrix as they are, with one grouped.
pub open spec fn phrases(segs: Seq<RichView>, conn: Option<ConnView>) -> Seq<RichView> {
    match conn {
        Some(c) => postprocess::grouped(segs, c),
        None => segs,
    }
}

/// Whether plain segments are those of some phrases: the same readings and surfaces.
pub open spec fn shows(texts: Seq<viterbi::SegmentText>, segs: Seq<RichView>) -> bool {
    &&& texts.len() == segs.len()
    &&& forall|i: int|
        0 <= i < segs.len() ==> (#[trigger] texts[i]).reading == segs[i].reading && texts[i].surface
            == segs[i].surface
}

/// The `n` best conversions are the first `n` of three times as many paths as they are
/// ranked, in that order, as phrases, and behind them comes at most the katakana form.
pub proof fn conversions_come_as_ranked(
    words: Map<Seq<char>, Seq<crate::dict::EntryView>>,
    c: cost::CostModel,
    conn: Option<ConnView>,
    kana: Seq<char>,
    n: nat,
)
    requires
        kana.len() > 0,
        0 < n,
        3 * n <= usize::MAX,
    ensures
        ({
            let l = super::lattice::lattice_of(words, kana);
            let ranked = reranker::reranked(viterbi::nbest(l, c, 3 * n), conn);
            let r = convert::nbest_converted(words, c, conn, kana, n);
            let m = if ranked.len() < n {
                ranked.len()
            } else {
                n
            };
            &&& m <= r.len() <= m + 1
            &&& forall|i: int|
                0 <= i < m ==> shows(#[trigger] r[i], phrases(ranked[i].segments, conn))
            &&& r.len() == m + 1 ==> r[m as int].len() == 1 && r[m as int][0].reading == kana
                && r[m as int][0].surface == crate::unicode::all_to_katakana(kana)
        }),
{
    let l = super::lattice::lattice_of(words, kana);
    let ranked = reranker::reranked(viterbi::nbest(l, c, 3 * n), conn);
    let best = viterbi::top(ranked, n);
    let all = super::rewriter::with_katakana(best, kana);
    let r = convert::nbest_converted(words, c, conn, kana, n);
    assert forall|i: int| 0 <= i < best.len() implies shows(
        #[trigger] r[i],
        phrases(ranked[i].segments, conn),
    ) by {
        assert(all[i] == best[i]);
    }
    if all.len() > best.len() {
        let k = best.len() as int;
        let segs = all[k].segments;
        assert(segs.len() == 1);
        if conn is Some {
            assert(postprocess::grouped(segs, conn->0) == segs);
        }
        assert(r[k].len() == 1);
    }
}

/// The best conversion is the first of ten paths as they are ranked, with the history
/// where there is one.
pub proof fn best_conversion_ranks_first(
    words: Map<Seq<char>, Seq<crate::dict::EntryView>>,
    c: cost::CostModel,
    conn: Option<ConnView>,
    history: Option<HistoryView>,
    kana: Seq<char>,
)
    requires
        kana.len() > 0,
    ensures
        ({
            let l = super::lattice::lattice_of(words, kana);
            let near = reranker::reranked(viterbi::nbest(l, c, 10), conn);
            let ranked = match history {
                Some(h) => reranker::history_ranked(near, h),
                None => near,
            };
            ranked.len() > 0 ==> shows(
                convert::converted(words, c, conn, history, kana),
                phrases(ranked[0].segments, conn),
            )
        }),
{
    let l = super::lattice::lattice_of(words, kana);
    let near = reranker::reranked(viterbi::nbest(l, c, 10), conn);
    let ranked = match history {
        Some(h) => reranker::history_ranked(near, h),
        None => near,
    };
    if ranked.len() > 0 {
        let best = viterbi::top(ranked, 1);
        assert(best[0] == ranked[0]);
        let all = super::rewriter::with_katakana(best, kana);
        assert(all[0] == ranked[0]);
        assert(viterbi::top(all, 1)[0] == all[0]);
    }
}

/// The conversions with a history are the first of three times as many paths as they
/// are ranked, and no more than were asked for.
pub proof fn conversions_with_history_come_as_ranked(
    words: Map<Seq<char>, Seq<crate::dict::EntryView>>,
    conn: Option<ConnView>,
    h: HistoryView,
    kana: Seq<char>,
    n: nat,
)
    requires
        kana.len() > 0,
        0 < n,
        3 * n <= usize::MAX,
    ensures
        ({
            let l = super::lattice::lattice_of(words, kana);
            let ranked = reranker::history_ranked(
                reranker::reranked(
                    viterbi::nbest(l, cost::default_model(conn), 3 * n),
                    conn,
                ),
                h,
            );
            let r = convert::nbest_with_history(words, conn, h, kana, n);
            &&& r.len() <= n
            &&& ranked.len() >= n ==> r.len() == n
            &&& ranked.len() < n ==> ranked.len() <= r.len() <= ranked.len() + 1
            &&& forall|i: int|
                0 <= i < ranked.len() && i < n ==> shows(
                    #[trigger] r[i],
                    phrases(ranked[i].segments, conn),
                )
        }),
{
    let l = super::lattice::lattice_of(words, kana);
    let ranked = reranker::history_ranked(
        reranker::reranked(viterbi::nbest(l, cost::default_model(conn), 3 * n), conn),
        h,
    );
    let best = viterbi::top(ranked, n);
    let all = super::rewriter::with_katakana(best, kana);
    let r = convert::nbest_with_history(words, conn, h, kana, n);
    assert forall|i: int| 0 <= i < ranked.len() && i < n implies shows(
        #[trigger] r[i],
        phrases(ranked[i].segments, conn),
    ) by {
        assert(all[i] == best[i]);
        assert(viterbi::top(all, n)[i] == all[i]);
    }
}

proof fn lemma_worst(paths: Seq<PathView>)
    requires
        paths.len() > 0,
    ensures
        forall|i: int|
            0 <= i < paths.len() ==> (#[trigger] paths[i]).viterbi_cost
                <= super::rewriter::worst_cost(paths),
        exists|i: int|
            0 <= i < paths.len() && (#[trigger] paths[i]).viterbi_cost
                == super::rewriter::worst_cost(paths),
    decreases paths.len(),
{
    assert(paths[paths.len() - 1] == paths.last());
    if paths.len() > 1 {
        let t = paths.drop_last();
        lemma_worst(t);
        let j = choose|j: int|
            0 <= j < t.len() && (#[trigger] t[j]).viterbi_cost == super::rewriter::worst_cost(t);
        assert(paths[j] == t[j]);
        assert forall|i: int| 0 <= i < paths.len() implies (#[trigger] paths[i]).viterbi_cost
            <= super::rewriter::worst_cost(paths) by {
            if i < t.len() {
                assert(paths[i] == t[i]);
            }
        }
    }
}

/// The katakana form costs 10000 more than the most expensive path, and stands for the
/// whole reading as one segment.
pub proof fn katakana_costs_most(paths: Seq<PathView>, reading: Seq<char>)
    requires
        forall|i: int|
            0 <= i < paths.len() ==> viterbi::surface_of((#[trigger] paths[i]).segments)
                != crate::unicode::all_to_katakana(reading),
        forall|i: int|
            0 <= i < paths.len() ==> (#[trigger] paths[i]).viterbi_cost <= 0x1000_0000_0000_0000,
    ensures
        ({
            let r = super::rewriter::with_katakana(paths, reading);
            let k = r.last();
            &&& r.len() == paths.len() + 1
            &&& r.drop_last() == paths
            &&& k.segments.len() == 1
            &&& k.segments[0].reading == reading
            &&& k.segments[0].surface == crate::unicode::all_to_katakana(reading)
            &&& forall|i: int|
                0 <= i < paths.len() ==> (#[trigger] paths[i]).viterbi_cost + 10000
                    <= k.viterbi_cost
            &&& paths.len() == 0 ==> k.viterbi_cost == 10000
            &&& paths.len() > 0 ==> exists|i: int|
                0 <= i < paths.len() && (#[trigger] paths[i]).viterbi_cost + 10000 == k.viterbi_cost
        }),
{
    let r = super::rewriter::with_katakana(paths, reading);
    assert(r.drop_last() =~= paths);
    if paths.len() > 0 {
        lemma_worst(paths);
        let m = choose|i: int|
            0 <= i < paths.len() && (#[trigger] paths[i]).viterbi_cost
                == super::rewriter::worst_cost(paths);
        assert(paths[m].viterbi_cost + 10000 == r.last().viterbi_cost);
    }
}

/// What the history takes off a path in all.
pub proof fn boosts_are_sums(segs: Seq<RichView>, h: HistoryView)
    requires
        segs.len() <= 400_000,
        forall|j: int|
            0 <= j < segs.len() ==> -0x1_0000_0000 <= #[trigger] word_boosts(segs, h)[j]
                <= 0x1_0000_0000,
        forall|j: int|
            0 <= j < segs.len() - 1 ==> -0x1_0000_0000 <= #[trigger] pair_boosts(segs, h)[j]
                <= 0x1_0000_0000,
    ensures
        arith::total(reranker::boosts(segs, h)) == sum(word_boosts(segs, h)) + sum(
            pair_boosts(segs, h),
        ),
        -0x1_0000_0000 * 1_000_000 <= arith::total(reranker::boosts(segs, h)) <= 0x1_0000_0000
            * 1_000_000,
{
    let a = word_boosts(segs, h);
    let b = pair_boosts(segs, h);
    let t = reranker::boosts(segs, h);
    let s = a + b;
    assert forall|j: int| 0 <= j < s.len() implies t[j] == #[trigger] s[j] && -0x1_0000_0000
        <= s[j] <= 0x1_0000_0000 by {
        if j < a.len() {
            assert(s[j] == a[j]);
        } else {
            assert(s[j] == b[j - a.len()]);
        }
    }
    lemma_total(t, s, 0x1_0000_0000);
    lemma_sum_of_both(a, b);
}

/// Paths that keep a confirmed prefix, and drafts without one, are the first `n` of
/// three times as many paths, as they are ranked without the history.
pub proof fn drafts_come_as_ranked(
    words: Map<Seq<char>, Seq<crate::dict::EntryView>>,
    conn: Option<ConnView>,
    kana: Seq<char>,
    prefix: super::constrained::PrefixView,
    n: nat,
)
    requires
        3 * n <= usize::MAX,
    ensures
        ({
            let l = super::lattice::lattice_of(words, kana);
            let a = reranker::reranked(viterbi::nbest(l, cost::default_model(conn), 3 * n), conn);
            let b = reranker::reranked(
                viterbi::nbest(l, super::constrained::constrained_model(conn, prefix), 3 * n),
                conn,
            );
            let d = crate::neural::speculative::drafts(words, conn, kana, n);
            let e = convert::nbest_constrained(words, conn, kana, prefix, n);
            &&& d == if a.len() <= n {
                a
            } else {
                a.take(n as int)
            }
            &&& e == if b.len() <= n {
                b
            } else {
                b.take(n as int)
            }
        }),
{
}

} // verus!
