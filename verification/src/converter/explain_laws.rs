//! What an explanation says of a path.

use vstd::prelude::*;

use super::cost;
use super::explain;
use super::lattice::LatticeView;
use super::path_laws;
use super::ranking_laws;
use super::viterbi::{self, PathView, RichView};
use crate::dict::connection::ConnView;
use crate::ordering::{self, Ranked};
use crate::seqs;
use crate::user_history::HistoryView;

verus! {

/// The node at place `k` is the first of the word of a segment with its left id.
pub open spec fn is_first_node(l: LatticeView, seg: RichView, k: int) -> bool {
    &&& 0 <= k < l.nodes.len()
    &&& l.nodes[k].reading == seg.reading
    &&& l.nodes[k].surface == seg.surface
    &&& l.nodes[k].left_id == seg.left_id
    &&& forall|j: int|
        0 <= j < k ==> (#[trigger] l.nodes[j]).reading != seg.reading || l.nodes[j].surface
            != seg.surface || l.nodes[j].left_id != seg.left_id
}

/// Each segment is explained by the cost of its word, the penalty of a segment, the
/// cost of its script, and the cost of its connection to the segment before it, or to
/// the beginning of the string.
pub proof fn segments_are_explained(
    l: LatticeView,
    p: PathView,
    conn: Option<ConnView>,
    history: Option<HistoryView>,
    i: int,
    k: int,
)
    requires
        0 <= i < p.segments.len(),
        is_first_node(l, p.segments[i], k),
    ensures
        ({
            let e = explain::explained(l, p, conn, history);
            let s = e.segments[i];
            &&& e.segments.len() == p.segments.len()
            &&& s.reading == p.segments[i].reading
            &&& s.surface == p.segments[i].surface
            &&& s.word_cost == l.nodes[k].cost
            &&& s.segment_penalty == 5000
            &&& s.script_cost == cost::script_cost_of(p.segments[i].surface)
            &&& i == 0 ==> s.connection_cost == path_laws::joint(conn, 0, p.segments[0].left_id)
            &&& i > 0 ==> s.connection_cost == path_laws::joint(
                conn,
                p.segments[i - 1].right_id,
                p.segments[i].left_id,
            )
            &&& e.viterbi_cost == p.viterbi_cost
        }),
{
    let seg = p.segments[i];
    let f = explain::is_entry(seg.reading, seg.surface, seg.left_id);
    seqs::lemma_first_from(l.nodes, f, 0);
    let r = seqs::first_place(l.nodes, f);
    if r < k {
        assert(f(l.nodes[r]));
    } else if r > k {
        assert(!f(l.nodes[k]));
    }
}

/// The nodes of the words of some segments have the ids of the segments.
pub open spec fn ids_agree(l: LatticeView, segs: Seq<RichView>) -> bool {
    forall|i: int| 0 <= i < segs.len() ==> #[trigger] has_ids(l, segs[i])
}

/// The word of a segment is in the lattice, with the ids of the segment alone.
pub open spec fn has_ids(l: LatticeView, seg: RichView) -> bool {
    &&& exists|k: int|
        0 <= k < l.nodes.len() && (#[trigger] l.nodes[k]).reading == seg.reading
            && l.nodes[k].surface == seg.surface
    &&& forall|k: int|
        0 <= k < l.nodes.len() && (#[trigger] l.nodes[k]).reading == seg.reading
            && l.nodes[k].surface == seg.surface ==> l.nodes[k].left_id == seg.left_id
            && l.nodes[k].right_id == seg.right_id
}

proof fn lemma_ids(l: LatticeView, seg: RichView)
    requires
        has_ids(l, seg),
    ensures
        explain::left_of(l, seg.reading, seg.surface) == seg.left_id,
        explain::right_of(l, seg.reading, seg.surface) == seg.right_id,
{
    let f = explain::is_word(seg.reading, seg.surface);
    seqs::lemma_first_from(l.nodes, f, 0);
    let r = seqs::first_place(l.nodes, f);
    let k = choose|k: int|
        0 <= k < l.nodes.len() && (#[trigger] l.nodes[k]).reading == seg.reading
            && l.nodes[k].surface == seg.surface;
    assert(f(l.nodes[k]));
    if r > k {
        assert(!f(l.nodes[k]));
    }
    assert(f(l.nodes[r]));
}

/// The connection costs along a path, from the beginning of the string.
pub open spec fn links(segs: Seq<RichView>, conn: Option<ConnView>) -> Seq<int> {
    Seq::new(
        segs.len(),
        |i: int|
            if i == 0 {
                path_laws::joint(conn, 0, segs[0].left_id)
            } else {
                path_laws::joint(conn, segs[i - 1].right_id, segs[i].left_id)
            },
    )
}

proof fn lemma_delta(l: LatticeView, segs: Seq<RichView>, conn: Option<ConnView>, n: nat)
    requires
        ids_agree(l, segs),
        n <= segs.len() <= 1_000_000,
    ensures
        explain::delta_upto(l, segs, conn, n) == ranking_laws::sum(
            links(segs, conn).take(n as int),
        ) + ranking_laws::sum(ranking_laws::scripts(segs).take(n as int)),
        -0x1_0000 * n <= explain::delta_upto(l, segs, conn, n) <= 0x1_0000 * n,
    decreases n,
{
    let a = links(segs, conn);
    let b = ranking_laws::scripts(segs);
    if n > 0 {
        let m = (n - 1) as nat;
        lemma_delta(l, segs, conn, m);
        assert(a.take(n as int).drop_last() =~= a.take(m as int));
        assert(b.take(n as int).drop_last() =~= b.take(m as int));
        assert(a.take(n as int).last() == a[m as int]);
        assert(b.take(n as int).last() == b[m as int]);
        assert(has_ids(l, segs[m as int]));
        lemma_ids(l, segs[m as int]);
        if n > 1 {
            assert(has_ids(l, segs[m - 1]));
            lemma_ids(l, segs[m - 1]);
        }
    } else {
        assert(a.take(0) =~= Seq::<int>::empty());
        assert(b.take(0) =~= Seq::<int>::empty());
    }
}

/// The final cost of an explained path: its cost in the search, with its connection
/// costs, those at the two ends of the string among them, and its script costs once
/// more, and with the boosts of the history taken off.
pub proof fn final_costs_are_sums(
    l: LatticeView,
    p: PathView,
    conn: Option<ConnView>,
    history: Option<HistoryView>,
)
    requires
        0 < p.segments.len() <= 400_000,
        ids_agree(l, p.segments),
        -0x1000_0000_0000_0000 <= p.viterbi_cost <= 0x1000_0000_0000_0000,
        history is Some ==> forall|j: int|
            0 <= j < p.segments.len() ==> -0x1_0000_0000 <= #[trigger] ranking_laws::word_boosts(
                p.segments,
                history->0,
            )[j] <= 0x1_0000_0000,
        history is Some ==> forall|j: int|
            0 <= j < p.segments.len() - 1 ==> -0x1_0000_0000
                <= #[trigger] ranking_laws::pair_boosts(p.segments, history->0)[j] <= 0x1_0000_0000,
    ensures
        ({
            let segs = p.segments;
            let e = explain::explained(l, p, conn, history);
            let delta = ranking_laws::sum(links(segs, conn)) + path_laws::joint(
                conn,
                segs.last().right_id,
                0,
            ) + ranking_laws::sum(ranking_laws::scripts(segs));
            let boost = match history {
                Some(h) => ranking_laws::sum(ranking_laws::word_boosts(segs, h))
                    + ranking_laws::sum(ranking_laws::pair_boosts(segs, h)),
                None => 0,
            };
            &&& e.rerank_delta == delta
            &&& e.history_boost == boost
            &&& e.final_cost == p.viterbi_cost + delta - boost
        }),
{
    let segs = p.segments;
    let n = segs.len();
    lemma_delta(l, segs, conn, n);
    assert(links(segs, conn).take(n as int) =~= links(segs, conn));
    assert(ranking_laws::scripts(segs).take(n as int) =~= ranking_laws::scripts(segs));
    assert(has_ids(l, segs[n - 1]));
    lemma_ids(l, segs[n - 1]);
    if history is Some {
        let h = history->0;
        ranking_laws::boosts_are_sums(segs, h);
    }
}

/// An explanation of `n` results looks at three times as many paths, and at 50 at
/// least, and shows the `n` with the lowest final costs.
pub proof fn explanations_look_at_enough_paths(
    l: LatticeView,
    conn: Option<ConnView>,
    history: Option<HistoryView>,
    n: nat,
    i: int,
    k: int,
)
    requires
        3 * n <= usize::MAX,
        ({
            let w = if 3 * n < 50 {
                50
            } else {
                3 * n
            };
            0 <= i < viterbi::nbest(l, cost::default_model(conn), w).len()
        }),
    ensures
        ({
            let w = if 3 * n < 50 {
                50
            } else {
                3 * n
            };
            let e = explain::explained(
                l,
                viterbi::nbest(l, cost::default_model(conn), w)[i],
                conn,
                history,
            );
            let r = explain::explained_paths(l, conn, history, n);
            r.contains(e) || (r.len() == n && (0 <= k < n ==> r[k].final_cost <= e.final_cost))
        }),
{
    let w = if 3 * n < 50 {
        50
    } else {
        3 * n
    };
    let raw = viterbi::nbest(l, cost::default_model(conn), w);
    let all = Seq::new(raw.len(), |i: int| explain::explained(l, raw[i], conn, history));
    let o = ordering::ranked_order(all);
    let r = explain::explained_paths(l, conn, history, n);
    ordering::ranked_order_sorts(all);
    assert(all.contains(all[i]));
    assert(o.contains(all[i])) by {
        broadcast use vstd::seq_lib::group_to_multiset_ensures;

        assert(all.to_multiset().contains(all[i]));
        assert(o.to_multiset().contains(all[i]));
    }
    let m = choose|m: int| 0 <= m < o.len() && o[m] == all[i];
    if m < r.len() {
        assert(r[m] == o[m]);
    } else if 0 <= k < n {
        assert(r[k] == o[k]);
        assert(o[k].rank() <= o[m].rank());
    }
}

} // verus!
