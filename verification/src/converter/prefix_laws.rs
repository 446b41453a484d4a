//! What a confirmed prefix asks of a path.

use vstd::prelude::*;

use super::constrained::{self, PrefixView};
use super::cost;
use super::lattice::{LatticeView, NodeView};
use super::viterbi::{self, SegmentText};
use crate::dict::connection::ConnView;

verus! {

proof fn lemma_chain_links(l: LatticeView, p: Seq<usize>, i: int)
    requires
        viterbi::is_chain(l, p),
        0 <= i < p.len(),
    ensures
        p[i] < l.nodes.len(),
        i == 0 ==> l.node(p[0] as int).start == 0,
        i > 0 ==> l.node(p[i - 1] as int).end == l.node(p[i] as int).start,
    decreases p.len(),
{
    if p.len() > 1 && i < p.len() - 1 {
        lemma_chain_links(l, p.drop_last(), i);
    }
}

proof fn lemma_read_grows(confirmed: Seq<SegmentText>, i: nat, j: nat)
    requires
        i < j <= confirmed.len(),
        forall|k: int| 0 <= k < confirmed.len() ==> (#[trigger] confirmed[k]).reading.len() > 0,
    ensures
        constrained::chars_read(confirmed, i) < constrained::chars_read(confirmed, j),
    decreases j,
{
    assert(confirmed[j - 1].reading.len() > 0);
    if i < j - 1 {
        lemma_read_grows(confirmed, i, (j - 1) as nat);
    }
}

proof fn lemma_kept(l: LatticeView, confirmed: Seq<SegmentText>, p: Seq<usize>, i: int)
    requires
        viterbi::is_path(l, p),
        forall|k: int| 0 <= k < confirmed.len() ==> (#[trigger] confirmed[k]).reading.len() > 0,
        constrained::chars_read(confirmed, confirmed.len()) <= l.char_count,
        constrained::keeps(PrefixView::of(confirmed), l, p),
        0 <= i < confirmed.len(),
    ensures
        i < p.len(),
        l.node(p[i] as int).reading == confirmed[i].reading,
        l.node(p[i] as int).surface == confirmed[i].surface,
        l.node(p[i] as int).end == constrained::chars_read(confirmed, (i + 1) as nat),
    decreases i,
{
    let n = confirmed.len();
    let here = constrained::chars_read(confirmed, i as nat);
    lemma_read_grows(confirmed, i as nat, n);
    if i > 0 {
        lemma_kept(l, confirmed, p, i - 1);
    }
    if p.len() <= i {
        assert(i > 0 && p.len() == i);
        assert(p.last() == p[i - 1]);
    }
    lemma_chain_links(l, p, i);
    let node = l.node(p[i] as int);
    assert(node.start == here);
    let prefix = PrefixView::of(confirmed);
    assert(prefix.allows(node));
    let k = choose|k: int|
        0 <= k < prefix.fixed.len() && constrained::is_fixed(node)(#[trigger] prefix.fixed[k]);
    assert(prefix.fixed[k].start == constrained::place(constrained::chars_read(confirmed, k as nat)));
    if k < n {
        if k > 0 {
            lemma_read_grows(confirmed, k as nat, n);
        }
    }
    if k < i {
        lemma_read_grows(confirmed, k as nat, i as nat);
    } else if k > i {
        lemma_read_grows(confirmed, i as nat, k as nat);
        lemma_read_grows(confirmed, k as nat, n);
    }
    assert(k == i);
    if i + 1 < n {
        lemma_read_grows(confirmed, (i + 1) as nat, n);
    }
}

/// A path that keeps a confirmed prefix starts with the confirmed segments: one node
/// for each, with its reading and its surface.
pub proof fn kept_paths_start_with_the_prefix(
    l: LatticeView,
    confirmed: Seq<SegmentText>,
    p: Seq<usize>,
)
    requires
        viterbi::is_path(l, p),
        forall|k: int| 0 <= k < confirmed.len() ==> (#[trigger] confirmed[k]).reading.len() > 0,
        constrained::chars_read(confirmed, confirmed.len()) <= l.char_count,
        constrained::keeps(PrefixView::of(confirmed), l, p),
    ensures
        confirmed.len() <= p.len(),
        forall|i: int|
            0 <= i < confirmed.len() ==> l.node(#[trigger] p[i] as int).reading
                == confirmed[i].reading && l.node(p[i] as int).surface == confirmed[i].surface,
{
    assert forall|i: int| 0 <= i < confirmed.len() implies l.node(#[trigger] p[i] as int).reading
        == confirmed[i].reading && l.node(p[i] as int).surface == confirmed[i].surface by {
        lemma_kept(l, confirmed, p, i);
    }
    if confirmed.len() > 0 {
        lemma_kept(l, confirmed, p, confirmed.len() - 1);
    }
}

/// A word behind the prefix costs what it costs without one; so does a word of the
/// prefix at its place; every other word that starts in the prefix is prohibitive.
pub proof fn prefixes_leave_the_rest_alone(
    conn: Option<ConnView>,
    confirmed: Seq<SegmentText>,
    node: NodeView,
)
    requires
        constrained::chars_read(confirmed, confirmed.len()) <= usize::MAX,
    ensures
        ({
            let c = (constrained::constrained_model(conn, PrefixView::of(confirmed)).word)(node);
            let end = constrained::chars_read(confirmed, confirmed.len());
            let own = cost::default_word_cost(node);
            &&& node.start >= end ==> c == own
            &&& node.start < end && node.end > end ==> c == 0x1FFF_FFFF_FFFF_FFFF
            &&& node.start < end && (forall|i: int|
                0 <= i < confirmed.len() ==> (#[trigger] confirmed[i]).reading != node.reading
                    || confirmed[i].surface != node.surface) ==> c == 0x1FFF_FFFF_FFFF_FFFF
        }),
{
    let prefix = PrefixView::of(confirmed);
    if prefix.has(node) {
        let k = choose|k: int|
            0 <= k < prefix.fixed.len() && constrained::is_fixed(node)(#[trigger] prefix.fixed[k]);
        assert(confirmed[k].reading == node.reading);
    }
}

} // verus!
