//! Search with a confirmed prefix.

use vstd::prelude::*;

use super::cost::{self, CostFunction, CostModel, DefaultCostFunction};
use super::lattice::{LatticeNode, LatticeView, NodeView};
use super::viterbi::{self, ConvertedSegment, SegmentText};
use crate::dict::connection::{self, ConnView, ConnectionMatrix};
use crate::text;

verus! {

/// A segment that is fixed: its place, its reading and its surface.
pub struct FixedView {
    pub start: usize,
    pub end: usize,
    pub reading: Seq<char>,
    pub surface: Seq<char>,
}

/// The views of (start, end, reading, surface) tuples.
pub open spec fn fixed_views(s: Seq<(usize, usize, String, String)>) -> Seq<FixedView> {
    Seq::new(
        s.len(),
        |i: int|
            FixedView { start: s[i].0, end: s[i].1, reading: s[i].2@, surface: s[i].3@ },
    )
}

/// Confirmed segments at the start of a conversion.
pub struct PrefixConstraint {
    /// Fixed segments: (start, end, reading, surface), in characters.
    pub segments: Vec<(usize, usize, String, String)>,
    /// Number of characters of the prefix.
    pub prefix_char_end: usize,
}

/// The number of characters that the first `i` segments read.
pub open spec fn chars_read(confirmed: Seq<SegmentText>, i: nat) -> nat
    decreases i,
{
    if i == 0 {
        0
    } else {
        chars_read(confirmed, (i - 1) as nat) + confirmed[i - 1].reading.len()
    }
}

/// A number of characters as a place; the largest place stands for all behind it.
pub open spec fn place(n: nat) -> usize {
    if n <= usize::MAX {
        n as usize
    } else {
        usize::MAX
    }
}

/// The confirmed segments with their places.
pub open spec fn placed(confirmed: Seq<SegmentText>) -> Seq<FixedView> {
    Seq::new(
        confirmed.len(),
        |i: int|
            FixedView {
                start: place(chars_read(confirmed, i as nat)),
                end: place(chars_read(confirmed, (i + 1) as nat)),
                reading: confirmed[i].reading,
                surface: confirmed[i].surface,
            },
    )
}

pub open spec fn is_fixed(node: NodeView) -> spec_fn(FixedView) -> bool {
    |f: FixedView|
        f.start == node.start && f.end == node.end && f.reading == node.reading && f.surface
            == node.surface
}

/// What a `PrefixConstraint` holds.
pub struct PrefixView {
    pub fixed: Seq<FixedView>,
    pub end: usize,
}

impl View for PrefixConstraint {
    type V = PrefixView;

    open spec fn view(&self) -> PrefixView {
        PrefixView { fixed: fixed_views(self.segments@), end: self.prefix_char_end }
    }
}

impl PrefixView {
    /// The constraint of confirmed segments.
    pub open spec fn of(confirmed: Seq<SegmentText>) -> PrefixView {
        PrefixView {
            fixed: placed(confirmed),
            end: place(chars_read(confirmed, confirmed.len())),
        }
    }

    /// Whether a node is one of the fixed segments.
    pub open spec fn has(self, node: NodeView) -> bool {
        exists|i: int| 0 <= i < self.fixed.len() && is_fixed(node)(#[trigger] self.fixed[i])
    }

    /// Whether the prefix allows a node: it lies behind the prefix, or is one
    /// of the fixed segments and does not run over the prefix.
    pub open spec fn allows(self, node: NodeView) -> bool {
        if node.start < self.end {
            node.end <= self.end && self.has(node)
        } else {
            true
        }
    }
}

impl PrefixConstraint {
    /// Builds a constraint from confirmed segments.
    pub fn from_confirmed(confirmed: &[ConvertedSegment]) -> (r: Self)
        ensures
            r@ == PrefixView::of(text::views(confirmed@)),
    {
        let ghost cs = text::views(confirmed@);
        let mut segments: Vec<(usize, usize, String, String)> = Vec::new();
        let mut pos: usize = 0;
        let mut i: usize = 0;
        while i < confirmed.len()
            invariant
                i <= confirmed@.len(),
                cs == text::views(confirmed@),
                pos == place(chars_read(cs, i as nat)),
                fixed_views(segments@) =~= placed(cs).take(i as int),
            decreases confirmed.len() - i,
        {
            let seg: &ConvertedSegment = &confirmed[i];
            let len: usize = seg.reading.as_str().unicode_len();
            proof {
                assert(cs[i as int] == seg@);
            }
            let end: usize = if len <= usize::MAX - pos {
                pos + len
            } else {
                usize::MAX
            };
            let ghost before = segments@;
            segments.push((pos, end, seg.reading.clone(), seg.surface.clone()));
            proof {
                assert(fixed_views(segments@) =~= fixed_views(before).push(placed(cs)[i as int]));
                assert(placed(cs).take(i + 1) =~= placed(cs).take(i as int).push(
                    placed(cs)[i as int],
                ));
            }
            pos = end;
            i = i + 1;
        }
        proof {
            assert(placed(cs).take(cs.len() as int) =~= placed(cs));
        }
        PrefixConstraint { segments, prefix_char_end: pos }
    }

    /// Whether a node starts in the prefix.
    pub fn is_in_prefix(&self, node: &LatticeNode) -> (r: bool)
        ensures
            r == (node.start < self.prefix_char_end),
    {
        node.start < self.prefix_char_end
    }

    /// Whether a node starts in the prefix and ends behind it.
    pub fn spans_boundary(&self, node: &LatticeNode) -> (r: bool)
        ensures
            r == (node.start < self.prefix_char_end < node.end),
    {
        node.start < self.prefix_char_end && node.end > self.prefix_char_end
    }

    /// Whether a node is one of the fixed segments.
    pub fn matches_fixed_segment(&self, node: &LatticeNode) -> (r: bool)
        ensures
            r == self@.has(node@),
    {
        let mut i: usize = 0;
        while i < self.segments.len()
            invariant
                i <= self.segments@.len(),
                forall|j: int| 0 <= j < i ==> !is_fixed(node@)(#[trigger] self@.fixed[j]),
            decreases self.segments.len() - i,
        {
            let f: &(usize, usize, String, String) = &self.segments[i];
            if node.start == f.0 && node.end == f.1 && node.reading == f.2 && node.surface == f.3 {
                proof {
                    assert(is_fixed(node@)(self@.fixed[i as int]));
                }
                return true;
            }
            i = i + 1;
        }
        false
    }
}

/// The cost that keeps nodes against the prefix out of the result.
pub const CONSTRAINT_VIOLATION_COST: i64 = 0x1FFF_FFFF_FFFF_FFFF;

/// Default costs, with a prohibitive word cost for nodes that `prefix` forbids.
pub open spec fn constrained_model(
    conn: Option<ConnView>,
    prefix: PrefixView,
) -> CostModel {
    CostModel {
        word: |node: NodeView|
            if prefix.allows(node) {
                cost::default_word_cost(node)
            } else {
                CONSTRAINT_VIOLATION_COST
            },
        ..cost::default_model(conn)
    }
}

/// The default cost function, with a prohibitive cost for nodes that
/// contradict the prefix.
pub struct PrefixConstrainedCost<'a> {
    inner: DefaultCostFunction<'a>,
    constraint: &'a PrefixConstraint,
}

impl<'a> PrefixConstrainedCost<'a> {
    pub closed spec fn matrix(self) -> Option<ConnView> {
        self.inner.matrix()
    }

    pub closed spec fn prefix(self) -> PrefixView {
        self.constraint@
    }

    pub fn new(conn: Option<&'a ConnectionMatrix>, constraint: &'a PrefixConstraint) -> (r: Self)
        ensures
            r.matrix() == connection::conn_view(conn),
            r.prefix() == constraint@,
    {
        PrefixConstrainedCost { inner: DefaultCostFunction::new(conn), constraint }
    }
}

impl<'a> CostFunction for PrefixConstrainedCost<'a> {
    open spec fn model(&self) -> CostModel {
        constrained_model(self.matrix(), self.prefix())
    }

    fn word_cost(&self, node: &LatticeNode) -> (r: i64) {
        if self.constraint.spans_boundary(node) {
            return CONSTRAINT_VIOLATION_COST;
        }
        if self.constraint.is_in_prefix(node) {
            if self.constraint.matches_fixed_segment(node) {
                self.inner.word_cost(node)
            } else {
                CONSTRAINT_VIOLATION_COST
            }
        } else {
            self.inner.word_cost(node)
        }
    }

    fn transition_cost(&self, prev: &LatticeNode, next: &LatticeNode) -> (r: i64) {
        self.inner.transition_cost(prev, next)
    }

    fn bos_cost(&self, node: &LatticeNode) -> (r: i64) {
        self.inner.bos_cost(node)
    }

    fn eos_cost(&self, node: &LatticeNode) -> (r: i64) {
        self.inner.eos_cost(node)
    }
}

/// The number of nodes up to which ordinary costs stay below half of the
/// prohibitive one.
pub const LONGEST: u64 = 0x3FF_FFFF_FFFF;

/// More than a node and the step to it can cost, or save.
pub const NODE_COST: i64 = 0x2_0000;

/// Whether all nodes of a path are allowed.
pub open spec fn keeps(prefix: PrefixView, l: LatticeView, p: Seq<usize>) -> bool {
    forall|i: int| 0 <= i < p.len() ==> prefix.allows(#[trigger] l.node(p[i] as int))
}

/// A path that keeps the prefix has an ordinary cost, any other a prohibitive one.
proof fn lemma_costs_apart(
    l: LatticeView,
    conn: Option<ConnView>,
    prefix: PrefixView,
    p: Seq<usize>,
)
    requires
        0 < p.len() <= LONGEST,
    ensures
        ({
            let cost = viterbi::path_cost(l, constrained_model(conn, prefix), p);
            &&& cost >= -NODE_COST * p.len()
            &&& keeps(prefix, l, p) ==> cost <= NODE_COST * p.len()
            &&& !keeps(prefix, l, p) ==> cost >= CONSTRAINT_VIOLATION_COST - NODE_COST * p.len()
        }),
    decreases p.len(),
{
    let q = p.drop_last();
    let node = l.node(p.last() as int);
    assert(p[p.len() - 1] == p.last());
    if p.len() > 1 {
        lemma_costs_apart(l, conn, prefix, q);
        assert forall|i: int| 0 <= i < q.len() implies #[trigger] q[i] == p[i] by {}
        if keeps(prefix, l, p) {
            assert forall|i: int| 0 <= i < q.len() implies prefix.allows(
                #[trigger] l.node(q[i] as int),
            ) by {
                assert(prefix.allows(l.node(p[i] as int)));
            }
            assert(prefix.allows(node));
        } else if keeps(prefix, l, q) {
            let i = choose|i: int|
                0 <= i < p.len() && !prefix.allows(#[trigger] l.node(p[i] as int));
            if i < q.len() {
                assert(prefix.allows(l.node(q[i] as int)));
            }
            assert(!prefix.allows(node));
        }
    } else {
        assert(keeps(prefix, l, p) == prefix.allows(node)) by {
            assert(prefix.allows(l.node(p[0] as int)) == prefix.allows(node));
        }
    }
}

/// A path that costs less than half of the prohibitive cost keeps the prefix.
pub proof fn cheap_paths_keep_the_prefix(
    l: LatticeView,
    conn: Option<ConnView>,
    prefix: PrefixView,
    p: Seq<usize>,
)
    requires
        0 < p.len() <= LONGEST,
        viterbi::full_cost(l, constrained_model(conn, prefix), p) < CONSTRAINT_VIOLATION_COST / 2,
    ensures
        keeps(prefix, l, p),
{
    lemma_costs_apart(l, conn, prefix, p);
}

/// A chain has no more nodes than it covers characters.
proof fn lemma_chain_is_short(l: LatticeView, p: Seq<usize>)
    requires
        l.wf(),
        viterbi::is_chain(l, p),
    ensures
        p.len() <= l.node(p.last() as int).end,
    decreases p.len(),
{
    let node = l.node(p.last() as int);
    assert(node.start < node.end);
    if p.len() > 1 {
        lemma_chain_is_short(l, p.drop_last());
    }
}

/// The search fixes the prefix: where some path over the whole string keeps it,
/// the first path that is found keeps it.
pub proof fn search_keeps_the_prefix(
    l: LatticeView,
    conn: Option<ConnView>,
    prefix: PrefixView,
    n: nat,
    p: Seq<usize>,
)
    requires
        l.wf(),
        l.char_count <= LONGEST,
        0 < n <= usize::MAX,
        viterbi::is_path(l, p),
        keeps(prefix, l, p),
    ensures
        ({
            let r = viterbi::nbest(l, constrained_model(conn, prefix), n);
            &&& r.len() > 0
            &&& exists|q: Seq<usize>|
                viterbi::is_path(l, q) && keeps(prefix, l, q) && r[0].segments
                    == #[trigger] viterbi::segments_of(l, q)
        }),
{
    let c = constrained_model(conn, prefix);
    lemma_chain_is_short(l, p);
    lemma_costs_apart(l, conn, prefix, p);
    viterbi::nbest_first_is_cheapest(l, c, n, p);
    viterbi::nbest_paths_are_real(l, c, n, 0);
    let r = viterbi::nbest(l, c, n);
    let q = choose|q: Seq<usize>|
        viterbi::is_path(l, q) && r[0].segments == #[trigger] viterbi::segments_of(l, q)
            && r[0].viterbi_cost == viterbi::full_cost(l, c, q);
    lemma_chain_is_short(l, q);
    cheap_paths_keep_the_prefix(l, conn, prefix, q);
}

/// A prefix without segments constrains nothing.
pub proof fn empty_prefix_constrains_nothing(conn: Option<ConnView>)
    ensures
        constrained_model(conn, PrefixView::of(Seq::empty())) == cost::default_model(conn),
{
    let prefix = PrefixView::of(Seq::empty());
    assert forall|node: NodeView| #[trigger] prefix.allows(node) by {
        assert(chars_read(Seq::empty(), 0) == 0);
    }
    assert(constrained_model(conn, prefix).word =~= cost::default_model(conn).word);
}

} // verus!
