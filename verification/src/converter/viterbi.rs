//! N-best Viterbi search over the lattice.

use vstd::prelude::*;

use super::cost::{CostFunction, CostModel};
use super::lattice::{Lattice, LatticeNode, LatticeView, NodeView};
use crate::arith::{self, sat_add};
use crate::ordering::{self, find_place, stable_sort, Ranked, RankedItem};
use crate::text::{self, contains_text, push_text};

verus! {

/// A segment in the conversion result.
#[derive(Debug)]
pub struct ConvertedSegment {
    /// The kana reading of this segment.
    pub reading: String,
    /// The converted surface form.
    pub surface: String,
}

/// What a `ConvertedSegment` holds.
pub struct SegmentText {
    pub reading: Seq<char>,
    pub surface: Seq<char>,
}

impl View for ConvertedSegment {
    type V = SegmentText;

    open spec fn view(&self) -> SegmentText {
        SegmentText { reading: self.reading@, surface: self.surface@ }
    }
}

impl Clone for ConvertedSegment {
    fn clone(&self) -> (r: Self)
        ensures
            r == *self,
    {
        ConvertedSegment { reading: self.reading.clone(), surface: self.surface.clone() }
    }
}

/// A segment with part-of-speech metadata, for ranking.
#[derive(Debug)]
pub struct RichSegment {
    pub reading: String,
    pub surface: String,
    pub left_id: u16,
    pub right_id: u16,
    pub word_cost: i16,
}

/// What a `RichSegment` holds.
pub struct RichView {
    pub reading: Seq<char>,
    pub surface: Seq<char>,
    pub left_id: u16,
    pub right_id: u16,
    pub word_cost: i16,
}

impl View for RichSegment {
    type V = RichView;

    open spec fn view(&self) -> RichView {
        RichView {
            reading: self.reading@,
            surface: self.surface@,
            left_id: self.left_id,
            right_id: self.right_id,
            word_cost: self.word_cost,
        }
    }
}

impl Clone for RichSegment {
    fn clone(&self) -> (r: Self)
        ensures
            r == *self,
    {
        RichSegment {
            reading: self.reading.clone(),
            surface: self.surface.clone(),
            left_id: self.left_id,
            right_id: self.right_id,
            word_cost: self.word_cost,
        }
    }
}

/// A path found by the search, with what ranking needs.
#[derive(Debug)]
pub struct ScoredPath {
    pub segments: Vec<RichSegment>,
    pub viterbi_cost: i64,
}

/// What a `ScoredPath` holds.
pub struct PathView {
    pub segments: Seq<RichView>,
    pub viterbi_cost: i64,
}

impl View for ScoredPath {
    type V = PathView;

    open spec fn view(&self) -> PathView {
        PathView { segments: text::views(self.segments@), viterbi_cost: self.viterbi_cost }
    }
}

impl Ranked for ScoredPath {
    open spec fn rank(&self) -> int {
        self.viterbi_cost as int
    }
}

impl RankedItem for ScoredPath {
    fn rank_of(&self) -> (r: i64) {
        self.viterbi_cost
    }
}

impl Ranked for PathView {
    open spec fn rank(&self) -> int {
        self.viterbi_cost as int
    }
}

/// The surfaces of a list of segments, one after the other.
pub open spec fn surface_of(segments: Seq<RichView>) -> Seq<char> {
    text::concat(Seq::new(segments.len(), |i: int| segments[i].surface))
}

/// Segments without their metadata.
pub open spec fn plain(segments: Seq<RichView>) -> Seq<SegmentText> {
    Seq::new(
        segments.len(),
        |i: int| SegmentText { reading: segments[i].reading, surface: segments[i].surface },
    )
}

impl ScoredPath {
    /// The segments without their metadata.
    pub fn into_segments(self) -> (r: Vec<ConvertedSegment>)
        ensures
            text::views(r@) == plain(self@.segments),
    {
        let mut out: Vec<ConvertedSegment> = Vec::new();
        let mut i: usize = 0;
        while i < self.segments.len()
            invariant
                i <= self.segments@.len(),
                text::views(out@) =~= plain(self@.segments).take(i as int),
            decreases self.segments.len() - i,
        {
            let seg = &self.segments[i];
            let ghost before = out@;
            out.push(
                ConvertedSegment { reading: seg.reading.clone(), surface: seg.surface.clone() },
            );
            proof {
                assert(text::views(out@) =~= text::views(before).push(out@.last()@));
            }
            i = i + 1;
        }
        out
    }

    /// The surface of the whole path.
    pub fn surface_key(&self) -> (r: String)
        ensures
            r@ == surface_of(self@.segments),
    {
        let mut out = String::new();
        let ghost parts = Seq::new(
            self@.segments.len(),
            |i: int| self@.segments[i].surface,
        );
        let mut i: usize = 0;
        while i < self.segments.len()
            invariant
                i <= self.segments@.len(),
                parts == Seq::new(self@.segments.len(), |i: int| self@.segments[i].surface),
                out@ == text::concat(parts.take(i as int)),
            decreases self.segments.len() - i,
        {
            push_text(&mut out, self.segments[i].surface.as_str());
            proof {
                assert(parts.take(i + 1).drop_last() =~= parts.take(i as int));
                assert(parts.take(i + 1).last() == self.segments@[i as int].surface@);
            }
            i = i + 1;
        }
        proof {
            assert(parts.take(parts.len() as int) =~= parts);
        }
        out
    }
}

/// One of the best ways to reach a node: its accumulated cost, the node before
/// it and which of the best ways there it continues.
#[derive(Clone, Copy)]
pub struct KEntry {
    pub cost: i64,
    pub prev_idx: Option<usize>,
    pub prev_rank: usize,
}

impl Ranked for KEntry {
    open spec fn rank(&self) -> int {
        self.cost as int
    }
}

impl RankedItem for KEntry {
    fn rank_of(&self) -> (r: i64) {
        self.cost
    }
}

/// The end of a path: its total cost, its last node and which of the best ways
/// there it takes.
#[derive(Clone, Copy)]
pub struct Ending {
    pub cost: i64,
    pub node: usize,
    pub rank: usize,
}

impl Ranked for Ending {
    open spec fn rank(&self) -> int {
        self.cost as int
    }
}

impl RankedItem for Ending {
    fn rank_of(&self) -> (r: i64) {
        self.cost
    }
}

/// At most the first `k` items.
pub open spec fn top<T>(s: Seq<T>, k: nat) -> Seq<T> {
    if s.len() <= k {
        s
    } else {
        s.take(k as int)
    }
}

/// The cost of a path that starts with `node`.
pub open spec fn first_cost(c: CostModel, node: NodeView) -> i64 {
    arith::plus((c.word)(node), (c.bos)(node))
}

/// The cost of a path of cost `before` that ends in `prev`, with `next` added.
pub open spec fn step_cost(
    c: CostModel,
    before: i64,
    prev: NodeView,
    next: NodeView,
) -> i64 {
    arith::plus(arith::plus(before, (c.transition)(prev, next)), (c.word)(next))
}

/// Going on to `next` from the way of rank `r` to `prev`.
pub open spec fn hop(
    t: Seq<Seq<KEntry>>,
    l: LatticeView,
    c: CostModel,
    next: int,
    prev: usize,
    r: int,
) -> KEntry {
    KEntry {
        cost: step_cost(c, t[prev as int][r].cost, l.node(prev as int), l.node(next)),
        prev_idx: Some(prev),
        prev_rank: r as usize,
    }
}

/// The `k` cheapest of `base` and the first `r` ways that come through `prev`.
pub open spec fn offer_ranks(
    t: Seq<Seq<KEntry>>,
    l: LatticeView,
    c: CostModel,
    k: nat,
    next: int,
    prev: usize,
    r: nat,
    base: Seq<KEntry>,
) -> Seq<KEntry>
    decreases r,
{
    if r == 0 {
        base
    } else {
        top(
            ordering::insert_ranked(
                offer_ranks(t, l, c, k, next, prev, (r - 1) as nat, base),
                hop(t, l, c, next, prev, r - 1),
            ),
            k,
        )
    }
}

/// The `k` cheapest ways to `next` through the first `j` nodes that end where
/// it starts.
pub open spec fn offer_prevs(
    t: Seq<Seq<KEntry>>,
    l: LatticeView,
    c: CostModel,
    k: nat,
    next: int,
    j: nat,
) -> Seq<KEntry>
    decreases j,
{
    if j == 0 {
        Seq::empty()
    } else {
        let prev = l.upto(l.node(next).start as int)[j - 1];
        offer_ranks(
            t,
            l,
            c,
            k,
            next,
            prev,
            t[prev as int].len(),
            offer_prevs(t, l, c, k, next, (j - 1) as nat),
        )
    }
}

/// The best ways to every node that starts before position `p`.
pub open spec fn table(l: LatticeView, c: CostModel, k: nat, p: nat) -> Seq<Seq<KEntry>>
    decreases p,
{
    if p == 0 {
        Seq::new(l.nodes.len(), |i: int| Seq::empty())
    } else if p == 1 {
        Seq::new(
            l.nodes.len(),
            |i: int|
                if l.node(i).start == 0 {
                    seq![KEntry {
                        cost: first_cost(c, l.node(i)),
                        prev_idx: None,
                        prev_rank: 0,
                    }]
                } else {
                    Seq::empty()
                },
        )
    } else {
        let t = table(l, c, k, (p - 1) as nat);
        Seq::new(
            l.nodes.len(),
            |i: int|
                if l.node(i).start == p - 1 {
                    offer_prevs(t, l, c, k, i, l.upto(p - 1).len())
                } else {
                    t[i]
                },
        )
    }
}

/// The ends of the paths whose last node is `node`.
pub open spec fn endings_at(
    t: Seq<Seq<KEntry>>,
    l: LatticeView,
    c: CostModel,
    node: usize,
) -> Seq<Ending> {
    Seq::new(
        t[node as int].len(),
        |r: int|
            Ending {
                cost: arith::plus(t[node as int][r].cost, (c.eos)(l.node(node as int))),
                node,
                rank: r as usize,
            },
    )
}

/// The ends of the paths through the first `j` nodes that end the string.
pub open spec fn endings(
    t: Seq<Seq<KEntry>>,
    l: LatticeView,
    c: CostModel,
    j: nat,
) -> Seq<Ending>
    decreases j,
{
    if j == 0 {
        Seq::empty()
    } else {
        endings(t, l, c, (j - 1) as nat) + endings_at(
            t,
            l,
            c,
            l.upto(l.char_count as int)[j - 1],
        )
    }
}

/// The nodes of the way of rank `rank` to `node`, first to last.
pub open spec fn trace(t: Seq<Seq<KEntry>>, l: LatticeView, node: usize, rank: int) -> Seq<usize>
    decreases l.node(node as int).start,
{
    let e = t[node as int][rank];
    match e.prev_idx {
        Some(p) => if l.node(p as int).start < l.node(node as int).start {
            trace(t, l, p, e.prev_rank as int).push(node)
        } else {
            seq![node]
        },
        None => seq![node],
    }
}

pub open spec fn segment_of(node: NodeView) -> RichView {
    RichView {
        reading: node.reading,
        surface: node.surface,
        left_id: node.left_id,
        right_id: node.right_id,
        word_cost: node.cost,
    }
}

/// The segments of a list of nodes.
pub open spec fn segments_of(l: LatticeView, p: Seq<usize>) -> Seq<RichView> {
    Seq::new(p.len(), |i: int| segment_of(l.node(p[i] as int)))
}

/// The path that ends with `e`.
pub open spec fn path_of(t: Seq<Seq<KEntry>>, l: LatticeView, e: Ending) -> PathView {
    PathView {
        segments: segments_of(l, trace(t, l, e.node, e.rank as int)),
        viterbi_cost: e.cost,
    }
}

pub open spec fn has_surface(paths: Seq<PathView>, surface: Seq<char>) -> bool {
    exists|i: int| 0 <= i < paths.len() && surface_of((#[trigger] paths[i]).segments) == surface
}

/// The paths of the first `i` ends: one for each surface, at most `n`.
pub open spec fn collect(
    t: Seq<Seq<KEntry>>,
    l: LatticeView,
    es: Seq<Ending>,
    n: nat,
    i: nat,
) -> Seq<PathView>
    decreases i,
{
    if i == 0 {
        Seq::empty()
    } else {
        let got = collect(t, l, es, n, (i - 1) as nat);
        let path = path_of(t, l, es[i - 1]);
        if got.len() >= n || has_surface(got, surface_of(path.segments)) {
            got
        } else {
            got.push(path)
        }
    }
}

/// The ends of all paths that the search keeps, cheapest first.
pub open spec fn ranked_endings(l: LatticeView, c: CostModel, n: nat) -> Seq<Ending> {
    ordering::ranked_order(
        endings(
            table(l, c, n, l.char_count as nat),
            l,
            c,
            l.upto(l.char_count as int).len(),
        ),
    )
}

/// The result of the search: up to `n` paths of distinct surfaces, cheapest
/// first.
pub open spec fn nbest(l: LatticeView, c: CostModel, n: nat) -> Seq<PathView> {
    if l.char_count == 0 || n == 0 {
        Seq::empty()
    } else {
        let es = ranked_endings(l, c, n);
        collect(table(l, c, n, l.char_count as nat), l, es, n, es.len())
    }
}

/// An entry of the list of `next` that continues a way listed in `t`.
pub open spec fn continues(
    t: Seq<Seq<KEntry>>,
    l: LatticeView,
    c: CostModel,
    next: int,
    e: KEntry,
) -> bool {
    match e.prev_idx {
        Some(p) => {
            &&& p < l.nodes.len()
            &&& l.node(p as int).end == l.node(next).start
            &&& e.prev_rank < t[p as int].len()
            &&& e == hop(t, l, c, next, p, e.prev_rank as int)
        },
        None => {
            &&& l.node(next).start == 0
            &&& e.cost == first_cost(c, l.node(next))
        },
    }
}

/// A table of best ways: each list ascends, has at most `k` entries, and holds
/// ways that continue one another.
pub open spec fn sound_table(
    t: Seq<Seq<KEntry>>,
    l: LatticeView,
    c: CostModel,
    k: nat,
) -> bool {
    &&& t.len() == l.nodes.len()
    &&& forall|i: int|
        0 <= i < t.len() ==> ordering::ascending(#[trigger] t[i]) && t[i].len() <= k
    &&& forall|i: int, r: int|
        0 <= i < t.len() && 0 <= r < t[i].len() ==> continues(t, l, c, i, #[trigger] t[i][r])
}

proof fn lemma_top_insert(s: Seq<KEntry>, x: KEntry, k: nat)
    requires
        ordering::ascending(s),
        s.len() <= k,
    ensures
        ordering::ascending(top(ordering::insert_ranked(s, x), k)),
        top(ordering::insert_ranked(s, x), k).len() <= k,
        forall|i: int|
            0 <= i < top(ordering::insert_ranked(s, x), k).len() ==> {
                ||| #[trigger] top(ordering::insert_ranked(s, x), k)[i] == x
                ||| s.contains(top(ordering::insert_ranked(s, x), k)[i])
            },
{
    ordering::lemma_insert_ranked(s, x);
    let q = ordering::insert_ranked(s, x);
    let r = top(q, k);
    assert forall|i: int, j: int| 0 <= i <= j < r.len() implies (#[trigger] r[i]).rank() <= (
    #[trigger] r[j]).rank() by {
        assert(r[i] == q[i] && r[j] == q[j]);
    }
    assert forall|i: int| 0 <= i < r.len() implies #[trigger] r[i] == x || s.contains(r[i]) by {
        assert(r[i] == q[i]);
    }
}

proof fn lemma_offer_ranks(
    t: Seq<Seq<KEntry>>,
    l: LatticeView,
    c: CostModel,
    k: nat,
    next: int,
    prev: usize,
    r: nat,
    base: Seq<KEntry>,
)
    requires
        ordering::ascending(base),
        base.len() <= k,
        prev < l.nodes.len(),
        l.node(prev as int).end == l.node(next).start,
        r <= t[prev as int].len() <= usize::MAX,
        forall|i: int| 0 <= i < base.len() ==> continues(t, l, c, next, #[trigger] base[i]),
    ensures
        ordering::ascending(offer_ranks(t, l, c, k, next, prev, r, base)),
        offer_ranks(t, l, c, k, next, prev, r, base).len() <= k,
        forall|i: int|
            0 <= i < offer_ranks(t, l, c, k, next, prev, r, base).len() ==> continues(
                t,
                l,
                c,
                next,
                #[trigger] offer_ranks(t, l, c, k, next, prev, r, base)[i],
            ),
    decreases r,
{
    if r > 0 {
        lemma_offer_ranks(t, l, c, k, next, prev, (r - 1) as nat, base);
        let s = offer_ranks(t, l, c, k, next, prev, (r - 1) as nat, base);
        let x = hop(t, l, c, next, prev, r - 1);
        lemma_top_insert(s, x, k);
        let q = top(ordering::insert_ranked(s, x), k);
        assert(continues(t, l, c, next, x));
        assert forall|i: int| 0 <= i < q.len() implies continues(t, l, c, next, #[trigger] q[i]) by {
            if q[i] != x {
                let j = choose|j: int| 0 <= j < s.len() && s[j] == q[i];
                assert(continues(t, l, c, next, s[j]));
            }
        }
    }
}

proof fn lemma_offer_prevs(
    t: Seq<Seq<KEntry>>,
    l: LatticeView,
    c: CostModel,
    k: nat,
    next: int,
    j: nat,
)
    requires
        l.wf(),
        0 <= next < l.nodes.len(),
        j <= l.upto(l.node(next).start as int).len(),
        t.len() == l.nodes.len(),
        forall|i: int| 0 <= i < t.len() ==> (#[trigger] t[i]).len() <= usize::MAX,
    ensures
        ordering::ascending(offer_prevs(t, l, c, k, next, j)),
        offer_prevs(t, l, c, k, next, j).len() <= k,
        forall|i: int|
            0 <= i < offer_prevs(t, l, c, k, next, j).len() ==> continues(
                t,
                l,
                c,
                next,
                #[trigger] offer_prevs(t, l, c, k, next, j)[i],
            ),
    decreases j,
{
    if j > 0 {
        lemma_offer_prevs(t, l, c, k, next, (j - 1) as nat);
        let pos = l.node(next).start as int;
        let prev = l.upto(pos)[j - 1];
        assert(l.node(next).start < l.node(next).end);
        assert(prev < l.nodes.len() && l.node(prev as int).end == pos);
        lemma_offer_ranks(
            t,
            l,
            c,
            k,
            next,
            prev,
            t[prev as int].len(),
            offer_prevs(t, l, c, k, next, (j - 1) as nat),
        );
    }
}

/// Lists of nodes that start at `p` or later are empty, and the others do not
/// change any more.
proof fn lemma_table(l: LatticeView, c: CostModel, k: nat, p: nat)
    requires
        l.wf(),
        0 < k <= usize::MAX,
    ensures
        sound_table(table(l, c, k, p), l, c, k),
        forall|i: int|
            0 <= i < l.nodes.len() && l.node(i).start >= p ==> (#[trigger] table(l, c, k, p)[i]).len()
                == 0,
        p > 0 ==> forall|i: int|
            0 <= i < l.nodes.len() && l.node(i).start < p - 1 ==> #[trigger] table(
                l,
                c,
                k,
                p,
            )[i] == table(l, c, k, (p - 1) as nat)[i],
    decreases p,
{
    let t = table(l, c, k, p);
    if p > 1 {
        let u = table(l, c, k, (p - 1) as nat);
        lemma_table(l, c, k, (p - 1) as nat);
        assert forall|i: int| 0 <= i < t.len() implies ordering::ascending(#[trigger] t[i])
            && t[i].len() <= k by {
            if l.node(i).start == p - 1 {
                lemma_offer_prevs(u, l, c, k, i, l.upto(p - 1).len());
            } else {
                assert(t[i] == u[i]);
            }
        }
        assert forall|i: int, r: int| 0 <= i < t.len() && 0 <= r < t[i].len() implies continues(
            t,
            l,
            c,
            i,
            #[trigger] t[i][r],
        ) by {
            if l.node(i).start == p - 1 {
                lemma_offer_prevs(u, l, c, k, i, l.upto(p - 1).len());
            } else {
                assert(t[i] == u[i]);
            }
            assert(continues(u, l, c, i, t[i][r]));
            match t[i][r].prev_idx {
                Some(q) => {
                    assert(l.node(q as int).start < l.node(q as int).end);
                    if l.node(i).start > p - 1 {
                        assert(u[i].len() == 0);
                    }
                    assert(t[q as int] == u[q as int]);
                },
                None => {},
            }
        }
    }
}

/// A list that was final at position `p` is the same in every later table.
proof fn lemma_table_keeps(l: LatticeView, c: CostModel, k: nat, p: nat, q: nat, i: int)
    requires
        l.wf(),
        0 < k <= usize::MAX,
        p <= q,
        0 <= i < l.nodes.len(),
        l.node(i).start < p,
    ensures
        table(l, c, k, q)[i] == table(l, c, k, p)[i],
    decreases q,
{
    if p < q {
        lemma_table(l, c, k, q);
        lemma_table_keeps(l, c, k, p, (q - 1) as nat, i);
    }
}

/// An entry of the list of `next` that names an entry of a node that ends where
/// `next` starts, or nothing when `next` starts the string.
pub open spec fn linked(t: Seq<Seq<KEntry>>, l: LatticeView, next: int, e: KEntry) -> bool {
    match e.prev_idx {
        Some(p) => {
            &&& p < l.nodes.len()
            &&& l.node(p as int).end == l.node(next).start
            &&& e.prev_rank < t[p as int].len()
        },
        None => l.node(next).start == 0,
    }
}

pub open spec fn linked_table(t: Seq<Seq<KEntry>>, l: LatticeView) -> bool {
    &&& t.len() == l.nodes.len()
    &&& forall|i: int, r: int|
        0 <= i < t.len() && 0 <= r < t[i].len() ==> linked(t, l, i, #[trigger] t[i][r])
}

proof fn lemma_trace_chain(t: Seq<Seq<KEntry>>, l: LatticeView, node: usize, rank: int)
    requires
        l.wf(),
        linked_table(t, l),
        node < l.nodes.len(),
        0 <= rank < t[node as int].len(),
    ensures
        is_chain(l, trace(t, l, node, rank)),
        trace(t, l, node, rank).last() == node,
    decreases l.node(node as int).start,
{
    let e = t[node as int][rank];
    assert(linked(t, l, node as int, e));
    match e.prev_idx {
        Some(p) => {
            assert(l.node(p as int).start < l.node(p as int).end);
            lemma_trace_chain(t, l, p, e.prev_rank as int);
            let q = trace(t, l, p, e.prev_rank as int);
            assert(q.push(node).drop_last() =~= q);
        },
        None => {},
    }
}

proof fn lemma_trace(
    t: Seq<Seq<KEntry>>,
    l: LatticeView,
    c: CostModel,
    k: nat,
    node: usize,
    rank: int,
)
    requires
        l.wf(),
        sound_table(t, l, c, k),
        node < l.nodes.len(),
        0 <= rank < t[node as int].len(),
    ensures
        is_chain(l, trace(t, l, node, rank)),
        trace(t, l, node, rank).last() == node,
        path_cost(l, c, trace(t, l, node, rank)) == t[node as int][rank].cost,
    decreases l.node(node as int).start,
{
    let e = t[node as int][rank];
    assert(continues(t, l, c, node as int, e));
    match e.prev_idx {
        Some(p) => {
            assert(l.node(p as int).start < l.node(p as int).end);
            lemma_trace(t, l, c, k, p, e.prev_rank as int);
            let q = trace(t, l, p, e.prev_rank as int);
            assert(q.push(node).drop_last() =~= q);
        },
        None => {},
    }
}

/// A list of nodes that starts at the beginning of the string, each node
/// starting where the one before it ends.
pub open spec fn is_chain(l: LatticeView, p: Seq<usize>) -> bool
    decreases p.len(),
{
    &&& p.len() > 0
    &&& p.last() < l.nodes.len()
    &&& if p.len() == 1 {
        l.node(p.last() as int).start == 0
    } else {
        &&& is_chain(l, p.drop_last())
        &&& l.node(p.drop_last().last() as int).end == l.node(p.last() as int).start
    }
}

/// The cost of a list of nodes, without what ending the string costs.
pub open spec fn path_cost(l: LatticeView, c: CostModel, p: Seq<usize>) -> i64
    decreases p.len(),
{
    if p.len() <= 1 {
        first_cost(c, l.node(p.last() as int))
    } else {
        step_cost(
            c,
            path_cost(l, c, p.drop_last()),
            l.node(p.drop_last().last() as int),
            l.node(p.last() as int),
        )
    }
}

/// The cost of a whole path.
pub open spec fn full_cost(l: LatticeView, c: CostModel, p: Seq<usize>) -> i64 {
    arith::plus(path_cost(l, c, p), (c.eos)(l.node(p.last() as int)))
}

/// A chain of nodes over the whole string.
pub open spec fn is_path(l: LatticeView, p: Seq<usize>) -> bool {
    is_chain(l, p) && l.node(p.last() as int).end == l.char_count
}

/// Puts `entry` into a list of ascending cost and keeps its first `k` items.
fn insert_top_k(list: &mut Vec<KEntry>, k: usize, entry: KEntry)
    requires
        ordering::ascending(old(list)@),
        old(list)@.len() <= k,
    ensures
        final(list)@ == top(ordering::insert_ranked(old(list)@, entry), k as nat),
{
    let ghost s = list@;
    let n: usize = list.len();
    proof {
        assert(list@.take(n as int) =~= s);
    }
    let pos: usize = find_place(list, n, entry.cost);
    proof {
        ordering::lemma_insert_ranked_at(s, entry, pos as int);
    }
    if pos >= k {
        proof {
            assert(s.insert(pos as int, entry).take(k as int) =~= s);
        }
        return ;
    }
    list.insert(pos, entry);
    if list.len() > k {
        let _ = list.pop();
        proof {
            assert(list@ =~= s.insert(pos as int, entry).take(k as int));
        }
    }
}

/// The path of the way of rank `end_rank` to node `end_idx`.
fn backtrace_nbest(
    top_k: &Vec<Vec<KEntry>>,
    end_idx: usize,
    end_rank: usize,
    lattice: &Lattice,
) -> (r: Vec<RichSegment>)
    requires
        lattice@.wf(),
        linked_table(text::views(top_k@), lattice@),
        end_idx < lattice.nodes@.len(),
        end_rank < top_k@[end_idx as int]@.len(),
    ensures
        text::views(r@) == segments_of(
            lattice@,
            trace(text::views(top_k@), lattice@, end_idx, end_rank as int),
        ),
{
    let ghost t = text::views(top_k@);
    let ghost whole = trace(t, lattice@, end_idx, end_rank as int);
    let mut rev: Vec<usize> = Vec::new();
    let mut cur_idx: usize = end_idx;
    let mut cur_rank: usize = end_rank;
    let mut more: bool = true;
    while more
        invariant
            t == text::views(top_k@),
            lattice@.wf(),
            linked_table(t, lattice@),
            more ==> cur_idx < lattice.nodes@.len(),
            more ==> cur_rank < t[cur_idx as int].len(),
            more ==> whole == trace(t, lattice@, cur_idx, cur_rank as int) + rev@.reverse(),
            !more ==> whole == rev@.reverse(),
        decreases (if more { lattice@.node(cur_idx as int).start + 1 } else { 0 }),
    {
        let e: KEntry = top_k[cur_idx][cur_rank];
        proof {
            assert(t[cur_idx as int][cur_rank as int] == e);
            assert(linked(t, lattice@, cur_idx as int, e));
        }
        let ghost before = rev@;
        rev.push(cur_idx);
        proof {
            assert(rev@.reverse() =~= seq![cur_idx] + before.reverse());
        }
        match e.prev_idx {
            Some(p) => {
                proof {
                    assert(lattice@.node(p as int).start < lattice@.node(p as int).end);
                    assert(trace(t, lattice@, cur_idx, cur_rank as int) == trace(
                        t,
                        lattice@,
                        p,
                        e.prev_rank as int,
                    ).push(cur_idx));
                    assert(whole =~= trace(t, lattice@, p, e.prev_rank as int) + rev@.reverse());
                }
                cur_rank = e.prev_rank;
                cur_idx = p;
            },
            None => {
                proof {
                    assert(whole =~= rev@.reverse());
                }
                more = false;
            },
        }
    }
    proof {
        lemma_trace_chain(t, lattice@, end_idx, end_rank as int);
        lemma_chain_nodes(lattice@, whole);
    }
    let mut out: Vec<RichSegment> = Vec::new();
    let mut i: usize = 0;
    while i < rev.len()
        invariant
            i <= rev@.len(),
            whole == rev@.reverse(),
            forall|j: int| 0 <= j < whole.len() ==> (#[trigger] whole[j]) < lattice.nodes@.len(),
            text::views(out@) =~= segments_of(lattice@, whole).take(i as int),
        decreases rev.len() - i,
    {
        let idx: usize = rev[rev.len() - 1 - i];
        proof {
            assert(idx == whole[i as int]);
        }
        let node: &LatticeNode = &lattice.nodes[idx];
        let ghost before = out@;
        out.push(
            RichSegment {
                reading: node.reading.clone(),
                surface: node.surface.clone(),
                left_id: node.left_id,
                right_id: node.right_id,
                word_cost: node.cost,
            },
        );
        proof {
            assert(text::views(out@) =~= text::views(before).push(out@.last()@));
        }
        i = i + 1;
    }
    out
}

proof fn lemma_chain_nodes(l: LatticeView, p: Seq<usize>)
    requires
        is_chain(l, p),
    ensures
        forall|j: int| 0 <= j < p.len() ==> (#[trigger] p[j]) < l.nodes.len(),
    decreases p.len(),
{
    if p.len() > 1 {
        lemma_chain_nodes(l, p.drop_last());
        assert forall|j: int| 0 <= j < p.len() implies (#[trigger] p[j]) < l.nodes.len() by {
            if j < p.len() - 1 {
                assert(p.drop_last()[j] == p[j]);
            }
        }
    }
}

/// The best ways to node `next`, given those to the nodes before it.
fn best_ways<C: CostFunction>(
    top_k: &Vec<Vec<KEntry>>,
    lattice: &Lattice,
    cost_fn: &C,
    n: usize,
    next_idx: usize,
) -> (r: Vec<KEntry>)
    requires
        lattice@.wf(),
        n > 0,
        next_idx < lattice.nodes@.len(),
        top_k@.len() == lattice.nodes@.len(),
    ensures
        r@ == offer_prevs(
            text::views(top_k@),
            lattice@,
            cost_fn.model(),
            n as nat,
            next_idx as int,
            lattice@.upto(lattice@.node(next_idx as int).start as int).len(),
        ),
{
    let ghost t = text::views(top_k@);
    let next_node: &LatticeNode = &lattice.nodes[next_idx];
    let pos: usize = next_node.start;
    proof {
        assert(lattice@.node(next_idx as int).start < lattice@.node(next_idx as int).end);
        assert forall|i: int| 0 <= i < t.len() implies (#[trigger] t[i]).len() <= usize::MAX by {
            assert(t[i] == top_k@[i]@);
            assert(top_k@[i].len() == top_k@[i]@.len());
        }
    }
    let word: i64 = cost_fn.word_cost(next_node);
    let mut best: Vec<KEntry> = Vec::new();
    let mut j: usize = 0;
    while j < lattice.nodes_by_end[pos].len()
        invariant
            t == text::views(top_k@),
            lattice@.wf(),
            n > 0,
            next_idx < lattice.nodes@.len(),
            top_k@.len() == lattice.nodes@.len(),
            next_node@ == lattice@.node(next_idx as int),
            pos == lattice@.node(next_idx as int).start,
            pos <= lattice.char_count,
            word == (cost_fn.model().word)(next_node@),
            j <= lattice@.upto(pos as int).len(),
            forall|i: int| 0 <= i < t.len() ==> (#[trigger] t[i]).len() <= usize::MAX,
            best@ == offer_prevs(t, lattice@, cost_fn.model(), n as nat, next_idx as int, j as nat),
        decreases lattice@.upto(pos as int).len() - j,
    {
        let prev_idx: usize = lattice.nodes_by_end[pos][j];
        proof {
            assert(prev_idx == lattice@.upto(pos as int)[j as int]);
            lemma_offer_prevs(t, lattice@, cost_fn.model(), n as nat, next_idx as int, j as nat);
        }
        let ghost base = best@;
        let prev_node: &LatticeNode = &lattice.nodes[prev_idx];
        let transition: i64 = cost_fn.transition_cost(prev_node, next_node);
        let mut rank: usize = 0;
        while rank < top_k[prev_idx].len()
            invariant
                t == text::views(top_k@),
                lattice@.wf(),
                n > 0,
                next_idx < lattice.nodes@.len(),
                top_k@.len() == lattice.nodes@.len(),
                next_node@ == lattice@.node(next_idx as int),
                prev_idx < lattice.nodes@.len(),
                prev_node@ == lattice@.node(prev_idx as int),
                lattice@.node(prev_idx as int).end == lattice@.node(next_idx as int).start,
                word == (cost_fn.model().word)(next_node@),
                transition == (cost_fn.model().transition)(prev_node@, next_node@),
                rank <= t[prev_idx as int].len() <= usize::MAX,
                ordering::ascending(base),
                base.len() <= n,
                forall|i: int|
                    0 <= i < base.len() ==> continues(
                        t,
                        lattice@,
                        cost_fn.model(),
                        next_idx as int,
                        #[trigger] base[i],
                    ),
                best@ == offer_ranks(
                    t,
                    lattice@,
                    cost_fn.model(),
                    n as nat,
                    next_idx as int,
                    prev_idx,
                    rank as nat,
                    base,
                ),
            decreases t[prev_idx as int].len() - rank,
        {
            proof {
                lemma_offer_ranks(
                    t,
                    lattice@,
                    cost_fn.model(),
                    n as nat,
                    next_idx as int,
                    prev_idx,
                    rank as nat,
                    base,
                );
            }
            let prev_cost: i64 = top_k[prev_idx][rank].cost;
            let total: i64 = sat_add(sat_add(prev_cost, transition), word);
            let entry: KEntry = KEntry { cost: total, prev_idx: Some(prev_idx), prev_rank: rank };
            proof {
                assert(entry == hop(
                    t,
                    lattice@,
                    cost_fn.model(),
                    next_idx as int,
                    prev_idx,
                    rank as int,
                ));
            }
            insert_top_k(&mut best, n, entry);
            rank = rank + 1;
        }
        j = j + 1;
    }
    best
}

/// Fills the table of best ways, position by position.
fn forward_pass<C: CostFunction>(lattice: &Lattice, cost_fn: &C, n: usize) -> (r: Vec<Vec<KEntry>>)
    requires
        lattice@.wf(),
        n > 0,
        lattice.char_count > 0,
    ensures
        text::views(r@) == table(lattice@, cost_fn.model(), n as nat, lattice.char_count as nat),
{
    let num_nodes: usize = lattice.nodes.len();
    let mut top_k: Vec<Vec<KEntry>> = Vec::new();
    let mut i: usize = 0;
    while i < num_nodes
        invariant
            i <= num_nodes,
            num_nodes == lattice.nodes@.len(),
            text::views(top_k@) =~= table(lattice@, cost_fn.model(), n as nat, 1).take(i as int),
        decreases num_nodes - i,
    {
        let node: &LatticeNode = &lattice.nodes[i];
        let mut list: Vec<KEntry> = Vec::new();
        if node.start == 0 {
            let cost: i64 = sat_add(cost_fn.word_cost(node), cost_fn.bos_cost(node));
            list.push(KEntry { cost, prev_idx: None, prev_rank: 0 });
        }
        let ghost before = top_k@;
        top_k.push(list);
        proof {
            let t1 = table(lattice@, cost_fn.model(), n as nat, 1);
            assert(lattice@.node(i as int) == node@);
            assert(list@ =~= t1[i as int]);
            assert(text::views(top_k@) =~= text::views(before).push(list@));
            assert(t1.take(i + 1) =~= t1.take(i as int).push(t1[i as int]));
        }
        i = i + 1;
    }
    proof {
        assert(text::views(top_k@) =~= table(lattice@, cost_fn.model(), n as nat, 1));
    }
    let mut pos: usize = 1;
    while pos < lattice.char_count
        invariant
            lattice@.wf(),
            n > 0,
            1 <= pos <= lattice.char_count,
            text::views(top_k@) == table(lattice@, cost_fn.model(), n as nat, pos as nat),
        decreases lattice.char_count - pos,
    {
        let ghost t = text::views(top_k@);
        let ghost goal = table(lattice@, cost_fn.model(), n as nat, (pos + 1) as nat);
        proof {
            lemma_table(lattice@, cost_fn.model(), n as nat, pos as nat);
            assert forall|i: int| 0 <= i < lattice.nodes@.len() implies #[trigger] top_k@[i]@
                == t[i] by {}
        }
        let mut q: usize = 0;
        while q < lattice.nodes_by_start[pos].len()
            invariant
                lattice@.wf(),
                n > 0,
                1 <= pos < lattice.char_count,
                t == table(lattice@, cost_fn.model(), n as nat, pos as nat),
                goal == table(lattice@, cost_fn.model(), n as nat, (pos + 1) as nat),
                q <= lattice@.from(pos as int).len(),
                top_k@.len() == lattice.nodes@.len(),
                forall|i: int|
                    0 <= i < lattice.nodes@.len() && lattice@.node(i).start != pos
                        ==> #[trigger] top_k@[i]@ == t[i],
                forall|k: int|
                    0 <= k < q ==> top_k@[#[trigger] lattice@.from(pos as int)[k] as int]@
                        == goal[lattice@.from(pos as int)[k] as int],
            decreases lattice@.from(pos as int).len() - q,
        {
            let next_idx: usize = lattice.nodes_by_start[pos][q];
            proof {
                assert(next_idx == lattice@.from(pos as int)[q as int]);
                assert(lattice@.from(pos as int).no_duplicates());
            }
            let best: Vec<KEntry> = best_ways(&top_k, lattice, cost_fn, n, next_idx);
            proof {
                lemma_offer_prevs_same(
                    text::views(top_k@),
                    t,
                    lattice@,
                    cost_fn.model(),
                    n as nat,
                    next_idx as int,
                    lattice@.upto(pos as int).len(),
                );
                assert(best@ == goal[next_idx as int]);
            }
            top_k.set(next_idx, best);
            q = q + 1;
        }
        proof {
            assert forall|i: int| 0 <= i < goal.len() implies text::views(top_k@)[i]
                == #[trigger] goal[i] by {
                if lattice@.node(i).start == pos {
                    assert(i < lattice.nodes.len());
                    assert(lattice@.from(lattice@.node(i).start as int).contains(i as usize));
                    let k = lattice@.from(pos as int).index_of(i as usize);
                    assert(lattice@.from(pos as int)[k] == i);
                } else {
                    assert(top_k@[i]@ == t[i]);
                }
            }
            assert(text::views(top_k@) =~= goal);
        }
        pos = pos + 1;
    }
    top_k
}

/// What is offered to a node depends only on the lists of the nodes before it.
proof fn lemma_offer_prevs_same(
    t: Seq<Seq<KEntry>>,
    u: Seq<Seq<KEntry>>,
    l: LatticeView,
    c: CostModel,
    k: nat,
    next: int,
    j: nat,
)
    requires
        l.wf(),
        0 <= next < l.nodes.len(),
        j <= l.upto(l.node(next).start as int).len(),
        forall|i: int|
            0 <= i < l.nodes.len() && l.node(i).start != l.node(next).start ==> #[trigger] t[i]
                == u[i],
    ensures
        offer_prevs(t, l, c, k, next, j) == offer_prevs(u, l, c, k, next, j),
    decreases j,
{
    if j > 0 {
        lemma_offer_prevs_same(t, u, l, c, k, next, (j - 1) as nat);
        let pos = l.node(next).start as int;
        let prev = l.upto(pos)[j - 1];
        assert(l.node(next).start < l.node(next).end);
        assert(l.node(prev as int).end == pos);
        assert(l.node(prev as int).start < l.node(prev as int).end);
        assert(t[prev as int] == u[prev as int]);
        lemma_offer_ranks_same(
            t,
            u,
            l,
            c,
            k,
            next,
            prev,
            t[prev as int].len(),
            offer_prevs(t, l, c, k, next, (j - 1) as nat),
        );
    }
}

proof fn lemma_offer_ranks_same(
    t: Seq<Seq<KEntry>>,
    u: Seq<Seq<KEntry>>,
    l: LatticeView,
    c: CostModel,
    k: nat,
    next: int,
    prev: usize,
    r: nat,
    base: Seq<KEntry>,
)
    requires
        t[prev as int] == u[prev as int],
    ensures
        offer_ranks(t, l, c, k, next, prev, r, base) == offer_ranks(
            u,
            l,
            c,
            k,
            next,
            prev,
            r,
            base,
        ),
    decreases r,
{
    if r > 0 {
        lemma_offer_ranks_same(t, u, l, c, k, next, prev, (r - 1) as nat, base);
    }
}

/// The ends of all paths in the table, in the order of the nodes that end the
/// string.
fn collect_endings<C: CostFunction>(top_k: &Vec<Vec<KEntry>>, lattice: &Lattice, cost_fn: &C) -> (r:
    Vec<Ending>)
    requires
        lattice@.wf(),
        top_k@.len() == lattice.nodes@.len(),
    ensures
        r@ == endings(
            text::views(top_k@),
            lattice@,
            cost_fn.model(),
            lattice@.upto(lattice.char_count as int).len(),
        ),
{
    let ghost t = text::views(top_k@);
    let mut out: Vec<Ending> = Vec::new();
    let last: usize = lattice.char_count;
    let mut j: usize = 0;
    while j < lattice.nodes_by_end[last].len()
        invariant
            t == text::views(top_k@),
            lattice@.wf(),
            top_k@.len() == lattice.nodes@.len(),
            last == lattice.char_count,
            j <= lattice@.upto(last as int).len(),
            out@ == endings(t, lattice@, cost_fn.model(), j as nat),
        decreases lattice@.upto(last as int).len() - j,
    {
        let node_idx: usize = lattice.nodes_by_end[last][j];
        proof {
            assert(node_idx == lattice@.upto(last as int)[j as int]);
        }
        let eos: i64 = cost_fn.eos_cost(&lattice.nodes[node_idx]);
        let ghost before = out@;
        let ghost here = endings_at(t, lattice@, cost_fn.model(), node_idx);
        let mut rank: usize = 0;
        while rank < top_k[node_idx].len()
            invariant
                t == text::views(top_k@),
                top_k@.len() == lattice.nodes@.len(),
                node_idx < lattice.nodes@.len(),
                eos == (cost_fn.model().eos)(lattice@.node(node_idx as int)),
                rank <= t[node_idx as int].len(),
                here == endings_at(t, lattice@, cost_fn.model(), node_idx),
                out@ == before + here.take(rank as int),
            decreases t[node_idx as int].len() - rank,
        {
            let total: i64 = sat_add(top_k[node_idx][rank].cost, eos);
            out.push(Ending { cost: total, node: node_idx, rank });
            proof {
                assert(here.take(rank + 1) =~= here.take(rank as int).push(here[rank as int]));
                assert(out@ =~= before + here.take(rank + 1));
            }
            rank = rank + 1;
        }
        proof {
            assert(here.take(here.len() as int) =~= here);
        }
        j = j + 1;
    }
    out
}

proof fn lemma_endings_sound(
    t: Seq<Seq<KEntry>>,
    l: LatticeView,
    c: CostModel,
    k: nat,
    j: nat,
)
    requires
        l.wf(),
        sound_table(t, l, c, k),
        k <= usize::MAX,
        j <= l.upto(l.char_count as int).len(),
    ensures
        forall|i: int|
            0 <= i < endings(t, l, c, j).len() ==> sound_ending(
                t,
                l,
                c,
                #[trigger] endings(t, l, c, j)[i],
            ),
    decreases j,
{
    if j > 0 {
        lemma_endings_sound(t, l, c, k, (j - 1) as nat);
        let node = l.upto(l.char_count as int)[j - 1];
        let a = endings(t, l, c, (j - 1) as nat);
        let b = endings_at(t, l, c, node);
        assert forall|i: int| 0 <= i < (a + b).len() implies sound_ending(
            t,
            l,
            c,
            #[trigger] (a + b)[i],
        ) by {
            if i < a.len() {
                assert((a + b)[i] == a[i]);
            } else {
                assert((a + b)[i] == b[i - a.len()]);
            }
        }
    }
}

/// An end that names a way in the table, with its total cost.
pub open spec fn sound_ending(
    t: Seq<Seq<KEntry>>,
    l: LatticeView,
    c: CostModel,
    e: Ending,
) -> bool {
    &&& e.node < l.nodes.len()
    &&& l.node(e.node as int).end == l.char_count
    &&& e.rank < t[e.node as int].len()
    &&& e.cost == arith::plus(t[e.node as int][e.rank as int].cost, (c.eos)(l.node(e.node as int)))
}

proof fn lemma_ranked_endings_sound(l: LatticeView, c: CostModel, n: nat)
    requires
        l.wf(),
        0 < n <= usize::MAX,
    ensures
        forall|i: int|
            0 <= i < ranked_endings(l, c, n).len() ==> sound_ending(
                table(l, c, n, l.char_count as nat),
                l,
                c,
                #[trigger] ranked_endings(l, c, n)[i],
            ),
        ordering::ascending(ranked_endings(l, c, n)),
{
    broadcast use vstd::seq_lib::group_to_multiset_ensures;

    let t = table(l, c, n, l.char_count as nat);
    lemma_table(l, c, n, l.char_count as nat);
    lemma_endings_sound(t, l, c, n, l.upto(l.char_count as int).len());
    let es = endings(t, l, c, l.upto(l.char_count as int).len());
    ordering::ranked_order_sorts(es);
    let r = ranked_endings(l, c, n);
    assert forall|i: int| 0 <= i < r.len() implies sound_ending(t, l, c, #[trigger] r[i]) by {
        assert(r.to_multiset().count(r[i]) > 0) by {
            assert(r.contains(r[i]));
        }
        assert(es.contains(r[i]));
        let k = choose|k: int| 0 <= k < es.len() && es[k] == r[i];
        assert(sound_ending(t, l, c, es[k]));
    }
}

/// Runs the N-best search: keeps the best ways to each node, then collects up
/// to `n` paths of distinct surfaces, cheapest first.
pub fn viterbi_nbest<C: CostFunction>(lattice: &Lattice, cost_fn: &C, n: usize) -> (r: Vec<
    ScoredPath,
>)
    requires
        lattice@.wf(),
    ensures
        text::views(r@) == nbest(lattice@, cost_fn.model(), n as nat),
{
    let mut results: Vec<ScoredPath> = Vec::new();
    if lattice.char_count == 0 || n == 0 {
        proof {
            assert(text::views(results@) =~= Seq::empty());
        }
        return results;
    }
    let top_k: Vec<Vec<KEntry>> = forward_pass(lattice, cost_fn, n);
    let ghost t = text::views(top_k@);
    proof {
        lemma_table(lattice@, cost_fn.model(), n as nat, lattice.char_count as nat);
        lemma_ranked_endings_sound(lattice@, cost_fn.model(), n as nat);
        assert(t.len() == top_k@.len());
        assert forall|i: int, r: int| 0 <= i < t.len() && 0 <= r < t[i].len() implies linked(
            t,
            lattice@,
            i,
            #[trigger] t[i][r],
        ) by {
            assert(continues(t, lattice@, cost_fn.model(), i, t[i][r]));
        }
    }
    let mut es: Vec<Ending> = collect_endings(&top_k, lattice, cost_fn);
    stable_sort(&mut es);
    let mut seen: Vec<String> = Vec::new();
    let mut i: usize = 0;
    while i < es.len() && results.len() < n
        invariant
            lattice@.wf(),
            t == text::views(top_k@),
            linked_table(t, lattice@),
            forall|k: int|
                0 <= k < es@.len() ==> sound_ending(t, lattice@, cost_fn.model(), #[trigger] es@[k]),
            i <= es@.len(),
            results@.len() <= n,
            text::views(results@) == collect(t, lattice@, es@, n as nat, i as nat),
            seen@.len() == results@.len(),
            forall|k: int|
                0 <= k < seen@.len() ==> (#[trigger] seen@[k])@ == surface_of(
                    text::views(results@)[k].segments,
                ),
        decreases es.len() - i,
    {
        let e: Ending = es[i];
        proof {
            assert(sound_ending(t, lattice@, cost_fn.model(), es@[i as int]));
            assert(t[e.node as int] == top_k@[e.node as int]@);
        }
        let segments: Vec<RichSegment> = backtrace_nbest(
            &top_k,
            e.node,
            e.rank,
            lattice,
        );
        let scored: ScoredPath = ScoredPath { segments, viterbi_cost: e.cost };
        let key: String = scored.surface_key();
        let ghost got = text::views(results@);
        proof {
            assert(scored@.segments == path_of(t, lattice@, e).segments);
            assert(scored@ == path_of(t, lattice@, e));
            if text::views(seen@).contains(key@) {
                let k = choose|k: int|
                    0 <= k < text::views(seen@).len() && text::views(seen@)[k] == key@;
                assert(seen@[k]@ == key@);
                assert(surface_of(got[k].segments) == key@);
            }
            if has_surface(got, key@) {
                let k = choose|k: int|
                    0 <= k < got.len() && surface_of((#[trigger] got[k]).segments) == key@;
                assert(text::views(seen@)[k] == key@);
            }
        }
        if !contains_text(&seen, key.as_str()) {
            results.push(scored);
            seen.push(key);
            proof {
                assert(text::views(results@) =~= got.push(scored@));
            }
        }
        i = i + 1;
    }
    proof {
        lemma_collect_full(t, lattice@, es@, n as nat, i as nat, es@.len());
    }
    results
}

proof fn lemma_collect_full(
    t: Seq<Seq<KEntry>>,
    l: LatticeView,
    es: Seq<Ending>,
    n: nat,
    i: nat,
    j: nat,
)
    requires
        i <= j,
        i == j || collect(t, l, es, n, i).len() >= n,
    ensures
        collect(t, l, es, n, j) == collect(t, l, es, n, i),
    decreases j,
{
    if i < j {
        lemma_collect_full(t, l, es, n, i, (j - 1) as nat);
    }
}

/// The first `m` entries exist and cost at most `bound`.
pub open spec fn leads(s: Seq<KEntry>, m: nat, bound: i64) -> bool {
    m <= s.len() && (m > 0 ==> s[m - 1].cost <= bound)
}

/// `x` is in the list, or `k` entries that cost no more are.
pub open spec fn kept(s: Seq<KEntry>, k: nat, x: KEntry) -> bool {
    s.contains(x) || leads(s, k, x.cost)
}

proof fn lemma_place_exists<T: Ranked>(s: Seq<T>, r: int) -> (pos: int)
    requires
        ordering::ascending(s),
    ensures
        ordering::rank_place(s, r, pos),
    decreases s.len(),
{
    if s.len() == 0 || s.last().rank() <= r {
        assert forall|i: int| 0 <= i < s.len() implies (#[trigger] s[i]).rank() <= r by {
            assert(s[i].rank() <= s[s.len() - 1].rank());
        }
        s.len() as int
    } else {
        let p = s.drop_last();
        assert(ordering::ascending(p)) by {
            assert forall|i: int, j: int| 0 <= i <= j < p.len() implies (#[trigger] p[i]).rank() <= (
            #[trigger] p[j]).rank() by {
                assert(p[i] == s[i] && p[j] == s[j]);
            }
        }
        let pos = lemma_place_exists(p, r);
        assert forall|i: int| 0 <= i < pos implies (#[trigger] s[i]).rank() <= r by {
            assert(s[i] == p[i]);
        }
        assert forall|i: int| pos <= i < s.len() implies (#[trigger] s[i]).rank() > r by {
            if i < p.len() {
                assert(s[i] == p[i]);
            }
        }
        pos
    }
}

proof fn lemma_insert_leads(s: Seq<KEntry>, x: KEntry, k: nat, m: nat, bound: i64)
    requires
        ordering::ascending(s),
        s.len() <= k,
        m <= k,
        leads(s, m, bound),
    ensures
        leads(top(ordering::insert_ranked(s, x), k), m, bound),
        x.cost <= bound && m < k ==> leads(
            top(ordering::insert_ranked(s, x), k),
            (m + 1) as nat,
            bound,
        ),
{
    let pos = lemma_place_exists(s, x.rank());
    ordering::lemma_insert_ranked_at(s, x, pos);
    let q = s.insert(pos, x);
    if m > 0 {
        if m - 1 < pos {
            assert(q[m - 1] == s[m - 1]);
        } else if m - 1 == pos {
            assert(s[pos].rank() > x.rank());
        } else {
            assert(q[m - 1] == s[m - 2]);
            assert(s[m - 2].rank() <= s[m - 1].rank());
        }
    }
    if x.cost <= bound && m < k {
        if m < pos {
            assert(q[m as int] == s[m as int]);
        } else if m > pos {
            assert(q[m as int] == s[m - 1]);
        }
    }
}

proof fn lemma_insert_kept(s: Seq<KEntry>, y: KEntry, k: nat, x: KEntry)
    requires
        ordering::ascending(s),
        s.len() <= k,
        k > 0,
        kept(s, k, x) || x == y,
    ensures
        kept(top(ordering::insert_ranked(s, y), k), k, x),
{
    let pos = lemma_place_exists(s, y.rank());
    ordering::lemma_insert_ranked_at(s, y, pos);
    let q = s.insert(pos, y);
    let r = top(q, k);
    if x == y {
        if pos < k {
            assert(r[pos] == x);
        } else {
            assert(r[k - 1] == s[k - 1]);
        }
    } else if s.contains(x) {
        let i = choose|i: int| 0 <= i < s.len() && s[i] == x;
        let j = if i < pos {
            i
        } else {
            i + 1
        };
        assert(q[j] == x);
        if j < k {
            assert(r[j] == x);
        } else {
            lemma_top_insert(s, y, k);
            ordering::lemma_insert_ranked(s, y);
            assert(q[k - 1].rank() <= q[j].rank());
            assert(r[k - 1] == q[k - 1]);
        }
    } else {
        lemma_insert_leads(s, y, k, k, x.cost);
    }
}

proof fn lemma_ranks_leads(
    t: Seq<Seq<KEntry>>,
    l: LatticeView,
    c: CostModel,
    k: nat,
    next: int,
    prev: usize,
    r: nat,
    base: Seq<KEntry>,
    m: nat,
    bound: i64,
)
    requires
        ordering::ascending(base),
        base.len() <= k,
        m <= k,
        leads(base, m, bound),
        prev < l.nodes.len(),
        l.node(prev as int).end == l.node(next).start,
        r <= t[prev as int].len() <= usize::MAX,
        forall|i: int| 0 <= i < base.len() ==> continues(t, l, c, next, #[trigger] base[i]),
    ensures
        leads(offer_ranks(t, l, c, k, next, prev, r, base), m, bound),
        (forall|q: int| 0 <= q < r ==> (#[trigger] hop(t, l, c, next, prev, q)).cost <= bound)
            ==> leads(
            offer_ranks(t, l, c, k, next, prev, r, base),
            if m + r <= k {
                m + r
            } else {
                k
            },
            bound,
        ),
    decreases r,
{
    if r > 0 {
        let r1 = (r - 1) as nat;
        lemma_ranks_leads(t, l, c, k, next, prev, r1, base, m, bound);
        lemma_offer_ranks(t, l, c, k, next, prev, r1, base);
        let s = offer_ranks(t, l, c, k, next, prev, r1, base);
        let x = hop(t, l, c, next, prev, r - 1);
        lemma_insert_leads(s, x, k, m, bound);
        if forall|q: int| 0 <= q < r ==> (#[trigger] hop(t, l, c, next, prev, q)).cost <= bound {
            let m1 = if m + r1 <= k {
                m + r1
            } else {
                k
            };
            lemma_insert_leads(s, x, k, m1, bound);
        }
    }
}

proof fn lemma_ranks_kept(
    t: Seq<Seq<KEntry>>,
    l: LatticeView,
    c: CostModel,
    k: nat,
    next: int,
    prev: usize,
    r: nat,
    base: Seq<KEntry>,
    x: KEntry,
)
    requires
        k > 0,
        ordering::ascending(base),
        base.len() <= k,
        prev < l.nodes.len(),
        l.node(prev as int).end == l.node(next).start,
        r <= t[prev as int].len() <= usize::MAX,
        forall|i: int| 0 <= i < base.len() ==> continues(t, l, c, next, #[trigger] base[i]),
        kept(base, k, x) || exists|q: int| 0 <= q < r && x == #[trigger] hop(
            t,
            l,
            c,
            next,
            prev,
            q,
        ),
    ensures
        kept(offer_ranks(t, l, c, k, next, prev, r, base), k, x),
    decreases r,
{
    if r > 0 {
        let r1 = (r - 1) as nat;
        let y = hop(t, l, c, next, prev, r - 1);
        lemma_offer_ranks(t, l, c, k, next, prev, r1, base);
        if x != y {
            if !kept(base, k, x) {
                let q = choose|q: int|
                    0 <= q < r && x == #[trigger] hop(t, l, c, next, prev, q);
                assert(0 <= q < r1);
            }
            lemma_ranks_kept(t, l, c, k, next, prev, r1, base, x);
        }
        lemma_insert_kept(offer_ranks(t, l, c, k, next, prev, r1, base), y, k, x);
    }
}

proof fn lemma_prevs_kept(
    t: Seq<Seq<KEntry>>,
    l: LatticeView,
    c: CostModel,
    k: nat,
    next: int,
    j: nat,
    w: int,
    q: int,
)
    requires
        l.wf(),
        k > 0,
        0 <= next < l.nodes.len(),
        j <= l.upto(l.node(next).start as int).len(),
        t.len() == l.nodes.len(),
        forall|i: int| 0 <= i < t.len() ==> (#[trigger] t[i]).len() <= usize::MAX,
        0 <= w < j,
        0 <= q < t[l.upto(l.node(next).start as int)[w] as int].len(),
    ensures
        kept(
            offer_prevs(t, l, c, k, next, j),
            k,
            hop(t, l, c, next, l.upto(l.node(next).start as int)[w], q),
        ),
    decreases j,
{
    let pos = l.node(next).start as int;
    let prev = l.upto(pos)[j - 1];
    let x = hop(t, l, c, next, l.upto(pos)[w], q);
    let j1 = (j - 1) as nat;
    assert(l.node(next).start < l.node(next).end);
    assert(prev < l.nodes.len() && l.node(prev as int).end == pos);
    lemma_offer_prevs(t, l, c, k, next, j1);
    if w < j - 1 {
        lemma_prevs_kept(t, l, c, k, next, j1, w, q);
    }
    lemma_ranks_kept(
        t,
        l,
        c,
        k,
        next,
        prev,
        t[prev as int].len(),
        offer_prevs(t, l, c, k, next, j1),
        x,
    );
}

proof fn lemma_prevs_leads(
    t: Seq<Seq<KEntry>>,
    l: LatticeView,
    c: CostModel,
    k: nat,
    next: int,
    j: nat,
    w: int,
    bound: i64,
)
    requires
        l.wf(),
        k > 0,
        0 <= next < l.nodes.len(),
        j <= l.upto(l.node(next).start as int).len(),
        t.len() == l.nodes.len(),
        forall|i: int| 0 <= i < t.len() ==> (#[trigger] t[i]).len() <= usize::MAX,
        0 <= w < j,
        t[l.upto(l.node(next).start as int)[w] as int].len() == k,
        forall|q: int|
            0 <= q < k ==> (#[trigger] hop(
                t,
                l,
                c,
                next,
                l.upto(l.node(next).start as int)[w],
                q,
            )).cost <= bound,
    ensures
        leads(offer_prevs(t, l, c, k, next, j), k, bound),
    decreases j,
{
    let pos = l.node(next).start as int;
    let prev = l.upto(pos)[j - 1];
    let j1 = (j - 1) as nat;
    assert(l.node(next).start < l.node(next).end);
    assert(prev < l.nodes.len() && l.node(prev as int).end == pos);
    lemma_offer_prevs(t, l, c, k, next, j1);
    let base = offer_prevs(t, l, c, k, next, j1);
    if w < j - 1 {
        lemma_prevs_leads(t, l, c, k, next, j1, w, bound);
        lemma_ranks_leads(t, l, c, k, next, prev, t[prev as int].len(), base, k, bound);
    } else {
        lemma_ranks_leads(t, l, c, k, next, prev, t[prev as int].len(), base, 0, bound);
    }
}

/// The final list of a node that starts inside the string, from the lists of
/// the nodes that end where it starts.
proof fn lemma_final_list(l: LatticeView, c: CostModel, k: nat, i: int)
    requires
        l.wf(),
        0 < k <= usize::MAX,
        0 <= i < l.nodes.len(),
    ensures
        ({
            let t = table(l, c, k, l.char_count as nat);
            let start = l.node(i).start as nat;
            &&& sound_table(t, l, c, k)
            &&& start == 0 ==> t[i] == table(l, c, k, 1)[i]
            &&& start > 0 ==> t[i] == offer_prevs(
                table(l, c, k, start),
                l,
                c,
                k,
                i,
                l.upto(start as int).len(),
            )
            &&& sound_table(table(l, c, k, start), l, c, k)
        }),
{
    let cc = l.char_count as nat;
    let start = l.node(i).start as nat;
    assert(l.node(i).start < l.node(i).end);
    lemma_table(l, c, k, cc);
    lemma_table(l, c, k, start);
    lemma_table_keeps(l, c, k, start + 1, cc, i);
}

proof fn lemma_way_kept(
    l: LatticeView,
    c: CostModel,
    k: nat,
    q: Seq<usize>,
    node: usize,
    w: int,
    r: int,
)
    requires
        l.wf(),
        0 < k <= usize::MAX,
        q.len() > 0,
        node < l.nodes.len(),
        0 <= w < l.upto(l.node(node as int).start as int).len(),
        l.upto(l.node(node as int).start as int)[w] == q.last(),
        0 <= r < table(l, c, k, l.char_count as nat)[q.last() as int].len(),
        trace(table(l, c, k, l.char_count as nat), l, q.last(), r) == q,
        table(l, c, k, l.char_count as nat)[q.last() as int][r].cost == path_cost(l, c, q),
    ensures
        ({
            let t = table(l, c, k, l.char_count as nat);
            let s = t[node as int];
            let p = q.push(node);
            ||| exists|r2: int|
                0 <= r2 < s.len() && #[trigger] trace(t, l, node, r2) == p && s[r2].cost
                    == path_cost(l, c, p)
            ||| leads(s, k, path_cost(l, c, p))
        }),
{
    let cc = l.char_count as nat;
    let t = table(l, c, k, cc);
    let i = node as int;
    let start = l.node(i).start as nat;
    let s = t[i];
    let p = q.push(node);
    let prev = q.last();
    assert(l.node(i).start < l.node(i).end);
    assert(prev < l.nodes.len() && l.node(prev as int).end == start);
    assert(l.node(prev as int).start < l.node(prev as int).end);
    lemma_final_list(l, c, k, i);
    let u = table(l, c, k, start);
    lemma_table_keeps(l, c, k, start, cc, prev as int);
    assert(u[prev as int] == t[prev as int]);
    let j = l.upto(start as int).len();
    let x = hop(u, l, c, i, prev, r);
    lemma_prevs_kept(u, l, c, k, i, j, w, r);
    assert(p.drop_last() =~= q);
    assert(x.cost == path_cost(l, c, p));
    if s.contains(x) {
        let r2 = choose|r2: int| 0 <= r2 < s.len() && s[r2] == x;
        assert(trace(t, l, node, r2) == q.push(node));
    }
}

proof fn lemma_way_outdone(
    l: LatticeView,
    c: CostModel,
    k: nat,
    q: Seq<usize>,
    node: usize,
    w: int,
)
    requires
        l.wf(),
        0 < k <= usize::MAX,
        q.len() > 0,
        node < l.nodes.len(),
        0 <= w < l.upto(l.node(node as int).start as int).len(),
        l.upto(l.node(node as int).start as int)[w] == q.last(),
        leads(table(l, c, k, l.char_count as nat)[q.last() as int], k, path_cost(l, c, q)),
    ensures
        leads(
            table(l, c, k, l.char_count as nat)[node as int],
            k,
            path_cost(l, c, q.push(node)),
        ),
{
    let cc = l.char_count as nat;
    let t = table(l, c, k, cc);
    let i = node as int;
    let start = l.node(i).start as nat;
    let p = q.push(node);
    let prev = q.last();
    assert(l.node(i).start < l.node(i).end);
    assert(prev < l.nodes.len() && l.node(prev as int).end == start);
    assert(l.node(prev as int).start < l.node(prev as int).end);
    lemma_final_list(l, c, k, i);
    let u = table(l, c, k, start);
    lemma_table_keeps(l, c, k, start, cc, prev as int);
    assert(u[prev as int] == t[prev as int]);
    let ls = t[prev as int];
    assert(p.drop_last() =~= q);
    let bound = path_cost(l, c, p);
    assert(ordering::ascending(ls));
    assert forall|y: int| 0 <= y < k implies (#[trigger] hop(u, l, c, i, prev, y)).cost
        <= bound by {
        assert(ls[y].rank() <= ls[k - 1].rank());
    }
    lemma_prevs_leads(u, l, c, k, i, l.upto(start as int).len(), w, bound);
}

/// The list of a node holds the cheapest ways to it: each way from the start of
/// the string to the node is in the list, or `k` ways that cost no more are.
pub proof fn every_way_is_kept_or_outdone(
    l: LatticeView,
    c: CostModel,
    k: nat,
    p: Seq<usize>,
)
    requires
        l.wf(),
        0 < k <= usize::MAX,
        is_chain(l, p),
    ensures
        ({
            let t = table(l, c, k, l.char_count as nat);
            let s = t[p.last() as int];
            ||| exists|r: int|
                0 <= r < s.len() && #[trigger] trace(t, l, p.last(), r) == p && s[r].cost
                    == path_cost(l, c, p)
            ||| leads(s, k, path_cost(l, c, p))
        }),
    decreases p.len(),
{
    let t = table(l, c, k, l.char_count as nat);
    let node = p.last();
    let i = node as int;
    if p.len() == 1 {
        lemma_final_list(l, c, k, i);
        assert(trace(t, l, node, 0) =~= seq![node]);
        assert(p =~= seq![node]);
        assert(t[i][0].cost == path_cost(l, c, p));
    } else {
        let q = p.drop_last();
        let prev = q.last();
        reveal_with_fuel(is_chain, 2);
        every_way_is_kept_or_outdone(l, c, k, q);
        assert(l.upto(l.node(prev as int).end as int).contains(prev as int as usize));
        let start = l.node(i).start as int;
        let w = l.upto(start).index_of(prev);
        let ls = t[prev as int];
        assert(p =~= q.push(node));
        if exists|r: int|
            0 <= r < ls.len() && #[trigger] trace(t, l, prev, r) == q && ls[r].cost == path_cost(
                l,
                c,
                q,
            ) {
            let r = choose|r: int|
                0 <= r < ls.len() && #[trigger] trace(t, l, prev, r) == q && ls[r].cost
                    == path_cost(l, c, q);
            lemma_way_kept(l, c, k, q, node, w, r);
        } else {
            lemma_way_outdone(l, c, k, q, node, w);
        }
    }
}

proof fn lemma_endings_contain(
    t: Seq<Seq<KEntry>>,
    l: LatticeView,
    c: CostModel,
    j: nat,
    w: int,
    r: int,
)
    requires
        0 <= w < j <= l.upto(l.char_count as int).len(),
        0 <= r < t[l.upto(l.char_count as int)[w] as int].len() <= usize::MAX,
    ensures
        endings(t, l, c, j).contains(endings_at(t, l, c, l.upto(l.char_count as int)[w])[r]),
    decreases j,
{
    let a = endings(t, l, c, (j - 1) as nat);
    let b = endings_at(t, l, c, l.upto(l.char_count as int)[j - 1]);
    let x = endings_at(t, l, c, l.upto(l.char_count as int)[w])[r];
    if w < j - 1 {
        lemma_endings_contain(t, l, c, (j - 1) as nat, w, r);
        let i = choose|i: int| 0 <= i < a.len() && a[i] == x;
        assert((a + b)[i] == x);
    } else {
        assert((a + b)[a.len() + r] == x);
    }
}

/// `path` is the path of one of the first `i` ends.
pub open spec fn is_path_of(
    t: Seq<Seq<KEntry>>,
    l: LatticeView,
    es: Seq<Ending>,
    i: nat,
    path: PathView,
) -> bool {
    exists|j: int| 0 <= j < i && #[trigger] path_of(t, l, es[j]) == path
}

/// Each end that was considered has a path of its surface in the result, or the
/// result is full; nothing in the result costs more.
proof fn lemma_collect(t: Seq<Seq<KEntry>>, l: LatticeView, es: Seq<Ending>, n: nat, i: nat)
    requires
        ordering::ascending(es),
        i <= es.len(),
        n > 0,
    ensures
        ({
            let r = collect(t, l, es, n, i);
            &&& r.len() <= n
            &&& ordering::ascending(r)
            &&& forall|j: int, k: int|
                0 <= j < k < r.len() ==> surface_of((#[trigger] r[j]).segments) != surface_of(
                    (#[trigger] r[k]).segments,
                )
            &&& forall|k: int|
                0 <= k < r.len() ==> is_path_of(t, l, es, i, #[trigger] r[k])
            &&& forall|j: int|
                0 <= j < i ==> {
                    ||| r.len() == n
                    ||| has_surface(r, surface_of((#[trigger] path_of(t, l, es[j])).segments))
                }
            &&& forall|k: int| 0 <= k < r.len() && i < es.len() ==> (#[trigger] r[k]).viterbi_cost
                <= es[i as int].cost
            &&& i > 0 ==> r.len() > 0 && r[0] == path_of(t, l, es[0])
        }),
    decreases i,
{
    if i > 0 {
        let i1 = (i - 1) as nat;
        lemma_collect(t, l, es, n, i1);
        let got = collect(t, l, es, n, i1);
        let path = path_of(t, l, es[i - 1]);
        let r = collect(t, l, es, n, i);
        if i < es.len() {
            assert(es[i - 1].rank() <= es[i as int].rank());
        }
        if got.len() >= n || has_surface(got, surface_of(path.segments)) {
            assert forall|k: int| 0 <= k < r.len() implies is_path_of(
                t,
                l,
                es,
                i,
                #[trigger] r[k],
            ) by {
                assert(is_path_of(t, l, es, i1, got[k]));
                let j = choose|j: int| 0 <= j < i1 && #[trigger] path_of(t, l, es[j]) == got[k];
                assert(path_of(t, l, es[j]) == r[k]);
            }
        } else {
            assert forall|a: int, b: int| 0 <= a <= b < r.len() implies (#[trigger] r[a]).rank() <= (
            #[trigger] r[b]).rank() by {
                if a < got.len() {
                    assert(r[a] == got[a]);
                }
                if b < got.len() {
                    assert(r[b] == got[b]);
                }
            }
            assert forall|j: int, k: int| 0 <= j < k < r.len() implies surface_of(
                (#[trigger] r[j]).segments,
            ) != surface_of((#[trigger] r[k]).segments) by {
                assert(r[j] == got[j]);
                if k < got.len() {
                    assert(r[k] == got[k]);
                }
            }
            assert forall|k: int| 0 <= k < r.len() implies is_path_of(
                t,
                l,
                es,
                i,
                #[trigger] r[k],
            ) by {
                if k < got.len() {
                    assert(r[k] == got[k]);
                    assert(is_path_of(t, l, es, i1, got[k]));
                    let j = choose|j: int| 0 <= j < i1 && #[trigger] path_of(t, l, es[j]) == got[k];
                    assert(path_of(t, l, es[j]) == r[k]);
                } else {
                    assert(path_of(t, l, es[i - 1]) == r[k]);
                }
            }
            assert forall|j: int| 0 <= j < i implies r.len() == n || has_surface(
                r,
                surface_of((#[trigger] path_of(t, l, es[j])).segments),
            ) by {
                if j < i1 {
                    let sf = surface_of(path_of(t, l, es[j]).segments);
                    let k = choose|k: int|
                        0 <= k < got.len() && surface_of((#[trigger] got[k]).segments) == sf;
                    assert(r[k] == got[k]);
                } else {
                    assert(r[got.len() as int] == path);
                }
            }
        }
    }
}

/// The result of a search is ordered by cost and has at most `n` paths, no two
/// of one surface.
pub proof fn nbest_is_sorted_and_distinct(l: LatticeView, c: CostModel, n: nat)
    requires
        l.wf(),
        n <= usize::MAX,
    ensures
        ({
            let r = nbest(l, c, n);
            &&& r.len() <= n
            &&& ordering::ascending(r)
            &&& forall|j: int, k: int|
                0 <= j < k < r.len() ==> surface_of((#[trigger] r[j]).segments) != surface_of(
                    (#[trigger] r[k]).segments,
                )
        }),
{
    if l.char_count > 0 && n > 0 {
        lemma_ranked_endings_sound(l, c, n);
        let es = ranked_endings(l, c, n);
        lemma_collect(table(l, c, n, l.char_count as nat), l, es, n, es.len());
    }
}

/// Each path in the result is a path of the lattice, with its true cost.
pub proof fn nbest_paths_are_real(l: LatticeView, c: CostModel, n: nat, i: int)
    requires
        l.wf(),
        n <= usize::MAX,
        0 <= i < nbest(l, c, n).len(),
    ensures
        exists|p: Seq<usize>|
            is_path(l, p) && nbest(l, c, n)[i].segments == #[trigger] segments_of(l, p) && nbest(
                l,
                c,
                n,
            )[i].viterbi_cost == full_cost(l, c, p),
{
    let t = table(l, c, n, l.char_count as nat);
    let es = ranked_endings(l, c, n);
    lemma_table(l, c, n, l.char_count as nat);
    lemma_ranked_endings_sound(l, c, n);
    lemma_collect(t, l, es, n, es.len());
    let r = nbest(l, c, n);
    assert(is_path_of(t, l, es, es.len(), r[i]));
    let j = choose|j: int| 0 <= j < es.len() && #[trigger] path_of(t, l, es[j]) == r[i];
    let e = es[j];
    assert(sound_ending(t, l, c, e));
    lemma_trace(t, l, c, n, e.node, e.rank as int);
    let p = trace(t, l, e.node, e.rank as int);
    assert(is_path(l, p) && r[i].segments == segments_of(l, p) && r[i].viterbi_cost == full_cost(
        l,
        c,
        p,
    ));
}

proof fn lemma_es_has(l: LatticeView, c: CostModel, n: nat, node: usize, r: int) -> (i: int)
    requires
        l.wf(),
        0 < n <= usize::MAX,
        node < l.nodes.len(),
        l.node(node as int).end == l.char_count,
        0 <= r < table(l, c, n, l.char_count as nat)[node as int].len(),
    ensures
        0 <= i < ranked_endings(l, c, n).len(),
        ranked_endings(l, c, n)[i] == endings_at(
            table(l, c, n, l.char_count as nat),
            l,
            c,
            node,
        )[r],
{
    broadcast use vstd::seq_lib::group_to_multiset_ensures;

    let cc = l.char_count as nat;
    let t = table(l, c, n, cc);
    lemma_table(l, c, n, cc);
    assert(l.upto(l.node(node as int).end as int).contains(node as int as usize));
    let w = l.upto(l.char_count as int).index_of(node);
    let all = l.upto(l.char_count as int).len();
    lemma_endings_contain(t, l, c, all, w, r);
    let un = endings(t, l, c, all);
    ordering::ranked_order_sorts(un);
    let es = ranked_endings(l, c, n);
    let e = endings_at(t, l, c, node)[r];
    assert(un.to_multiset().count(e) > 0);
    assert(es.contains(e));
    choose|i: int| 0 <= i < es.len() && es[i] == e
}

/// The first path of the result is a cheapest one: no path over the whole
/// string costs less, and there is a first path whenever there is any.
pub proof fn nbest_first_is_cheapest(l: LatticeView, c: CostModel, n: nat, p: Seq<usize>)
    requires
        l.wf(),
        0 < n <= usize::MAX,
        is_path(l, p),
    ensures
        nbest(l, c, n).len() > 0,
        nbest(l, c, n)[0].viterbi_cost <= full_cost(l, c, p),
{
    let cc = l.char_count as nat;
    let t = table(l, c, n, cc);
    let node = p.last();
    let s = t[node as int];
    let es = ranked_endings(l, c, n);
    assert(l.node(node as int).start < l.node(node as int).end);
    every_way_is_kept_or_outdone(l, c, n, p);
    lemma_ranked_endings_sound(l, c, n);
    lemma_table(l, c, n, cc);
    lemma_collect(t, l, es, n, es.len());
    let rank: int = if exists|r: int|
        0 <= r < s.len() && #[trigger] trace(t, l, node, r) == p && s[r].cost == path_cost(
            l,
            c,
            p,
        ) {
        choose|r: int|
            0 <= r < s.len() && #[trigger] trace(t, l, node, r) == p && s[r].cost == path_cost(
                l,
                c,
                p,
            )
    } else {
        n - 1
    };
    let i = lemma_es_has(l, c, n, node, rank);
    assert(es[0].rank() <= es[i].rank());
}

/// Nothing is lost to the limit alone: for each path over the whole string, the
/// result has a path of its surface, or is full, or the search found `n` ways
/// to the path's last node that cost no more than it.
pub proof fn nbest_is_complete(l: LatticeView, c: CostModel, n: nat, p: Seq<usize>)
    requires
        l.wf(),
        0 < n <= usize::MAX,
        is_path(l, p),
    ensures
        ({
            let r = nbest(l, c, n);
            ||| has_surface(r, surface_of(segments_of(l, p)))
            ||| r.len() == n
            ||| leads(
                table(l, c, n, l.char_count as nat)[p.last() as int],
                n,
                path_cost(l, c, p),
            )
        }),
{
    let cc = l.char_count as nat;
    let t = table(l, c, n, cc);
    let node = p.last();
    let s = t[node as int];
    let es = ranked_endings(l, c, n);
    assert(l.node(node as int).start < l.node(node as int).end);
    every_way_is_kept_or_outdone(l, c, n, p);
    if !leads(s, n, path_cost(l, c, p)) {
        let rank = choose|r: int|
            0 <= r < s.len() && #[trigger] trace(t, l, node, r) == p && s[r].cost == path_cost(
                l,
                c,
                p,
            );
        lemma_ranked_endings_sound(l, c, n);
        lemma_table(l, c, n, cc);
        lemma_collect(t, l, es, n, es.len());
        let i = lemma_es_has(l, c, n, node, rank);
        assert(path_of(t, l, es[i]).segments == segments_of(l, p));
    }
}

} // verus!
