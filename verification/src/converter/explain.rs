//! Why a candidate ranks where it does.

use vstd::prelude::*;

use super::convert::{self, oversample};
use super::cost::{self, conn_cost, script_cost, DefaultCostFunction, SEGMENT_PENALTY};
use super::lattice::{self, build_lattice, Lattice, LatticeNode, LatticeView, NodeView};
use super::viterbi::{self, viterbi_nbest, PathView, RichSegment, RichView, ScoredPath};
use crate::arith::{self, sat_add, sat_sub};
use crate::dict::connection::{self, ConnView, ConnectionMatrix};
use crate::dict::Dictionary;
use crate::ordering::{self, stable_sort, Ranked, RankedItem};
use crate::seqs;
use crate::text::{self, push_text};
use crate::user_history::{self, HistoryView, UserHistory};

verus! {

/// The least number of paths that an explanation searches for.
pub const EXPLAIN_OVERSAMPLE: usize = 50;

/// A node of the lattice.
#[derive(Debug)]
pub struct ExplainNode {
    pub start: usize,
    pub end: usize,
    pub reading: String,
    pub surface: String,
    pub cost: i16,
    pub left_id: u16,
    pub right_id: u16,
}

impl View for ExplainNode {
    type V = NodeView;

    open spec fn view(&self) -> NodeView {
        NodeView {
            start: self.start,
            end: self.end,
            reading: self.reading@,
            surface: self.surface@,
            cost: self.cost,
            left_id: self.left_id,
            right_id: self.right_id,
        }
    }
}

/// A segment of an explained path, with its costs.
#[derive(Debug)]
pub struct ExplainSegment {
    pub reading: String,
    pub surface: String,
    pub word_cost: i64,
    pub segment_penalty: i64,
    pub script_cost: i64,
    /// Connection cost from the start or the previous segment.
    pub connection_cost: i64,
}

pub struct ExplainSegmentView {
    pub reading: Seq<char>,
    pub surface: Seq<char>,
    pub word_cost: i64,
    pub segment_penalty: i64,
    pub script_cost: i64,
    pub connection_cost: i64,
}

impl View for ExplainSegment {
    type V = ExplainSegmentView;

    open spec fn view(&self) -> ExplainSegmentView {
        ExplainSegmentView {
            reading: self.reading@,
            surface: self.surface@,
            word_cost: self.word_cost,
            segment_penalty: self.segment_penalty,
            script_cost: self.script_cost,
            connection_cost: self.connection_cost,
        }
    }
}

/// A path with its costs.
#[derive(Debug)]
pub struct ExplainPath {
    pub segments: Vec<ExplainSegment>,
    pub viterbi_cost: i64,
    /// Cost added for structure and scripts.
    pub rerank_delta: i64,
    /// Boost taken off for the user's history.
    pub history_boost: i64,
    /// Cost after all adjustments.
    pub final_cost: i64,
}

pub struct ExplainPathView {
    pub segments: Seq<ExplainSegmentView>,
    pub viterbi_cost: i64,
    pub rerank_delta: i64,
    pub history_boost: i64,
    pub final_cost: i64,
}

impl View for ExplainPath {
    type V = ExplainPathView;

    open spec fn view(&self) -> ExplainPathView {
        ExplainPathView {
            segments: text::views(self.segments@),
            viterbi_cost: self.viterbi_cost,
            rerank_delta: self.rerank_delta,
            history_boost: self.history_boost,
            final_cost: self.final_cost,
        }
    }
}

impl Ranked for ExplainPath {
    open spec fn rank(&self) -> int {
        self.final_cost as int
    }
}

impl RankedItem for ExplainPath {
    fn rank_of(&self) -> (r: i64) {
        self.final_cost
    }
}

impl Ranked for ExplainPathView {
    open spec fn rank(&self) -> int {
        self.final_cost as int
    }
}

/// The surface of an explained path.
pub open spec fn explained_surface(segs: Seq<ExplainSegmentView>) -> Seq<char> {
    text::concat(Seq::new(segs.len(), |i: int| segs[i].surface))
}

impl ExplainPath {
    /// The surface of the whole path.
    pub fn surface(&self) -> (r: String)
        ensures
            r@ == explained_surface(self@.segments),
    {
        let mut out = String::new();
        let ghost parts = Seq::new(self@.segments.len(), |i: int| self@.segments[i].surface);
        let mut i: usize = 0;
        while i < self.segments.len()
            invariant
                i <= self.segments@.len(),
                parts == Seq::new(self@.segments.len(), |i: int| self@.segments[i].surface),
                out@ == text::concat(parts.take(i as int)),
            decreases self.segments.len() - i,
        {
            push_text(&mut out, self.segments[i].surface.as_str());
            proof {
                assert(parts.take(i + 1).drop_last() =~= parts.take(i as int));
                assert(parts.take(i + 1).last() == self.segments@[i as int].surface@);
            }
            i = i + 1;
        }
        proof {
            assert(parts.take(parts.len() as int) =~= parts);
        }
        out
    }
}

/// The explanation of a conversion.
#[derive(Debug)]
pub struct ExplainResult {
    pub reading: String,
    pub lattice_nodes: Vec<ExplainNode>,
    pub paths: Vec<ExplainPath>,
}

pub open spec fn is_word(reading: Seq<char>, surface: Seq<char>) -> spec_fn(NodeView) -> bool {
    |n: NodeView| n.reading == reading && n.surface == surface
}

pub open spec fn is_entry(reading: Seq<char>, surface: Seq<char>, left_id: u16) -> spec_fn(
    NodeView,
) -> bool {
    |n: NodeView| n.reading == reading && n.surface == surface && n.left_id == left_id
}

/// The word cost of the first node of a word with its left id, 0 if there is
/// none.
pub open spec fn raw_cost(l: LatticeView, seg: RichView) -> i64 {
    let i = seqs::first_place(l.nodes, is_entry(seg.reading, seg.surface, seg.left_id));
    if i < l.nodes.len() {
        l.nodes[i].cost as i64
    } else {
        0
    }
}

/// The left id of the first node of a word, 0 if there is none.
pub open spec fn left_of(l: LatticeView, reading: Seq<char>, surface: Seq<char>) -> u16 {
    let i = seqs::first_place(l.nodes, is_word(reading, surface));
    if i < l.nodes.len() {
        l.nodes[i].left_id
    } else {
        0
    }
}

/// The right id of the first node of a word, 0 if there is none.
pub open spec fn right_of(l: LatticeView, reading: Seq<char>, surface: Seq<char>) -> u16 {
    let i = seqs::first_place(l.nodes, is_word(reading, surface));
    if i < l.nodes.len() {
        l.nodes[i].right_id
    } else {
        0
    }
}

/// Segment `i` of a path with its costs.
pub open spec fn explained_segment(
    l: LatticeView,
    segs: Seq<RichView>,
    conn: Option<ConnView>,
    i: int,
) -> ExplainSegmentView {
    ExplainSegmentView {
        reading: segs[i].reading,
        surface: segs[i].surface,
        word_cost: raw_cost(l, segs[i]),
        segment_penalty: SEGMENT_PENALTY,
        script_cost: cost::script_cost_of(segs[i].surface),
        connection_cost: if i == 0 {
            cost::link_cost(conn, 0, segs[i].left_id)
        } else {
            cost::link_cost(conn, segs[i - 1].right_id, segs[i].left_id)
        },
    }
}

pub open spec fn explained_segments(
    l: LatticeView,
    segs: Seq<RichView>,
    conn: Option<ConnView>,
) -> Seq<ExplainSegmentView> {
    Seq::new(segs.len(), |i: int| explained_segment(l, segs, conn, i))
}

/// Connection and script costs of the first `i` segments.
pub open spec fn delta_upto(
    l: LatticeView,
    segs: Seq<RichView>,
    conn: Option<ConnView>,
    i: nat,
) -> i64
    decreases i,
{
    if i == 0 {
        0
    } else {
        let seg = segs[i - 1];
        let from = if i == 1 {
            0
        } else {
            right_of(l, segs[i - 2].reading, segs[i - 2].surface)
        };
        arith::plus(
            arith::plus(
                delta_upto(l, segs, conn, (i - 1) as nat),
                cost::link_cost(conn, from, left_of(l, seg.reading, seg.surface)),
            ),
            cost::script_cost_of(seg.surface),
        )
    }
}

/// Connection and script costs of a path, with the connection to its end.
pub open spec fn rerank_delta(l: LatticeView, segs: Seq<RichView>, conn: Option<ConnView>) -> i64 {
    let d = delta_upto(l, segs, conn, segs.len());
    if segs.len() == 0 {
        d
    } else {
        arith::plus(
            d,
            cost::link_cost(
                conn,
                right_of(l, segs.last().reading, segs.last().surface),
                0,
            ),
        )
    }
}

/// The history boost of a path; 0 without a history.
pub open spec fn boost_in(segs: Seq<RichView>, history: Option<HistoryView>) -> i64 {
    match history {
        Some(h) => arith::total(super::reranker::boosts(segs, h)),
        None => 0,
    }
}

/// A path with its costs.
pub open spec fn explained(
    l: LatticeView,
    p: PathView,
    conn: Option<ConnView>,
    history: Option<HistoryView>,
) -> ExplainPathView {
    let delta = rerank_delta(l, p.segments, conn);
    let boost = boost_in(p.segments, history);
    ExplainPathView {
        segments: explained_segments(l, p.segments, conn),
        viterbi_cost: p.viterbi_cost,
        rerank_delta: delta,
        history_boost: boost,
        final_cost: match history {
            Some(h) => arith::minus(arith::plus(p.viterbi_cost, delta), boost),
            None => arith::plus(p.viterbi_cost, delta),
        },
    }
}

/// How many paths an explanation of `n` results searches for.
pub open spec fn explain_width(n: nat) -> nat {
    if convert::oversampled(n) < EXPLAIN_OVERSAMPLE {
        EXPLAIN_OVERSAMPLE as nat
    } else {
        convert::oversampled(n)
    }
}

/// The explained paths of a lattice, by final cost, at most `n`.
pub open spec fn explained_paths(
    l: LatticeView,
    conn: Option<ConnView>,
    history: Option<HistoryView>,
    n: nat,
) -> Seq<ExplainPathView> {
    let raw = viterbi::nbest(l, cost::default_model(conn), explain_width(n));
    viterbi::top(
        ordering::ranked_order(
            Seq::new(raw.len(), |i: int| explained(l, raw[i], conn, history)),
        ),
        n,
    )
}

fn find_entry(lattice: &Lattice, seg: &RichSegment) -> (i: usize)
    ensures
        i as int == seqs::first_place(
            lattice@.nodes,
            is_entry(seg@.reading, seg@.surface, seg@.left_id),
        ),
{
    let ghost f = is_entry(seg@.reading, seg@.surface, seg@.left_id);
    let mut i: usize = 0;
    while i < lattice.nodes.len()
        invariant
            i <= lattice.nodes@.len(),
            f == is_entry(seg@.reading, seg@.surface, seg@.left_id),
            seqs::first_place(lattice@.nodes, f) == seqs::first_from(lattice@.nodes, f, i as int),
        decreases lattice.nodes.len() - i,
    {
        let n: &LatticeNode = &lattice.nodes[i];
        proof {
            assert(lattice@.nodes[i as int] == n@);
        }
        if n.reading == seg.reading && n.surface == seg.surface && n.left_id == seg.left_id {
            return i;
        }
        i = i + 1;
    }
    i
}

fn find_word(lattice: &Lattice, reading: &String, surface: &String) -> (i: usize)
    ensures
        i as int == seqs::first_place(lattice@.nodes, is_word(reading@, surface@)),
{
    let ghost f = is_word(reading@, surface@);
    let mut i: usize = 0;
    while i < lattice.nodes.len()
        invariant
            i <= lattice.nodes@.len(),
            f == is_word(reading@, surface@),
            seqs::first_place(lattice@.nodes, f) == seqs::first_from(lattice@.nodes, f, i as int),
        decreases lattice.nodes.len() - i,
    {
        let n: &LatticeNode = &lattice.nodes[i];
        proof {
            assert(lattice@.nodes[i as int] == n@);
        }
        if n.reading == *reading && n.surface == *surface {
            return i;
        }
        i = i + 1;
    }
    i
}

fn left_id_of(lattice: &Lattice, seg: &RichSegment) -> (r: u16)
    ensures
        r == left_of(lattice@, seg@.reading, seg@.surface),
{
    let i: usize = find_word(lattice, &seg.reading, &seg.surface);
    if i < lattice.nodes.len() {
        lattice.nodes[i].left_id
    } else {
        0
    }
}

fn right_id_of(lattice: &Lattice, seg: &RichSegment) -> (r: u16)
    ensures
        r == right_of(lattice@, seg@.reading, seg@.surface),
{
    let i: usize = find_word(lattice, &seg.reading, &seg.surface);
    if i < lattice.nodes.len() {
        lattice.nodes[i].right_id
    } else {
        0
    }
}

fn explain_segment(
    lattice: &Lattice,
    segs: &Vec<RichSegment>,
    conn: Option<&ConnectionMatrix>,
    i: usize,
) -> (r: ExplainSegment)
    requires
        i < segs@.len(),
    ensures
        r@ == explained_segment(
            lattice@,
            text::views(segs@),
            connection::conn_view(conn),
            i as int,
        ),
{
    let seg: &RichSegment = &segs[i];
    let ghost vs = text::views(segs@);
    proof {
        assert(vs[i as int] == seg@);
    }
    let k: usize = find_entry(lattice, seg);
    let word_cost: i64 = if k < lattice.nodes.len() {
        proof {
            assert(lattice@.nodes[k as int] == lattice.nodes@[k as int]@);
        }
        lattice.nodes[k].cost as i64
    } else {
        0
    };
    let connection_cost: i64 = if i == 0 {
        conn_cost(conn, 0, seg.left_id)
    } else {
        proof {
            assert(vs[i - 1] == segs@[i - 1]@);
        }
        conn_cost(conn, segs[i - 1].right_id, seg.left_id)
    };
    ExplainSegment {
        reading: seg.reading.clone(),
        surface: seg.surface.clone(),
        word_cost,
        segment_penalty: SEGMENT_PENALTY,
        script_cost: script_cost(seg.surface.as_str()),
        connection_cost,
    }
}

fn rerank_delta_of(
    lattice: &Lattice,
    segs: &Vec<RichSegment>,
    conn: Option<&ConnectionMatrix>,
) -> (r: i64)
    ensures
        r == rerank_delta(lattice@, text::views(segs@), connection::conn_view(conn)),
{
    let ghost vs = text::views(segs@);
    let ghost cv = connection::conn_view(conn);
    let mut delta: i64 = 0;
    let mut i: usize = 0;
    while i < segs.len()
        invariant
            i <= segs@.len(),
            vs == text::views(segs@),
            cv == connection::conn_view(conn),
            delta == delta_upto(lattice@, vs, cv, i as nat),
        decreases segs.len() - i,
    {
        let seg: &RichSegment = &segs[i];
        proof {
            assert(vs[i as int] == seg@);
        }
        let from: u16 = if i == 0 {
            0
        } else {
            proof {
                assert(vs[i - 1] == segs@[i - 1]@);
            }
            right_id_of(lattice, &segs[i - 1])
        };
        let link: i64 = conn_cost(conn, from, left_id_of(lattice, seg));
        delta = sat_add(sat_add(delta, link), script_cost(seg.surface.as_str()));
        i = i + 1;
    }
    if segs.len() > 0 {
        let last: &RichSegment = &segs[segs.len() - 1];
        proof {
            assert(vs.last() == last@);
        }
        delta = sat_add(delta, conn_cost(conn, right_id_of(lattice, last), 0));
    }
    delta
}

fn explain_path(
    lattice: &Lattice,
    path: &ScoredPath,
    conn: Option<&ConnectionMatrix>,
    history: Option<&UserHistory>,
) -> (r: ExplainPath)
    ensures
        r@ == explained(
            lattice@,
            path@,
            connection::conn_view(conn),
            user_history::history_view(history),
        ),
{
    let ghost all = explained_segments(lattice@, path@.segments, connection::conn_view(conn));
    let mut segments: Vec<ExplainSegment> = Vec::new();
    let mut i: usize = 0;
    while i < path.segments.len()
        invariant
            i <= path.segments@.len(),
            all == explained_segments(lattice@, path@.segments, connection::conn_view(conn)),
            text::views(segments@) =~= all.take(i as int),
        decreases path.segments.len() - i,
    {
        let ghost before = segments@;
        segments.push(explain_segment(lattice, &path.segments, conn, i));
        proof {
            assert(text::views(segments@) =~= text::views(before).push(segments@.last()@));
            assert(segments@.last()@ == all[i as int]);
        }
        i = i + 1;
    }
    proof {
        assert(text::views(segments@) =~= all);
    }
    let delta: i64 = rerank_delta_of(lattice, &path.segments, conn);
    let cost: i64 = sat_add(path.viterbi_cost, delta);
    let (boost, final_cost): (i64, i64) = match history {
        Some(h) => {
            let b: i64 = super::reranker::boost_of_path(path, h);
            (b, sat_sub(cost, b))
        },
        None => (0, cost),
    };
    ExplainPath {
        segments,
        viterbi_cost: path.viterbi_cost,
        rerank_delta: delta,
        history_boost: boost,
        final_cost,
    }
}

fn explain_nodes(lattice: &Lattice) -> (r: Vec<ExplainNode>)
    ensures
        text::views(r@) == lattice@.nodes,
{
    let mut out: Vec<ExplainNode> = Vec::new();
    let mut i: usize = 0;
    while i < lattice.nodes.len()
        invariant
            i <= lattice.nodes@.len(),
            text::views(out@) =~= lattice@.nodes.take(i as int),
        decreases lattice.nodes.len() - i,
    {
        let node: &LatticeNode = &lattice.nodes[i];
        let ghost before = out@;
        out.push(
            ExplainNode {
                start: node.start,
                end: node.end,
                reading: node.reading.clone(),
                surface: node.surface.clone(),
                cost: node.cost,
                left_id: node.left_id,
                right_id: node.right_id,
            },
        );
        proof {
            assert(text::views(out@) =~= text::views(before).push(out@.last()@));
            assert(lattice@.nodes[i as int] == node@);
        }
        i = i + 1;
    }
    out
}

/// Explains how a reading is converted: the lattice, and up to `n` paths with
/// their costs, by final cost.
pub fn explain<D: Dictionary>(
    dict: &D,
    conn: Option<&ConnectionMatrix>,
    history: Option<&UserHistory>,
    reading: &str,
    n: usize,
) -> (r: ExplainResult)
    requires
        dict.valid(),
    ensures
        r.reading@ == reading@,
        text::views(r.lattice_nodes@) == lattice::lattice_of(dict.words(), reading@).nodes,
        text::views(r.paths@) == explained_paths(
            lattice::lattice_of(dict.words(), reading@),
            connection::conn_view(conn),
            user_history::history_view(history),
            n as nat,
        ),
{
    let lattice: Lattice = build_lattice(dict, reading);
    let lattice_nodes: Vec<ExplainNode> = explain_nodes(&lattice);
    let cost_fn = DefaultCostFunction::new(conn);
    let three: usize = oversample(n);
    let width: usize = if three < EXPLAIN_OVERSAMPLE {
        EXPLAIN_OVERSAMPLE
    } else {
        three
    };
    let raw: Vec<ScoredPath> = viterbi_nbest(&lattice, &cost_fn, width);
    let ghost rv = text::views(raw@);
    let ghost cv = connection::conn_view(conn);
    let ghost hv = user_history::history_view(history);
    let ghost all = Seq::new(rv.len(), |i: int| explained(lattice@, rv[i], cv, hv));
    let mut paths: Vec<ExplainPath> = Vec::new();
    let mut i: usize = 0;
    while i < raw.len()
        invariant
            i <= raw@.len(),
            rv == text::views(raw@),
            cv == connection::conn_view(conn),
            hv == user_history::history_view(history),
            all == Seq::new(rv.len(), |i: int| explained(lattice@, rv[i], cv, hv)),
            text::views(paths@) =~= all.take(i as int),
        decreases raw.len() - i,
    {
        let ghost before = paths@;
        proof {
            assert(rv[i as int] == raw@[i as int]@);
        }
        paths.push(explain_path(&lattice, &raw[i], conn, history));
        proof {
            assert(text::views(paths@) =~= text::views(before).push(paths@.last()@));
            assert(paths@.last()@ == all[i as int]);
        }
        i = i + 1;
    }
    proof {
        assert(text::views(paths@) =~= all);
        ordering::lemma_ranked_order_views(paths@);
    }
    stable_sort(&mut paths);
    if paths.len() > n {
        let ghost before = paths@;
        paths.truncate(n);
        proof {
            assert(text::views(paths@) =~= text::views(before).take(n as int));
        }
    }
    ExplainResult { reading: reading.to_owned(), lattice_nodes, paths }
}

/// Explained paths come in the order of their final costs, at most `n`.
pub proof fn explained_paths_are_sorted(
    l: LatticeView,
    conn: Option<ConnView>,
    history: Option<HistoryView>,
    n: nat,
)
    ensures
        explained_paths(l, conn, history, n).len() <= n,
        ordering::ascending(explained_paths(l, conn, history, n)),
{
    let raw = viterbi::nbest(l, cost::default_model(conn), explain_width(n));
    let all = Seq::new(raw.len(), |i: int| explained(l, raw[i], conn, history));
    ordering::ranked_order_sorts(all);
    let s = ordering::ranked_order(all);
    let r = explained_paths(l, conn, history, n);
    assert forall|i: int, j: int| 0 <= i <= j < r.len() implies (#[trigger] r[i]).rank() <= (
    #[trigger] r[j]).rank() by {
        assert(r[i] == s[i] && r[j] == s[j]);
    }
}

} // verus!
