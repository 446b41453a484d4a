//! Conversion of a kana string.

use vstd::prelude::*;

use super::constrained::{self, PrefixConstrainedCost, PrefixConstraint, PrefixView};
use super::cost::{self, CostFunction, CostModel, DefaultCostFunction};
use super::lattice::{self, build_lattice, Lattice, LatticeView};
use super::postprocess::{self, add_katakana, keep_top, postprocess, to_phrases};
use super::reranker::{self, rerank};
use super::rewriter;
use super::viterbi::{self, viterbi_nbest, ConvertedSegment, PathView, RichView, ScoredPath, SegmentText};
use crate::dict::connection::{self, ConnView, ConnectionMatrix};
use crate::dict::{Dictionary, EntryView};
use crate::ordering;
use crate::text;
use crate::user_history::{self, HistoryView, UserHistory};

verus! {

/// How many paths the search for the best one keeps, for ranking to choose from.
pub const BEST_OVERSAMPLE: usize = 10;

/// How many paths the search for `n` results keeps.
pub open spec fn oversampled(n: nat) -> nat {
    if n * 3 > usize::MAX {
        usize::MAX as nat
    } else {
        n * 3
    }
}

/// Three times `n`, or the largest number.
pub(crate) fn oversample(n: usize) -> (r: usize)
    ensures
        r == oversampled(n as nat),
{
    match n.checked_mul(3) {
        Some(m) => m,
        None => usize::MAX,
    }
}

/// The first of some results, or nothing.
pub open spec fn first_or_empty(rs: Seq<Seq<SegmentText>>) -> Seq<SegmentText> {
    if rs.len() == 0 {
        Seq::empty()
    } else {
        rs[0]
    }
}

/// The best conversion of `kana`.
pub open spec fn converted(
    words: Map<Seq<char>, Seq<EntryView>>,
    c: CostModel,
    conn: Option<ConnView>,
    history: Option<HistoryView>,
    kana: Seq<char>,
) -> Seq<SegmentText> {
    if kana.len() == 0 {
        Seq::empty()
    } else {
        first_or_empty(
            postprocess::postprocessed(
                viterbi::nbest(lattice::lattice_of(words, kana), c, BEST_OVERSAMPLE as nat),
                conn,
                history,
                kana,
                1,
            ),
        )
    }
}

fn best_of<C: CostFunction>(
    lattice: &Lattice,
    cost_fn: &C,
    conn: Option<&ConnectionMatrix>,
    history: Option<&UserHistory>,
    kana: &str,
) -> (r: Vec<ConvertedSegment>)
    requires
        lattice@.wf(),
    ensures
        text::views(r@) == first_or_empty(
            postprocess::postprocessed(
                viterbi::nbest(lattice@, cost_fn.model(), BEST_OVERSAMPLE as nat),
                connection::conn_view(conn),
                user_history::history_view(history),
                kana@,
                1,
            ),
        ),
{
    let mut paths: Vec<ScoredPath> = viterbi_nbest(lattice, cost_fn, BEST_OVERSAMPLE);
    let mut results: Vec<Vec<ConvertedSegment>> = postprocess(&mut paths, conn, history, kana, 1);
    if results.len() == 0 {
        let r: Vec<ConvertedSegment> = Vec::new();
        proof {
            assert(text::views(r@) =~= Seq::empty());
        }
        r
    } else {
        proof {
            assert(postprocess::segment_lists(results@)[0] == text::views(results@[0]@));
        }
        results.remove(0)
    }
}

/// Converts a kana string to its best segmentation.
///
/// With a matrix, connection costs count and morphemes are grouped into
/// phrases; without one, only word costs count.
pub fn convert<D: Dictionary>(dict: &D, conn: Option<&ConnectionMatrix>, kana: &str) -> (r: Vec<
    ConvertedSegment,
>)
    requires
        dict.valid(),
    ensures
        text::views(r@) == converted(
            dict.words(),
            cost::default_model(connection::conn_view(conn)),
            connection::conn_view(conn),
            None,
            kana@,
        ),
{
    let cost_fn = DefaultCostFunction::new(conn);
    convert_with_cost(dict, &cost_fn, conn, kana)
}

/// Converts a kana string with a custom cost function. The matrix is for
/// ranking and grouping.
pub fn convert_with_cost<D: Dictionary, C: CostFunction>(
    dict: &D,
    cost_fn: &C,
    conn: Option<&ConnectionMatrix>,
    kana: &str,
) -> (r: Vec<ConvertedSegment>)
    requires
        dict.valid(),
    ensures
        text::views(r@) == converted(
            dict.words(),
            cost_fn.model(),
            connection::conn_view(conn),
            None,
            kana@,
        ),
{
    if kana.is_empty() {
        let r: Vec<ConvertedSegment> = Vec::new();
        proof {
            assert(text::views(r@) =~= Seq::empty());
        }
        return r;
    }
    let lattice: Lattice = build_lattice(dict, kana);
    best_of(&lattice, cost_fn, conn, None, kana)
}

/// Converts a kana string, with the user's history in the ranking.
pub fn convert_with_history<D: Dictionary>(
    dict: &D,
    conn: Option<&ConnectionMatrix>,
    history: &UserHistory,
    kana: &str,
) -> (r: Vec<ConvertedSegment>)
    requires
        dict.valid(),
    ensures
        text::views(r@) == converted(
            dict.words(),
            cost::default_model(connection::conn_view(conn)),
            connection::conn_view(conn),
            Some(history@),
            kana@,
        ),
{
    if kana.is_empty() {
        let r: Vec<ConvertedSegment> = Vec::new();
        proof {
            assert(text::views(r@) =~= Seq::empty());
        }
        return r;
    }
    let cost_fn = DefaultCostFunction::new(conn);
    let lattice: Lattice = build_lattice(dict, kana);
    best_of(&lattice, &cost_fn, conn, Some(history), kana)
}

/// The `n` best conversions of `kana` in its lattice, and its katakana form.
pub open spec fn nbest_in(
    l: LatticeView,
    c: CostModel,
    conn: Option<ConnView>,
    kana: Seq<char>,
    n: nat,
) -> Seq<Seq<SegmentText>> {
    if kana.len() == 0 || n == 0 {
        Seq::empty()
    } else {
        let paths = reranker::reranked(viterbi::nbest(l, c, oversampled(n)), conn);
        postprocess::all_phrase_texts(
            rewriter::with_katakana(viterbi::top(paths, n), kana),
            conn,
        )
    }
}

/// The `n` best conversions of `kana`, and its katakana form.
pub open spec fn nbest_converted(
    words: Map<Seq<char>, Seq<EntryView>>,
    c: CostModel,
    conn: Option<ConnView>,
    kana: Seq<char>,
    n: nat,
) -> Seq<Seq<SegmentText>> {
    nbest_in(lattice::lattice_of(words, kana), c, conn, kana, n)
}

/// Converts a kana string to its N-best segmentations. The katakana form comes
/// behind them when none of them has that surface.
pub fn convert_nbest<D: Dictionary>(
    dict: &D,
    conn: Option<&ConnectionMatrix>,
    kana: &str,
    n: usize,
) -> (r: Vec<Vec<ConvertedSegment>>)
    requires
        dict.valid(),
    ensures
        postprocess::segment_lists(r@) == nbest_converted(
            dict.words(),
            cost::default_model(connection::conn_view(conn)),
            connection::conn_view(conn),
            kana@,
            n as nat,
        ),
{
    let cost_fn = DefaultCostFunction::new(conn);
    convert_nbest_with_cost(dict, &cost_fn, conn, kana, n)
}

/// Converts a kana string to its N-best segmentations with a custom cost
/// function. The matrix is for ranking and grouping.
pub fn convert_nbest_with_cost<D: Dictionary, C: CostFunction>(
    dict: &D,
    cost_fn: &C,
    conn: Option<&ConnectionMatrix>,
    kana: &str,
    n: usize,
) -> (r: Vec<Vec<ConvertedSegment>>)
    requires
        dict.valid(),
    ensures
        postprocess::segment_lists(r@) == nbest_converted(
            dict.words(),
            cost_fn.model(),
            connection::conn_view(conn),
            kana@,
            n as nat,
        ),
{
    if kana.is_empty() || n == 0 {
        let r: Vec<Vec<ConvertedSegment>> = Vec::new();
        proof {
            assert(postprocess::segment_lists(r@) =~= Seq::empty());
        }
        return r;
    }
    let lattice: Lattice = build_lattice(dict, kana);
    nbest_of_lattice(&lattice, cost_fn, conn, n)
}

fn nbest_of_lattice<C: CostFunction>(
    lattice: &Lattice,
    cost_fn: &C,
    conn: Option<&ConnectionMatrix>,
    n: usize,
) -> (r: Vec<Vec<ConvertedSegment>>)
    requires
        lattice@.wf(),
        lattice.input@.len() > 0,
        n > 0,
    ensures
        postprocess::segment_lists(r@) == nbest_in(
            lattice@,
            cost_fn.model(),
            connection::conn_view(conn),
            lattice.input@,
            n as nat,
        ),
{
    let mut paths: Vec<ScoredPath> = viterbi_nbest(lattice, cost_fn, oversample(n));
    rerank(&mut paths, conn);
    keep_top(&mut paths, n);
    add_katakana(&mut paths, lattice.input.as_str());
    to_phrases(paths, conn)
}

/// Converts the kana string of a lattice to its N-best segmentations, as
/// `convert_nbest` does.
pub fn convert_nbest_from_lattice(
    lattice: &Lattice,
    conn: Option<&ConnectionMatrix>,
    n: usize,
) -> (r: Vec<Vec<ConvertedSegment>>)
    requires
        lattice@.wf(),
    ensures
        postprocess::segment_lists(r@) == nbest_in(
            lattice@,
            cost::default_model(connection::conn_view(conn)),
            connection::conn_view(conn),
            lattice.input@,
            n as nat,
        ),
{
    if lattice.input.as_str().is_empty() || n == 0 {
        let r: Vec<Vec<ConvertedSegment>> = Vec::new();
        proof {
            assert(postprocess::segment_lists(r@) =~= Seq::empty());
        }
        return r;
    }
    let cost_fn = DefaultCostFunction::new(conn);
    nbest_of_lattice(lattice, &cost_fn, conn, n)
}

/// The `n` best conversions of `kana` with the history in the ranking.
pub open spec fn nbest_with_history(
    words: Map<Seq<char>, Seq<EntryView>>,
    conn: Option<ConnView>,
    history: HistoryView,
    kana: Seq<char>,
    n: nat,
) -> Seq<Seq<SegmentText>> {
    if kana.len() == 0 || n == 0 {
        Seq::empty()
    } else {
        postprocess::postprocessed(
            viterbi::nbest(
                lattice::lattice_of(words, kana),
                cost::default_model(conn),
                oversampled(n),
            ),
            conn,
            Some(history),
            kana,
            n,
        )
    }
}

/// Converts a kana string to its N-best segmentations, with the user's history
/// in the ranking.
pub fn convert_nbest_with_history<D: Dictionary>(
    dict: &D,
    conn: Option<&ConnectionMatrix>,
    history: &UserHistory,
    kana: &str,
    n: usize,
) -> (r: Vec<Vec<ConvertedSegment>>)
    requires
        dict.valid(),
    ensures
        postprocess::segment_lists(r@) == nbest_with_history(
            dict.words(),
            connection::conn_view(conn),
            history@,
            kana@,
            n as nat,
        ),
{
    if kana.is_empty() || n == 0 {
        let r: Vec<Vec<ConvertedSegment>> = Vec::new();
        proof {
            assert(postprocess::segment_lists(r@) =~= Seq::empty());
        }
        return r;
    }
    let cost_fn = DefaultCostFunction::new(conn);
    let lattice: Lattice = build_lattice(dict, kana);
    let mut paths: Vec<ScoredPath> = viterbi_nbest(&lattice, &cost_fn, oversample(n));
    postprocess(&mut paths, conn, Some(history), kana, n)
}

/// The `n` best paths of `kana`, with a prohibitive cost on what contradicts a
/// confirmed prefix.
pub open spec fn nbest_constrained(
    words: Map<Seq<char>, Seq<EntryView>>,
    conn: Option<ConnView>,
    kana: Seq<char>,
    prefix: PrefixView,
    n: nat,
) -> Seq<PathView> {
    viterbi::top(
        reranker::reranked(
            viterbi::nbest(
                lattice::lattice_of(words, kana),
                constrained::constrained_model(conn, prefix),
                oversampled(n),
            ),
            conn,
        ),
        n,
    )
}

/// Searches again with a confirmed prefix fixed.
pub fn convert_nbest_constrained<D: Dictionary>(
    dict: &D,
    conn: Option<&ConnectionMatrix>,
    kana: &str,
    constraint: &PrefixConstraint,
    n: usize,
) -> (r: Vec<ScoredPath>)
    requires
        dict.valid(),
    ensures
        text::views(r@) == nbest_constrained(
            dict.words(),
            connection::conn_view(conn),
            kana@,
            constraint@,
            n as nat,
        ),
{
    let cost_fn = PrefixConstrainedCost::new(conn, constraint);
    let lattice: Lattice = build_lattice(dict, kana);
    let mut paths: Vec<ScoredPath> = viterbi_nbest(&lattice, &cost_fn, oversample(n));
    rerank(&mut paths, conn);
    keep_top(&mut paths, n);
    paths
}

/// `p`'s segments are those of some path in `from`.
pub open spec fn stems_from(p: PathView, from: Seq<PathView>) -> bool {
    exists|j: int| 0 <= j < from.len() && (#[trigger] from[j]).segments == p.segments
}

proof fn lemma_sorted_stems(s: Seq<PathView>, i: int)
    requires
        0 <= i < ordering::ranked_order(s).len(),
    ensures
        s.contains(ordering::ranked_order(s)[i]),
{
    broadcast use vstd::seq_lib::group_to_multiset_ensures;

    ordering::ranked_order_sorts(s);
    let r = ordering::ranked_order(s);
    assert(r.contains(r[i]));
    assert(r.to_multiset().count(r[i]) > 0);
}

/// Ranking keeps the segments of the paths that it keeps.
pub proof fn ranking_invents_no_path(
    paths: Seq<PathView>,
    conn: Option<ConnView>,
    history: Option<HistoryView>,
    i: int,
)
    requires
        0 <= i < postprocess::ranked_paths(paths, conn, history).len(),
    ensures
        stems_from(postprocess::ranked_paths(paths, conn, history)[i], paths),
{
    let r = reranker::reranked(paths, conn);
    match history {
        Some(h) => {
            let bs = Seq::new(r.len(), |k: int| reranker::boosted(r[k], h));
            lemma_sorted_stems(bs, i);
            let x = postprocess::ranked_paths(paths, conn, history)[i];
            let k = choose|k: int| 0 <= k < bs.len() && bs[k] == x;
            lemma_reranked_stems(paths, conn, k);
            let j = choose|j: int|
                0 <= j < paths.len() && (#[trigger] paths[j]).segments == r[k].segments;
            assert(paths[j].segments == x.segments);
        },
        None => {
            lemma_reranked_stems(paths, conn, i);
        },
    }
}

proof fn lemma_reranked_stems(paths: Seq<PathView>, conn: Option<ConnView>, i: int)
    requires
        0 <= i < reranker::reranked(paths, conn).len(),
    ensures
        stems_from(reranker::reranked(paths, conn)[i], paths),
{
    let r = reranker::reranked(paths, conn);
    if paths.len() > 1 {
        let near = reranker::near_lowest(paths, conn);
        let adj = reranker::all_adjusted(near, conn);
        lemma_sorted_stems(adj, i);
        let k = choose|k: int| 0 <= k < adj.len() && adj[k] == r[i];
        let f = reranker::within(
            conn,
            crate::arith::plus(
                reranker::lowest_structure(paths, conn),
                reranker::STRUCTURE_COST_FILTER,
            ),
        );
        assert(near.contains(near[k]));
        paths.lemma_filter_contains_rev(f, near[k]);
        let j = choose|j: int| 0 <= j < paths.len() && paths[j] == near[k];
        assert(paths[j].segments == r[i].segments);
    } else {
        assert(paths[i].segments == r[i].segments);
    }
}

proof fn lemma_chain_reads(l: LatticeView, kana: Seq<char>, p: Seq<usize>)
    requires
        lattice::reads(l, kana),
        viterbi::is_chain(l, p),
    ensures
        postprocess::reading_of(viterbi::segments_of(l, p)) == kana.take(
            l.node(p.last() as int).end as int,
        ),
    decreases p.len(),
{
    let node = l.node(p.last() as int);
    let segs = viterbi::segments_of(l, p);
    let parts = Seq::new(segs.len(), |i: int| segs[i].reading);
    assert(lattice::covers_part(l.node(p.last() as int), kana));
    if p.len() == 1 {
        assert(parts.drop_last() =~= Seq::empty());
        reveal_with_fuel(text::concat, 2);
        assert(parts.last() == node.reading);
        assert(text::concat(parts) =~= kana.take(node.end as int));
    } else {
        let q = p.drop_last();
        lemma_chain_reads(l, kana, q);
        let before = viterbi::segments_of(l, q);
        assert(parts.drop_last() =~= Seq::new(before.len(), |i: int| before[i].reading));
        assert(parts.last() == node.reading);
        assert(text::concat(parts) =~= kana.take(node.end as int));
    }
}

proof fn lemma_chain_exists(l: LatticeView, kana: Seq<char>, upto: nat) -> (p: Seq<usize>)
    requires
        lattice::reads(l, kana),
        0 < upto <= kana.len(),
    ensures
        viterbi::is_chain(l, p),
        l.node(p.last() as int).end == upto,
    decreases upto,
{
    let pos = upto - 1;
    assert(lattice::has_step(l.nodes, pos));
    let i = choose|i: int|
        0 <= i < l.nodes.len() && (#[trigger] l.nodes[i]).start == pos && l.nodes[i].end == pos + 1;
    assert(l.node(i).end == upto);
    if upto == 1 {
        seq![i as usize]
    } else {
        let q = lemma_chain_exists(l, kana, (upto - 1) as nat);
        let p = q.push(i as usize);
        assert(p.drop_last() =~= q);
        p
    }
}

/// A path that reads as `kana` from start to end.
pub open spec fn reads_as(p: PathView, kana: Seq<char>) -> bool {
    postprocess::reading_of(p.segments) == kana
}

/// The search over the lattice of a string always finds a path, and every path
/// that it finds reads as the whole string.
pub proof fn search_reads_the_input(
    words: Map<Seq<char>, Seq<EntryView>>,
    c: CostModel,
    kana: Seq<char>,
    n: nat,
)
    requires
        0 < kana.len() <= usize::MAX,
        lattice::nodes_before(words, kana, kana.len()).len() <= usize::MAX,
        0 < n <= usize::MAX,
    ensures
        ({
            let r = viterbi::nbest(lattice::lattice_of(words, kana), c, n);
            &&& r.len() > 0
            &&& forall|i: int| 0 <= i < r.len() ==> reads_as(#[trigger] r[i], kana)
        }),
{
    let l = lattice::lattice_of(words, kana);
    lattice::lattice_reads_input(words, kana);
    let r = viterbi::nbest(l, c, n);
    let p = lemma_chain_exists(l, kana, kana.len());
    viterbi::nbest_first_is_cheapest(l, c, n, p);
    assert forall|i: int| 0 <= i < r.len() implies reads_as(#[trigger] r[i], kana) by {
        viterbi::nbest_paths_are_real(l, c, n, i);
        let q = choose|q: Seq<usize>|
            viterbi::is_path(l, q) && r[i].segments == #[trigger] viterbi::segments_of(l, q)
                && r[i].viterbi_cost == viterbi::full_cost(l, c, q);
        lemma_chain_reads(l, kana, q);
        assert(kana.take(kana.len() as int) =~= kana);
    }
}

/// The readings of plain segments, one after the other.
pub open spec fn text_reading(segs: Seq<SegmentText>) -> Seq<char> {
    text::concat(Seq::new(segs.len(), |i: int| segs[i].reading))
}

proof fn lemma_phrases_read(segs: Seq<RichView>, conn: Option<ConnView>)
    ensures
        text_reading(postprocess::phrase_texts(segs, conn)) == postprocess::reading_of(segs),
{
    match conn {
        Some(c) => {
            postprocess::grouping_keeps_text(segs, c);
            let g = postprocess::grouped(segs, c);
            let ts = viterbi::plain(g);
            assert(Seq::new(ts.len(), |i: int| ts[i].reading) =~= Seq::new(
                g.len(),
                |i: int| g[i].reading,
            ));
        },
        None => {
            let ts = viterbi::plain(segs);
            assert(Seq::new(ts.len(), |i: int| ts[i].reading) =~= Seq::new(
                segs.len(),
                |i: int| segs[i].reading,
            ));
        },
    }
}

/// Conversion loses and invents no kana: the segments of the best conversion
/// read, one after the other, as the input.
pub proof fn conversion_reads_the_input(
    words: Map<Seq<char>, Seq<EntryView>>,
    c: CostModel,
    conn: Option<ConnView>,
    history: Option<HistoryView>,
    kana: Seq<char>,
)
    requires
        kana.len() <= usize::MAX,
        lattice::nodes_before(words, kana, kana.len()).len() <= usize::MAX,
    ensures
        text_reading(converted(words, c, conn, history, kana)) == kana,
{
    if kana.len() == 0 {
        assert(text_reading(converted(words, c, conn, history, kana)) =~= kana);
    } else {
        let n = BEST_OVERSAMPLE as nat;
        let paths = viterbi::nbest(lattice::lattice_of(words, kana), c, n);
        search_reads_the_input(words, c, kana, n);
        let ranked = postprocess::ranked_paths(paths, conn, history);
        reranker::ranking_keeps_the_least_fragmented(paths, conn);
        match history {
            Some(h) => {
                reranker::history_ranking_keeps_every_path(reranker::reranked(paths, conn), h);
            },
            None => {},
        }
        ranking_invents_no_path(paths, conn, history, 0);
        let j = choose|j: int|
            0 <= j < paths.len() && (#[trigger] paths[j]).segments == ranked[0].segments;
        assert(reads_as(paths[j], kana));
        let best = viterbi::top(ranked, 1);
        assert(best =~= seq![ranked[0]]);
        rewriter::katakana_is_a_fallback(best, kana);
        let all = rewriter::with_katakana(best, kana);
        assert(all[0] == best[0]);
        assert(viterbi::top(all, 1)[0] == ranked[0]);
        lemma_phrases_read(ranked[0].segments, conn);
    }
}

} // verus!
