//! From ranked paths to phrases.

use vstd::prelude::*;

use super::reranker::{self, history_rerank, rerank};
use super::rewriter::{self, KatakanaRewriter, Rewriter};
use super::viterbi::{self, ConvertedSegment, PathView, RichSegment, RichView, ScoredPath, SegmentText};
use crate::dict::connection::{self, ConnView, ConnectionMatrix};
use crate::text::{self, push_text};
use crate::user_history::{self, HistoryView, UserHistory};

verus! {

/// The state of grouping: finished groups, the group at hand, and whether that
/// group is a prefix that waits for a content word.
pub struct Grouping {
    pub done: Seq<RichView>,
    pub current: Option<RichView>,
    pub pending: bool,
}

/// `seg` merged into the group `cur`.
pub open spec fn merged(cur: RichView, seg: RichView) -> RichView {
    RichView {
        reading: cur.reading + seg.reading,
        surface: cur.surface + seg.surface,
        left_id: cur.left_id,
        right_id: seg.right_id,
        word_cost: cur.word_cost,
    }
}

/// The finished groups with the group at hand behind them.
pub open spec fn flushed(g: Grouping) -> Seq<RichView> {
    match g.current {
        Some(cur) => g.done.push(cur),
        None => g.done,
    }
}

/// Grouping after one more segment.
///
/// A function word or suffix joins the group at hand, and stands alone where
/// there is none. A prefix starts a group that the next content word joins. Any
/// other content word starts a group.
pub open spec fn group_step(g: Grouping, seg: RichView, conn: ConnView) -> Grouping {
    if conn.function_word(seg.left_id) || conn.role(seg.left_id) == 2 {
        match g.current {
            Some(cur) => Grouping { current: Some(merged(cur, seg)), ..g },
            None => Grouping { done: g.done.push(seg), ..g },
        }
    } else if conn.role(seg.left_id) == 3 {
        Grouping { done: flushed(g), current: Some(seg), pending: true }
    } else if g.pending {
        match g.current {
            Some(cur) => Grouping {
                done: g.done,
                current: Some(merged(cur, seg)),
                pending: false,
            },
            None => Grouping { pending: false, ..g },
        }
    } else {
        Grouping { done: flushed(g), current: Some(seg), pending: false }
    }
}

/// Grouping after the first `i` segments.
pub open spec fn group_upto(segs: Seq<RichView>, conn: ConnView, i: nat) -> Grouping
    decreases i,
{
    if i == 0 {
        Grouping { done: Seq::empty(), current: None, pending: false }
    } else {
        group_step(group_upto(segs, conn, (i - 1) as nat), segs[i - 1], conn)
    }
}

/// Segments grouped into phrases.
pub open spec fn grouped(segs: Seq<RichView>, conn: ConnView) -> Seq<RichView> {
    if segs.len() <= 1 {
        segs
    } else {
        flushed(group_upto(segs, conn, segs.len()))
    }
}

fn merge_into(cur: RichSegment, seg: &RichSegment) -> (r: RichSegment)
    ensures
        r@ == merged(cur@, seg@),
{
    let mut out: RichSegment = cur;
    push_text(&mut out.reading, seg.reading.as_str());
    push_text(&mut out.surface, seg.surface.as_str());
    out.right_id = seg.right_id;
    out
}

pub open spec fn optional_view(s: Option<RichSegment>) -> Option<RichView> {
    match s {
        Some(x) => Some(x@),
        None => None,
    }
}

/// Groups morphemes into phrases: function words and suffixes join what comes
/// before them, prefixes what comes behind them.
pub fn group_segments(segments: &mut Vec<RichSegment>, conn: &ConnectionMatrix)
    ensures
        text::views(final(segments)@) == grouped(text::views(old(segments)@), conn@),
{
    if segments.len() <= 1 {
        return ;
    }
    let ghost segs = text::views(segments@);
    let mut done: Vec<RichSegment> = Vec::new();
    let mut current: Option<RichSegment> = None;
    let mut pending: bool = false;
    let mut i: usize = 0;
    proof {
        assert(text::views(done@) =~= Seq::empty());
    }
    while i < segments.len()
        invariant
            i <= segments@.len(),
            segs == text::views(segments@),
            group_upto(segs, conn@, i as nat) == (Grouping {
                done: text::views(done@),
                current: optional_view(current),
                pending,
            }),
        decreases segments.len() - i,
    {
        let seg: RichSegment = segments[i].clone();
        proof {
            assert(segs[i as int] == seg@);
        }
        let ghost before = done@;
        let role: u8 = conn.role(seg.left_id);
        if conn.is_function_word(seg.left_id) || role == 2 {
            match current {
                Some(cur) => {
                    current = Some(merge_into(cur, &seg));
                },
                None => {
                    done.push(seg);
                    proof {
                        assert(text::views(done@) =~= text::views(before).push(seg@));
                    }
                    current = None;
                },
            }
        } else if role == 3 {
            if let Some(cur) = current {
                done.push(cur);
                proof {
                    assert(text::views(done@) =~= text::views(before).push(cur@));
                }
            }
            current = Some(seg);
            pending = true;
        } else if pending {
            match current {
                Some(cur) => {
                    current = Some(merge_into(cur, &seg));
                },
                None => {
                    current = None;
                },
            }
            pending = false;
        } else {
            if let Some(cur) = current {
                done.push(cur);
                proof {
                    assert(text::views(done@) =~= text::views(before).push(cur@));
                }
            }
            current = Some(seg);
        }
        i = i + 1;
    }
    let ghost before = done@;
    if let Some(cur) = current {
        done.push(cur);
        proof {
            assert(text::views(done@) =~= text::views(before).push(cur@));
        }
    }
    *segments = done;
}

/// What ranking and the history make of the paths.
pub open spec fn ranked_paths(
    paths: Seq<PathView>,
    conn: Option<ConnView>,
    history: Option<HistoryView>,
) -> Seq<PathView> {
    let r = reranker::reranked(paths, conn);
    match history {
        Some(h) => reranker::history_ranked(r, h),
        None => r,
    }
}

/// The segments of a path, grouped when there is a matrix.
pub open spec fn phrase_texts(segs: Seq<RichView>, conn: Option<ConnView>) -> Seq<SegmentText> {
    match conn {
        Some(c) => viterbi::plain(grouped(segs, c)),
        None => viterbi::plain(segs),
    }
}

pub open spec fn all_phrase_texts(paths: Seq<PathView>, conn: Option<ConnView>) -> Seq<
    Seq<SegmentText>,
> {
    Seq::new(paths.len(), |i: int| phrase_texts(paths[i].segments, conn))
}

/// The results of post-processing: the `n` best paths, with the katakana form
/// where there is room for it, as phrases.
pub open spec fn postprocessed(
    paths: Seq<PathView>,
    conn: Option<ConnView>,
    history: Option<HistoryView>,
    kana: Seq<char>,
    n: nat,
) -> Seq<Seq<SegmentText>> {
    let best = viterbi::top(ranked_paths(paths, conn, history), n);
    all_phrase_texts(viterbi::top(rewriter::with_katakana(best, kana), n), conn)
}

/// The views of lists of segments.
pub open spec fn segment_lists(s: Seq<Vec<ConvertedSegment>>) -> Seq<Seq<SegmentText>> {
    Seq::new(s.len(), |i: int| text::views(s[i]@))
}

/// Ranks `paths` in place.
pub(crate) fn rank_paths(
    paths: &mut Vec<ScoredPath>,
    conn: Option<&ConnectionMatrix>,
    history: Option<&UserHistory>,
)
    ensures
        text::views(final(paths)@) == ranked_paths(
            text::views(old(paths)@),
            connection::conn_view(conn),
            user_history::history_view(history),
        ),
{
    rerank(paths, conn);
    if let Some(h) = history {
        history_rerank(paths, h);
    }
}

/// Keeps the first `n` paths.
pub(crate) fn keep_top(paths: &mut Vec<ScoredPath>, n: usize)
    ensures
        text::views(final(paths)@) == viterbi::top(text::views(old(paths)@), n as nat),
{
    let ghost before = paths@;
    if paths.len() > n {
        paths.truncate(n);
        proof {
            assert(text::views(paths@) =~= text::views(before).take(n as int));
        }
    }
}

/// Adds the katakana form of `kana` to `paths`.
pub(crate) fn add_katakana(paths: &mut Vec<ScoredPath>, kana: &str)
    ensures
        text::views(final(paths)@) == rewriter::with_katakana(text::views(old(paths)@), kana@),
{
    let rw = KatakanaRewriter;
    rw.rewrite(paths, kana);
}

/// Turns paths into phrases.
pub(crate) fn to_phrases(paths: Vec<ScoredPath>, conn: Option<&ConnectionMatrix>) -> (r: Vec<
    Vec<ConvertedSegment>,
>)
    ensures
        segment_lists(r@) == all_phrase_texts(
            text::views(paths@),
            connection::conn_view(conn),
        ),
{
    let ghost all = all_phrase_texts(text::views(paths@), connection::conn_view(conn));
    let mut out: Vec<Vec<ConvertedSegment>> = Vec::new();
    let mut i: usize = 0;
    while i < paths.len()
        invariant
            i <= paths@.len(),
            all == all_phrase_texts(text::views(paths@), connection::conn_view(conn)),
            segment_lists(out@) =~= all.take(i as int),
        decreases paths.len() - i,
    {
        let mut segs: Vec<RichSegment> = clone_segments(&paths[i].segments);
        if let Some(c) = conn {
            group_segments(&mut segs, c);
        }
        let path = ScoredPath { segments: segs, viterbi_cost: paths[i].viterbi_cost };
        let ghost before = out@;
        let texts: Vec<ConvertedSegment> = path.into_segments();
        proof {
            assert(text::views(paths@)[i as int] == paths@[i as int]@);
            assert(text::views(texts@) == all[i as int]);
        }
        out.push(texts);
        proof {
            assert(segment_lists(out@) =~= segment_lists(before).push(text::views(texts@)));
            assert(all.take(i + 1) =~= all.take(i as int).push(all[i as int]));
        }
        i = i + 1;
    }
    proof {
        assert(all.take(all.len() as int) =~= all);
    }
    out
}

pub(crate) fn clone_segments(v: &Vec<RichSegment>) -> (r: Vec<RichSegment>)
    ensures
        r@ == v@,
{
    let mut out: Vec<RichSegment> = Vec::new();
    let mut i: usize = 0;
    while i < v.len()
        invariant
            i <= v@.len(),
            out@ =~= v@.take(i as int),
        decreases v.len() - i,
    {
        out.push(v[i].clone());
        i = i + 1;
    }
    out
}

/// Ranks paths, applies the history, keeps the best `n` with the katakana form,
/// and groups them into phrases.
pub fn postprocess(
    paths: &mut Vec<ScoredPath>,
    conn: Option<&ConnectionMatrix>,
    history: Option<&UserHistory>,
    kana: &str,
    n: usize,
) -> (r: Vec<Vec<ConvertedSegment>>)
    ensures
        segment_lists(r@) == postprocessed(
            text::views(old(paths)@),
            connection::conn_view(conn),
            user_history::history_view(history),
            kana@,
            n as nat,
        ),
        text::views(final(paths)@) == rest_of(
            ranked_paths(
                text::views(old(paths)@),
                connection::conn_view(conn),
                user_history::history_view(history),
            ),
            n as nat,
        ),
{
    rank_paths(paths, conn, history);
    let ghost ranked = text::views(paths@);
    let m: usize = if n < paths.len() {
        n
    } else {
        paths.len()
    };
    let rest: Vec<ScoredPath> = paths.split_off(m);
    let mut best: Vec<ScoredPath> = Vec::new();
    best.append(paths);
    proof {
        assert(text::views(best@) =~= viterbi::top(ranked, n as nat));
        assert(text::views(rest@) =~= rest_of(ranked, n as nat));
    }
    *paths = rest;
    add_katakana(&mut best, kana);
    keep_top(&mut best, n);
    to_phrases(best, conn)
}

/// The items behind the first `n`.
pub open spec fn rest_of<T>(s: Seq<T>, n: nat) -> Seq<T> {
    if s.len() <= n {
        Seq::empty()
    } else {
        s.skip(n as int)
    }
}

/// The readings of segments, one after the other.
pub open spec fn reading_of(segs: Seq<RichView>) -> Seq<char> {
    text::concat(Seq::new(segs.len(), |i: int| segs[i].reading))
}

proof fn lemma_push_segment(segs: Seq<RichView>, x: RichView)
    ensures
        viterbi::surface_of(segs.push(x)) == viterbi::surface_of(segs) + x.surface,
        reading_of(segs.push(x)) == reading_of(segs) + x.reading,
{
    let all = segs.push(x);
    let a = Seq::new(all.len(), |i: int| all[i].surface);
    let b = Seq::new(all.len(), |i: int| all[i].reading);
    assert(a.drop_last() =~= Seq::new(segs.len(), |i: int| segs[i].surface));
    assert(b.drop_last() =~= Seq::new(segs.len(), |i: int| segs[i].reading));
}

proof fn lemma_group_upto(segs: Seq<RichView>, conn: ConnView, i: nat)
    requires
        i <= segs.len(),
    ensures
        viterbi::surface_of(flushed(group_upto(segs, conn, i))) == viterbi::surface_of(
            segs.take(i as int),
        ),
        reading_of(flushed(group_upto(segs, conn, i))) == reading_of(segs.take(i as int)),
        flushed(group_upto(segs, conn, i)).len() <= i,
        group_upto(segs, conn, i).pending ==> group_upto(segs, conn, i).current is Some,
    decreases i,
{
    if i == 0 {
        assert(segs.take(0) =~= Seq::empty());
    } else {
        let i1 = (i - 1) as nat;
        lemma_group_upto(segs, conn, i1);
        let g = group_upto(segs, conn, i1);
        let seg = segs[i - 1];
        assert(segs.take(i as int) =~= segs.take(i1 as int).push(seg));
        lemma_push_segment(segs.take(i1 as int), seg);
        match g.current {
            Some(cur) => {
                lemma_push_segment(g.done, cur);
                lemma_push_segment(g.done, merged(cur, seg));
                lemma_push_segment(g.done.push(cur), seg);
                assert(viterbi::surface_of(g.done) + cur.surface + seg.surface
                    =~= viterbi::surface_of(g.done) + (cur.surface + seg.surface));
                assert(reading_of(g.done) + cur.reading + seg.reading =~= reading_of(g.done) + (
                cur.reading + seg.reading));
            },
            None => {
                lemma_push_segment(g.done, seg);
            },
        }
    }
}

/// Grouping keeps the text: the phrases read and write the same as the
/// segments, and there are no more of them.
pub proof fn grouping_keeps_text(segs: Seq<RichView>, conn: ConnView)
    ensures
        viterbi::surface_of(grouped(segs, conn)) == viterbi::surface_of(segs),
        reading_of(grouped(segs, conn)) == reading_of(segs),
        grouped(segs, conn).len() <= segs.len(),
{
    if segs.len() > 1 {
        lemma_group_upto(segs, conn, segs.len());
        assert(segs.take(segs.len() as int) =~= segs);
    }
}

/// Post-processing gives at most `n` results.
pub proof fn postprocessing_honours_the_limit(
    paths: Seq<PathView>,
    conn: Option<ConnView>,
    history: Option<HistoryView>,
    kana: Seq<char>,
    n: nat,
)
    ensures
        postprocessed(paths, conn, history, kana, n).len() <= n,
{
}

} // verus!
