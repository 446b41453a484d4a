//! How prompts are laid out, and how decoding goes on.

use vstd::prelude::*;

use super::prompt;
use super::speculative::{DecoderView, PhaseView, SpeculativeLimits};
use crate::candidates;
use crate::converter::viterbi::SegmentText;
use crate::unicode;

verus! {

/// A character of a prompt: the ideographic space stands for a space.
pub open spec fn stands_for(c: char, original: char) -> bool {
    if original == ' ' {
        c == '\u{3000}'
    } else {
        c == original
    }
}

/// A prompt starts with the mark of the context and the context, then come the mark of
/// the reading and the reading in katakana, and then the mark of the conversion.
pub proof fn prompts_are_laid_out(context: Seq<char>, kana: Seq<char>)
    ensures
        ({
            let p = prompt::prompt_head(context, kana);
            let n = context.len() as int;
            let m = kana.len() as int;
            &&& p.len() == n + m + 3
            &&& p[0] == '\u{EE02}'
            &&& forall|i: int| 0 <= i < n ==> stands_for(#[trigger] p[1 + i], context[i])
            &&& p[1 + n] == '\u{EE00}'
            &&& forall|i: int|
                0 <= i < m ==> stands_for(
                    #[trigger] p[2 + n + i],
                    unicode::to_katakana(kana[i]),
                )
            &&& p[2 + n + m] == '\u{EE01}'
        }),
{
}

/// Behind it comes the conversion, with the end mark.
pub proof fn conversions_end_with_a_mark(output: Seq<char>)
    ensures
        ({
            let t = prompt::prompt_tail(output);
            let n = output.len() as int;
            &&& t.len() == n + 4
            &&& forall|i: int| 0 <= i < n ==> stands_for(#[trigger] t[i], output[i])
            &&& t[n] == '<' && t[n + 1] == '/' && t[n + 2] == 's' && t[n + 3] == '>'
        }),
{
    reveal_strlit("</s>");
}

/// Decoding starts with the best conversion. One with too few segments is left to the
/// ranking of all conversions at once; without conversions there is nothing to do.
pub proof fn decoding_starts_with_the_best(
    paths: Seq<Seq<SegmentText>>,
    limits: SpeculativeLimits,
)
    ensures
        ({
            let d = DecoderView::start(paths, limits);
            &&& paths.len() == 0 ==> d.current.len() == 0 && d.converged && d.phase is Done
            &&& paths.len() > 0 ==> d.current == paths[0] && !d.converged
            &&& paths.len() > 0 && paths[0].len() < limits.min_segments ==> d.phase
                == (PhaseView::Rank { paths, fallback: true })
            &&& paths.len() > 0 && paths[0].len() >= limits.min_segments && limits.max_iterations
                > 0 ==> d.phase is Check
            &&& d.counts.len() == 0
            &&& !d.fell_back
        }),
{
}

/// A draft that is confirmed throughout is the result. One of which a segment is
/// doubted goes to the ranking of the conversions that keep the segments before it.
pub proof fn checks_confirm_or_go_on(
    d: DecoderView,
    low: usize,
    paths: Seq<Seq<SegmentText>>,
)
    ensures
        ({
            let a = d.confirmed();
            let b = d.doubted(low, paths);
            &&& a.current == d.current && a.converged && a.phase is Done
            &&& a.counts.len() == d.counts.len() + 1
            &&& a.counts.last() == d.current.len() as usize
            &&& b.current == d.current && !b.converged
            &&& b.counts.len() == d.counts.len() + 1
            &&& b.counts.last() == low
            &&& paths.len() == 0 ==> b.phase is Done
            &&& paths.len() > 0 ==> b.phase == (PhaseView::Rank { paths, fallback: false })
            &&& a.counts.drop_last() == d.counts
            &&& b.counts.drop_last() == d.counts
        }),
{
    assert(d.confirmed().counts.drop_last() =~= d.counts);
    assert(d.doubted(low, paths).counts.drop_last() =~= d.counts);
}

/// The conversion that ranks best becomes the draft. Decoding ends with it where it
/// reads like the draft before, where all were ranked at once, and where no check is
/// left; else it is checked.
pub proof fn the_best_becomes_the_draft(d: DecoderView, best: int, limits: SpeculativeLimits)
    requires
        d.phase is Rank,
        0 <= best < d.phase->paths.len(),
    ensures
        ({
            let r = d.ranked(best, limits);
            let same = candidates::surface_of(d.phase->paths[best]) == candidates::surface_of(
                d.current,
            );
            &&& r.current == d.phase->paths[best]
            &&& r.counts == d.counts
            &&& d.phase->fallback ==> r.fell_back && r.converged && r.phase is Done
            &&& !d.phase->fallback && same ==> r.converged && r.phase is Done && r.fell_back
                == d.fell_back
            &&& !d.phase->fallback && !same && d.counts.len() < limits.max_iterations
                ==> r.phase is Check && r.converged == d.converged
            &&& !d.phase->fallback && !same && d.counts.len() >= limits.max_iterations
                ==> r.phase is Done && r.converged == d.converged
        }),
{
}

} // verus!
