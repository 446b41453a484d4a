//! Candidates that are made rather than found.

use vstd::prelude::*;

use super::viterbi::{self, PathView, RichSegment, RichView, ScoredPath};
use crate::arith::{self, sat_add};
use crate::text::{self, same_text};
use crate::unicode::{self, hiragana_to_katakana};

verus! {

/// How much more than the worst path a made candidate costs.
pub const REWRITE_COST: i64 = 10000;

/// A rewriter adds or changes candidates in the N-best list.
pub trait Rewriter {
    spec fn rewritten(&self, paths: Seq<PathView>, reading: Seq<char>) -> Seq<PathView>;

    fn rewrite(&self, paths: &mut Vec<ScoredPath>, reading: &str)
        ensures
            text::views(final(paths)@) == self.rewritten(text::views(old(paths)@), reading@),
    ;
}

/// The paths after the first `i` rewriters.
pub open spec fn rewritten_by(
    rewriters: Seq<&dyn Rewriter>,
    paths: Seq<PathView>,
    reading: Seq<char>,
    i: nat,
) -> Seq<PathView>
    decreases i,
{
    if i == 0 {
        paths
    } else {
        rewriters[i - 1].rewritten(
            rewritten_by(rewriters, paths, reading, (i - 1) as nat),
            reading,
        )
    }
}

/// Runs all rewriters in sequence.
pub fn run_rewriters(rewriters: &[&dyn Rewriter], paths: &mut Vec<ScoredPath>, reading: &str)
    ensures
        text::views(final(paths)@) == rewritten_by(
            rewriters@,
            text::views(old(paths)@),
            reading@,
            rewriters@.len(),
        ),
{
    let ghost before = text::views(paths@);
    let mut i: usize = 0;
    while i < rewriters.len()
        invariant
            i <= rewriters@.len(),
            text::views(paths@) == rewritten_by(rewriters@, before, reading@, i as nat),
        decreases rewriters.len() - i,
    {
        rewriters[i].rewrite(paths, reading);
        i = i + 1;
    }
}

/// The highest cost among `paths`, 0 when there is none.
pub open spec fn worst_cost(paths: Seq<PathView>) -> i64
    decreases paths.len(),
{
    if paths.len() == 0 {
        0
    } else if paths.len() == 1 {
        paths.last().viterbi_cost
    } else {
        let before = worst_cost(paths.drop_last());
        if before >= paths.last().viterbi_cost {
            before
        } else {
            paths.last().viterbi_cost
        }
    }
}

/// The list with the katakana form of `reading` behind it, unless a path has
/// that surface already.
pub open spec fn with_katakana(paths: Seq<PathView>, reading: Seq<char>) -> Seq<PathView> {
    let katakana = unicode::all_to_katakana(reading);
    if viterbi::has_surface(paths, katakana) {
        paths
    } else {
        paths.push(
            PathView {
                segments: seq![
                    RichView {
                        reading,
                        surface: katakana,
                        left_id: 0,
                        right_id: 0,
                        word_cost: 0,
                    },
                ],
                viterbi_cost: arith::plus(worst_cost(paths), REWRITE_COST),
            },
        )
    }
}

/// Adds a katakana candidate to the N-best list, as a fallback that costs more
/// than every path before it.
pub struct KatakanaRewriter;

fn has_surface_key(paths: &Vec<ScoredPath>, surface: &str) -> (r: bool)
    ensures
        r == viterbi::has_surface(text::views(paths@), surface@),
{
    let mut i: usize = 0;
    while i < paths.len()
        invariant
            i <= paths@.len(),
            forall|j: int|
                0 <= j < i ==> viterbi::surface_of((#[trigger] paths@[j])@.segments) != surface@,
        decreases paths.len() - i,
    {
        let key: String = paths[i].surface_key();
        if same_text(key.as_str(), surface) {
            proof {
                assert(text::views(paths@)[i as int] == paths@[i as int]@);
            }
            return true;
        }
        i = i + 1;
    }
    proof {
        assert forall|j: int| 0 <= j < text::views(paths@).len() implies viterbi::surface_of(
            (#[trigger] text::views(paths@)[j]).segments,
        ) != surface@ by {
            assert(text::views(paths@)[j] == paths@[j]@);
        }
    }
    false
}

fn worst_cost_of(paths: &Vec<ScoredPath>) -> (r: i64)
    ensures
        r == worst_cost(text::views(paths@)),
{
    let ghost vs = text::views(paths@);
    if paths.len() == 0 {
        return 0;
    }
    let mut worst: i64 = paths[0].viterbi_cost;
    let mut i: usize = 1;
    while i < paths.len()
        invariant
            1 <= i <= paths@.len(),
            vs == text::views(paths@),
            worst == worst_cost(vs.take(i as int)),
        decreases paths.len() - i,
    {
        proof {
            assert(vs.take(i + 1).drop_last() =~= vs.take(i as int));
            assert(vs.take(i + 1).last() == paths@[i as int]@);
        }
        if paths[i].viterbi_cost > worst {
            worst = paths[i].viterbi_cost;
        }
        i = i + 1;
    }
    proof {
        assert(vs.take(vs.len() as int) =~= vs);
    }
    worst
}

impl Rewriter for KatakanaRewriter {
    open spec fn rewritten(&self, paths: Seq<PathView>, reading: Seq<char>) -> Seq<PathView> {
        with_katakana(paths, reading)
    }

    fn rewrite(&self, paths: &mut Vec<ScoredPath>, reading: &str) {
        let katakana: String = hiragana_to_katakana(reading);
        if has_surface_key(paths, katakana.as_str()) {
            return ;
        }
        let ghost before = text::views(paths@);
        let worst: i64 = worst_cost_of(paths);
        let mut segments: Vec<RichSegment> = Vec::new();
        segments.push(
            RichSegment {
                reading: reading.to_owned(),
                surface: katakana,
                left_id: 0,
                right_id: 0,
                word_cost: 0,
            },
        );
        let path = ScoredPath { segments, viterbi_cost: sat_add(worst, REWRITE_COST) };
        proof {
            assert(path@.segments =~= seq![segments@[0]@]);
        }
        paths.push(path);
        proof {
            assert(text::views(paths@) =~= before.push(path@));
        }
    }
}

proof fn lemma_worst_cost(paths: Seq<PathView>, i: int)
    requires
        0 <= i < paths.len(),
    ensures
        paths[i].viterbi_cost <= worst_cost(paths),
    decreases paths.len(),
{
    if i < paths.len() - 1 {
        lemma_worst_cost(paths.drop_last(), i);
        assert(paths.drop_last()[i] == paths[i]);
    }
}

/// The katakana candidate is always there afterwards, every path before it
/// stays in its place, and a candidate that was added costs no less than any of
/// them.
pub proof fn katakana_is_a_fallback(paths: Seq<PathView>, reading: Seq<char>)
    ensures
        viterbi::has_surface(with_katakana(paths, reading), unicode::all_to_katakana(reading)),
        paths.is_prefix_of(with_katakana(paths, reading)),
        with_katakana(paths, reading).len() > paths.len() ==> forall|i: int|
            0 <= i < paths.len() ==> (#[trigger] paths[i]).viterbi_cost <= with_katakana(
                paths,
                reading,
            ).last().viterbi_cost,
{
    let katakana = unicode::all_to_katakana(reading);
    let all = with_katakana(paths, reading);
    if !viterbi::has_surface(paths, katakana) {
        let p = all.last();
        let parts = Seq::new(p.segments.len(), |i: int| p.segments[i].surface);
        assert(parts =~= seq![katakana]);
        reveal_with_fuel(text::concat, 2);
        assert(parts.drop_last() =~= Seq::empty());
        assert(text::concat(parts) =~= katakana);
        assert(viterbi::surface_of(all[paths.len() as int].segments) == katakana);
        assert forall|i: int| 0 <= i < paths.len() implies (#[trigger] paths[i]).viterbi_cost
            <= all.last().viterbi_cost by {
            lemma_worst_cost(paths, i);
        }
    }
}

} // verus!
