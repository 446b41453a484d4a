//! Decoding by draft and check: the best conversion is a draft, a language model
//! checks its segments, and what it doubts is searched again with the segments
//! in front of it fixed. The model's answers come from outside.

use vstd::prelude::*;

use crate::candidates::{self, joined_surface};
use crate::converter::constrained::{PrefixConstraint, PrefixView};
use crate::converter::convert::{self, convert_nbest_constrained, oversample};
use crate::converter::cost::{self, DefaultCostFunction};
use crate::converter::lattice::{self, build_lattice};
use crate::converter::postprocess;
use crate::converter::reranker::{self, rerank};
use crate::converter::viterbi::{
    self, viterbi_nbest, ConvertedSegment, PathView, ScoredPath, SegmentText,
};
use crate::dict::connection::{self, ConnView, ConnectionMatrix};
use crate::dict::{Dictionary, EntryView};
use crate::text::{self, same_text};

verus! {

/// The limits of decoding.
#[derive(Debug, Clone, Copy, PartialEq, Eq, Structural)]
pub struct SpeculativeLimits {
    /// How often a draft is checked, at most.
    pub max_iterations: usize,
    /// A draft with fewer segments is not checked; the conversions are ranked.
    pub min_segments: usize,
    /// How many conversions each search gives.
    pub nbest_per_pass: usize,
}

impl Default for SpeculativeLimits {
    fn default() -> (r: Self)
        ensures
            r == (SpeculativeLimits { max_iterations: 3, min_segments: 3, nbest_per_pass: 5 }),
    {
        SpeculativeLimits { max_iterations: 3, min_segments: 3, nbest_per_pass: 5 }
    }
}

/// How decoding went.
pub struct SpeculativeMetadata {
    /// How often a draft was checked.
    pub iterations: usize,
    /// How many segments each check confirmed.
    pub confirmed_counts: Vec<usize>,
    /// Whether the last draft was confirmed, or came again.
    pub converged: bool,
    /// Whether the conversions were ranked, for want of segments.
    pub fell_back: bool,
}

/// What decoding waits for.
pub enum Phase {
    /// The segments of the draft are to be checked.
    Check,
    /// These conversions are to be ranked.
    Rank { paths: Vec<Vec<ConvertedSegment>>, fallback: bool },
    /// Nothing more.
    Done,
}

pub enum PhaseView {
    Check,
    Rank { paths: Seq<Seq<SegmentText>>, fallback: bool },
    Done,
}

impl View for Phase {
    type V = PhaseView;

    open spec fn view(&self) -> PhaseView {
        match *self {
            Phase::Check => PhaseView::Check,
            Phase::Rank { paths, fallback } => PhaseView::Rank {
                paths: postprocess::segment_lists(paths@),
                fallback,
            },
            Phase::Done => PhaseView::Done,
        }
    }
}

/// The state of decoding.
pub struct Decoder {
    pub current: Vec<ConvertedSegment>,
    pub confirmed_counts: Vec<usize>,
    pub converged: bool,
    pub fell_back: bool,
    pub phase: Phase,
}

/// What a `Decoder` holds.
pub struct DecoderView {
    pub current: Seq<SegmentText>,
    pub counts: Seq<usize>,
    pub converged: bool,
    pub fell_back: bool,
    pub phase: PhaseView,
}

impl View for Decoder {
    type V = DecoderView;

    open spec fn view(&self) -> DecoderView {
        DecoderView {
            current: text::views(self.current@),
            counts: self.confirmed_counts@,
            converged: self.converged,
            fell_back: self.fell_back,
            phase: self.phase@,
        }
    }
}

/// The segments of paths.
pub open spec fn plain_paths(paths: Seq<PathView>) -> Seq<Seq<SegmentText>> {
    Seq::new(paths.len(), |i: int| viterbi::plain(paths[i].segments))
}

/// The conversions that a draft is taken from.
pub open spec fn drafts(
    words: Map<Seq<char>, Seq<EntryView>>,
    conn: Option<ConnView>,
    kana: Seq<char>,
    n: nat,
) -> Seq<PathView> {
    viterbi::top(
        reranker::reranked(
            viterbi::nbest(
                lattice::lattice_of(words, kana),
                cost::default_model(conn),
                convert::oversampled(n),
            ),
            conn,
        ),
        n,
    )
}

impl DecoderView {
    /// Decoding starts with the best of `paths`.
    pub open spec fn start(paths: Seq<Seq<SegmentText>>, limits: SpeculativeLimits) -> DecoderView {
        if paths.len() == 0 {
            DecoderView {
                current: Seq::empty(),
                counts: Seq::empty(),
                converged: true,
                fell_back: false,
                phase: PhaseView::Done,
            }
        } else {
            DecoderView {
                current: paths[0],
                counts: Seq::empty(),
                converged: false,
                fell_back: false,
                phase: if paths[0].len() < limits.min_segments {
                    PhaseView::Rank { paths, fallback: true }
                } else {
                    DecoderView::next_check(0, limits)
                },
            }
        }
    }

    /// Another check, unless there were enough.
    pub open spec fn next_check(done: nat, limits: SpeculativeLimits) -> PhaseView {
        if done < limits.max_iterations {
            PhaseView::Check
        } else {
            PhaseView::Done
        }
    }

    /// A draft that was confirmed throughout.
    pub open spec fn confirmed(self) -> DecoderView {
        DecoderView {
            counts: self.counts.push(self.current.len() as usize),
            converged: true,
            phase: PhaseView::Done,
            ..self
        }
    }

    /// A draft of which segment `low` was doubted, with the conversions of the
    /// next search.
    pub open spec fn doubted(self, low: usize, paths: Seq<Seq<SegmentText>>) -> DecoderView {
        DecoderView {
            counts: self.counts.push(low),
            converged: false,
            phase: if paths.len() == 0 {
                PhaseView::Done
            } else {
                PhaseView::Rank { paths, fallback: false }
            },
            ..self
        }
    }

    /// The conversion that ranked best becomes the draft.
    pub open spec fn ranked(self, best: int, limits: SpeculativeLimits) -> DecoderView {
        let next = self.phase->paths[best];
        if self.phase->fallback {
            DecoderView {
                current: next,
                converged: true,
                fell_back: true,
                phase: PhaseView::Done,
                ..self
            }
        } else if candidates::surface_of(next) == candidates::surface_of(self.current) {
            DecoderView { current: next, converged: true, phase: PhaseView::Done, ..self }
        } else {
            DecoderView {
                current: next,
                phase: DecoderView::next_check(self.counts.len(), limits),
                ..self
            }
        }
    }

    /// No more checks than allowed, and one is still allowed while waiting for it.
    pub open spec fn within(self, limits: SpeculativeLimits) -> bool {
        &&& self.counts.len() <= limits.max_iterations
        &&& self.phase is Check ==> self.counts.len() < limits.max_iterations
    }
}

/// Decoding ends: a step keeps the number of checks within the limit, and each
/// check counts.
pub proof fn decoding_is_bounded(
    d: DecoderView,
    limits: SpeculativeLimits,
    low: usize,
    paths: Seq<Seq<SegmentText>>,
    best: int,
)
    requires
        d.within(limits),
    ensures
        d.phase is Check ==> d.confirmed().within(limits) && d.doubted(low, paths).within(limits)
            && d.confirmed().counts.len() == d.counts.len() + 1 && d.doubted(
            low,
            paths,
        ).counts.len() == d.counts.len() + 1,
        d.phase is Rank ==> d.ranked(best, limits).within(limits) && d.ranked(
            best,
            limits,
        ).phase !is Rank,
        DecoderView::start(paths, limits).within(limits),
{
}

/// The segments of a path without their metadata.
pub fn scored_path_to_segments(path: &ScoredPath) -> (r: Vec<ConvertedSegment>)
    ensures
        text::views(r@) == viterbi::plain(path@.segments),
{
    let mut r: Vec<ConvertedSegment> = Vec::new();
    let ghost want = viterbi::plain(path@.segments);
    let mut i: usize = 0;
    while i < path.segments.len()
        invariant
            i <= path.segments@.len(),
            want == viterbi::plain(path@.segments),
            text::views(r@) =~= want.take(i as int),
        decreases path.segments@.len() - i,
    {
        let seg = &path.segments[i];
        let ghost before = text::views(r@);
        r.push(ConvertedSegment { reading: seg.reading.clone(), surface: seg.surface.clone() });
        proof {
            assert(text::views(r@) =~= before.push(want[i as int]));
            assert(want.take(i as int + 1) =~= want.take(i as int).push(want[i as int]));
        }
        i = i + 1;
    }
    proof {
        assert(want.take(want.len() as int) =~= want);
    }
    r
}

fn paths_to_segments(paths: &Vec<ScoredPath>) -> (r: Vec<Vec<ConvertedSegment>>)
    ensures
        postprocess::segment_lists(r@) == plain_paths(text::views(paths@)),
{
    let mut r: Vec<Vec<ConvertedSegment>> = Vec::new();
    let ghost want = plain_paths(text::views(paths@));
    let mut i: usize = 0;
    while i < paths.len()
        invariant
            i <= paths@.len(),
            r@.len() == i,
            want == plain_paths(text::views(paths@)),
            forall|j: int| 0 <= j < i ==> text::views((#[trigger] r@[j])@) == want[j],
        decreases paths@.len() - i,
    {
        proof {
            assert(text::views(paths@)[i as int] == paths@[i as int]@);
        }
        r.push(scored_path_to_segments(&paths[i]));
        i = i + 1;
    }
    proof {
        assert(postprocess::segment_lists(r@) =~= want);
    }
    r
}

fn clone_segments(v: &Vec<ConvertedSegment>, n: usize) -> (r: Vec<ConvertedSegment>)
    requires
        n <= v@.len(),
    ensures
        r@ == v@.take(n as int),
{
    let mut r: Vec<ConvertedSegment> = Vec::new();
    let mut i: usize = 0;
    while i < n
        invariant
            i <= n <= v@.len(),
            r@ == v@.take(i as int),
        decreases n - i,
    {
        r.push(v[i].clone());
        i = i + 1;
        proof {
            assert(r@ =~= v@.take(i as int));
        }
    }
    r
}

impl Decoder {
    /// Starts decoding with the best conversion of `kana`.
    pub fn start<D: Dictionary>(
        dict: &D,
        conn: Option<&ConnectionMatrix>,
        kana: &str,
        limits: SpeculativeLimits,
    ) -> (r: Self)
        requires
            dict.valid(),
        ensures
            r@ == DecoderView::start(
                plain_paths(
                    drafts(
                        dict.words(),
                        connection::conn_view(conn),
                        kana@,
                        limits.nbest_per_pass as nat,
                    ),
                ),
                limits,
            ),
    {
        let cost_fn = DefaultCostFunction::new(conn);
        let lattice = build_lattice(dict, kana);
        let mut found: Vec<ScoredPath> = viterbi_nbest(
            &lattice,
            &cost_fn,
            oversample(limits.nbest_per_pass),
        );
        rerank(&mut found, conn);
        let ghost all = text::views(found@);
        if found.len() > limits.nbest_per_pass {
            found.truncate(limits.nbest_per_pass);
            proof {
                assert(text::views(found@) =~= all.take(limits.nbest_per_pass as int));
            }
        }
        let paths = paths_to_segments(&found);
        if paths.len() == 0 {
            let r = Decoder {
                current: Vec::new(),
                confirmed_counts: Vec::new(),
                converged: true,
                fell_back: false,
                phase: Phase::Done,
            };
            proof {
                assert(r@.current =~= Seq::empty());
                assert(r@.counts =~= Seq::empty());
            }
            return r;
        }
        let current = clone_segments(&paths[0], paths[0].len());
        proof {
            assert(paths@[0]@.take(paths@[0]@.len() as int) =~= paths@[0]@);
            assert(postprocess::segment_lists(paths@)[0] == text::views(paths@[0]@));
        }
        let phase = if current.len() < limits.min_segments {
            Phase::Rank { paths, fallback: true }
        } else if limits.max_iterations > 0 {
            Phase::Check
        } else {
            Phase::Done
        };
        let r = Decoder {
            current,
            confirmed_counts: Vec::new(),
            converged: false,
            fell_back: false,
            phase,
        };
        proof {
            assert(r@.counts =~= Seq::empty());
        }
        r
    }

    /// The segments of the draft were checked; `low` is the first that was
    /// doubted.
    pub fn checked<D: Dictionary>(
        &mut self,
        dict: &D,
        conn: Option<&ConnectionMatrix>,
        kana: &str,
        limits: SpeculativeLimits,
        low: Option<usize>,
    )
        requires
            dict.valid(),
            old(self).phase is Check,
            low is Some ==> low->0 <= old(self).current@.len(),
        ensures
            final(self)@ == match low {
                None => old(self)@.confirmed(),
                Some(i) => old(self)@.doubted(
                    i,
                    plain_paths(
                        convert::nbest_constrained(
                            dict.words(),
                            connection::conn_view(conn),
                            kana@,
                            PrefixView::of(old(self)@.current.take(i as int)),
                            limits.nbest_per_pass as nat,
                        ),
                    ),
                ),
            },
    {
        match low {
            None => {
                self.confirmed_counts.push(self.current.len());
                self.converged = true;
                self.phase = Phase::Done;
            },
            Some(i) => {
                let prefix = clone_segments(&self.current, i);
                proof {
                    assert(text::views(prefix@) =~= text::views(self.current@).take(i as int));
                }
                let constraint = PrefixConstraint::from_confirmed(prefix.as_slice());
                let found = convert_nbest_constrained(
                    dict,
                    conn,
                    kana,
                    &constraint,
                    limits.nbest_per_pass,
                );
                self.confirmed_counts.push(i);
                self.converged = false;
                let paths = paths_to_segments(&found);
                self.phase = if paths.len() == 0 {
                    Phase::Done
                } else {
                    Phase::Rank { paths, fallback: false }
                };
            },
        }
    }

    /// The conversions were ranked; `best` is the place of the best.
    pub fn ranked(&mut self, limits: SpeculativeLimits, best: usize)
        requires
            old(self).phase is Rank,
            best < old(self).phase->paths@.len(),
        ensures
            final(self)@ == old(self)@.ranked(best as int, limits),
    {
        let mut phase = Phase::Done;
        std::mem::swap(&mut phase, &mut self.phase);
        if let Phase::Rank { paths, fallback } = phase {
            let next = clone_segments(&paths[best], paths[best].len());
            proof {
                assert(paths@[best as int]@.take(paths@[best as int]@.len() as int)
                    =~= paths@[best as int]@);
            }
            if fallback {
                self.converged = true;
                self.fell_back = true;
            } else {
                let before = joined_surface(&self.current);
                let after = joined_surface(&next);
                if same_text(after.as_str(), before.as_str()) {
                    self.converged = true;
                } else if self.confirmed_counts.len() < limits.max_iterations {
                    self.phase = Phase::Check;
                }
            }
            self.current = next;
        }
    }

    /// How decoding went.
    pub fn metadata(&self) -> (r: SpeculativeMetadata)
        ensures
            r.iterations == self@.counts.len(),
            r.confirmed_counts@ == self@.counts,
            r.converged == self.converged,
            r.fell_back == self.fell_back,
    {
        let mut confirmed_counts: Vec<usize> = Vec::new();
        confirmed_counts.extend_from_slice(self.confirmed_counts.as_slice());
        proof {
            assert(confirmed_counts@ =~= self.confirmed_counts@);
        }
        SpeculativeMetadata {
            iterations: self.confirmed_counts.len(),
            confirmed_counts,
            converged: self.converged,
            fell_back: self.fell_back,
        }
    }
}

} // verus!
