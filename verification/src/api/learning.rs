//! How a history learns: what is written ahead, what is applied, and when the
//! history is compacted. The files are outside; what comes back from them is
//! handed in.

use vstd::prelude::*;

use crate::text;
use crate::user_history::{self, has_pair, HistoryView, UserHistory};

verus! {

/// What a session has learned.
#[allow(inconsistent_fields)]
pub enum LearningRecord {
    /// A commit: the pair, its segments, the place of the choice among the
    /// candidates, the first candidate if it was another, and whether it was
    /// committed by itself.
    Committed {
        reading: String,
        surface: String,
        segments: Option<Vec<(String, String)>>,
        rank: usize,
        top1: Option<String>,
        auto_committed: bool,
        learn: bool,
    },
    /// Pairs that are to be forgotten.
    Deletion { segments: Vec<(String, String)> },
}

#[allow(inconsistent_fields)]
pub enum LearningView {
    Committed {
        reading: Seq<char>,
        surface: Seq<char>,
        segments: Option<Seq<(Seq<char>, Seq<char>)>>,
        rank: usize,
        top1: Option<Seq<char>>,
        auto_committed: bool,
        learn: bool,
    },
    Deletion { segments: Seq<(Seq<char>, Seq<char>)> },
}

pub open spec fn pairs_of(s: Option<Vec<(String, String)>>) -> Option<Seq<(Seq<char>, Seq<char>)>> {
    match s {
        Some(v) => Some(user_history::pair_views(v@)),
        None => None,
    }
}

pub open spec fn text_of(s: Option<String>) -> Option<Seq<char>> {
    match s {
        Some(t) => Some(t@),
        None => None,
    }
}

impl View for LearningRecord {
    type V = LearningView;

    open spec fn view(&self) -> LearningView {
        match *self {
            LearningRecord::Committed {
                reading,
                surface,
                segments,
                rank,
                top1,
                auto_committed,
                learn,
            } => LearningView::Committed {
                reading: reading@,
                surface: surface@,
                segments: pairs_of(segments),
                rank,
                top1: text_of(top1),
                auto_committed,
                learn,
            },
            LearningRecord::Deletion { segments } => LearningView::Deletion {
                segments: user_history::pair_views(segments@),
            },
        }
    }
}

/// A frame of the write-ahead log.
pub enum WalRecord {
    Committed { segments: Vec<(String, String)>, timestamp: u64 },
    Tombstone { segments: Vec<(String, String)>, timestamp: u64 },
}

pub struct WalView {
    pub tombstone: bool,
    pub segments: Seq<(Seq<char>, Seq<char>)>,
    pub timestamp: u64,
}

impl View for WalRecord {
    type V = WalView;

    open spec fn view(&self) -> WalView {
        match *self {
            WalRecord::Committed { segments, timestamp } => WalView {
                tombstone: false,
                segments: user_history::pair_views(segments@),
                timestamp,
            },
            WalRecord::Tombstone { segments, timestamp } => WalView {
                tombstone: true,
                segments: user_history::pair_views(segments@),
                timestamp,
            },
        }
    }
}

/// A line of the commit log.
pub struct CommitEvent {
    pub time: u64,
    pub reading: String,
    pub surface: String,
    pub rank: usize,
    pub top1: Option<String>,
    pub auto_committed: bool,
}

pub struct EventView {
    pub time: u64,
    pub reading: Seq<char>,
    pub surface: Seq<char>,
    pub rank: usize,
    pub top1: Option<Seq<char>>,
    pub auto_committed: bool,
}

impl View for CommitEvent {
    type V = EventView;

    open spec fn view(&self) -> EventView {
        EventView {
            time: self.time,
            reading: self.reading@,
            surface: self.surface@,
            rank: self.rank,
            top1: text_of(self.top1),
            auto_committed: self.auto_committed,
        }
    }
}

/// The frames of one record: a commit that is learned gives the pair, and its
/// segments; a deletion gives a tombstone.
pub open spec fn frames_of(r: LearningView, now: u64) -> Seq<WalView> {
    match r {
        LearningView::Committed { reading, surface, segments, learn, .. } => if !learn {
            Seq::empty()
        } else {
            let whole = seq![
                WalView { tombstone: false, segments: seq![(reading, surface)], timestamp: now },
            ];
            match segments {
                Some(s) => whole.push(WalView { tombstone: false, segments: s, timestamp: now }),
                None => whole,
            }
        },
        LearningView::Deletion { segments } => seq![
            WalView { tombstone: true, segments, timestamp: now },
        ],
    }
}

/// The log lines of one record.
pub open spec fn lines_of(r: LearningView, now: u64) -> Seq<EventView> {
    match r {
        LearningView::Committed { reading, surface, rank, top1, auto_committed, .. } => seq![
            EventView { time: now, reading, surface, rank, top1, auto_committed },
        ],
        LearningView::Deletion { segments } => Seq::empty(),
    }
}

pub open spec fn all_frames(rs: Seq<LearningView>, now: u64) -> Seq<WalView>
    decreases rs.len(),
{
    if rs.len() == 0 {
        Seq::empty()
    } else {
        all_frames(rs.drop_last(), now) + frames_of(rs.last(), now)
    }
}

pub open spec fn all_lines(rs: Seq<LearningView>, now: u64) -> Seq<EventView>
    decreases rs.len(),
{
    if rs.len() == 0 {
        Seq::empty()
    } else {
        all_lines(rs.drop_last(), now) + lines_of(rs.last(), now)
    }
}

fn clone_pairs(v: &Vec<(String, String)>) -> (r: Vec<(String, String)>)
    ensures
        user_history::pair_views(r@) == user_history::pair_views(v@),
{
    let mut r: Vec<(String, String)> = Vec::new();
    let mut i: usize = 0;
    while i < v.len()
        invariant
            i <= v@.len(),
            r@.len() == i,
            forall|j: int| 0 <= j < i ==> (#[trigger] r@[j]).0@ == v@[j].0@ && r@[j].1@ == v@[j].1@,
        decreases v@.len() - i,
    {
        r.push((v[i].0.clone(), v[i].1.clone()));
        i = i + 1;
    }
    proof {
        assert(user_history::pair_views(r@) =~= user_history::pair_views(v@));
    }
    r
}

fn clone_text(s: &Option<String>) -> (r: Option<String>)
    ensures
        text_of(r) == text_of(*s),
{
    match s {
        Some(t) => Some(t.clone()),
        None => None,
    }
}

/// What a batch of records writes: frames of the write-ahead log, and lines of
/// the commit log.
pub struct Plan {
    pub frames: Vec<WalRecord>,
    pub lines: Vec<CommitEvent>,
}

/// Plans what a batch of records writes.
pub fn plan_records(records: &[LearningRecord], now: u64) -> (r: Plan)
    ensures
        text::views(r.frames@) == all_frames(text::views(records@), now),
        text::views(r.lines@) == all_lines(text::views(records@), now),
{
    let ghost rs = text::views(records@);
    let mut frames: Vec<WalRecord> = Vec::new();
    let mut lines: Vec<CommitEvent> = Vec::new();
    proof {
        assert(text::views(frames@) =~= all_frames(rs.take(0), now));
        assert(text::views(lines@) =~= all_lines(rs.take(0), now));
    }
    let mut i: usize = 0;
    while i < records.len()
        invariant
            i <= records@.len(),
            rs == text::views(records@),
            text::views(frames@) == all_frames(rs.take(i as int), now),
            text::views(lines@) == all_lines(rs.take(i as int), now),
        decreases records@.len() - i,
    {
        let ghost f0 = text::views(frames@);
        let ghost l0 = text::views(lines@);
        proof {
            assert(rs.take(i as int + 1).drop_last() =~= rs.take(i as int));
            assert(rs.take(i as int + 1).last() == records@[i as int]@);
        }
        match &records[i] {
            LearningRecord::Committed {
                reading,
                surface,
                segments,
                rank,
                top1,
                auto_committed,
                learn,
            } => {
                if *learn {
                    let mut pair: Vec<(String, String)> = Vec::new();
                    pair.push((reading.clone(), surface.clone()));
                    proof {
                        assert(user_history::pair_views(pair@) =~= seq![(reading@, surface@)]);
                    }
                    frames.push(WalRecord::Committed { segments: pair, timestamp: now });
                    let ghost f1 = text::views(frames@);
                    proof {
                        assert(f1 =~= f0.push(
                            WalView {
                                tombstone: false,
                                segments: seq![(reading@, surface@)],
                                timestamp: now,
                            },
                        ));
                    }
                    if let Some(s) = segments {
                        frames.push(
                            WalRecord::Committed { segments: clone_pairs(s), timestamp: now },
                        );
                        proof {
                            assert(text::views(frames@) =~= f1.push(
                                WalView {
                                    tombstone: false,
                                    segments: user_history::pair_views(s@),
                                    timestamp: now,
                                },
                            ));
                        }
                    }
                }
                proof {
                    assert(text::views(frames@) =~= f0 + frames_of(records@[i as int]@, now));
                }
                lines.push(
                    CommitEvent {
                        time: now,
                        reading: reading.clone(),
                        surface: surface.clone(),
                        rank: *rank,
                        top1: clone_text(top1),
                        auto_committed: *auto_committed,
                    },
                );
                proof {
                    assert(text::views(lines@) =~= l0 + lines_of(records@[i as int]@, now));
                }
            },
            LearningRecord::Deletion { segments } => {
                frames.push(
                    WalRecord::Tombstone { segments: clone_pairs(segments), timestamp: now },
                );
                proof {
                    assert(text::views(frames@) =~= f0 + frames_of(records@[i as int]@, now));
                    assert(text::views(lines@) =~= l0 + lines_of(records@[i as int]@, now));
                }
            },
        }
        i = i + 1;
    }
    proof {
        assert(rs.take(rs.len() as int) =~= rs);
    }
    Plan { frames, lines }
}

/// What became of a frame.
#[derive(Debug, Clone, Copy, PartialEq, Eq, Structural)]
pub enum AppendOutcome {
    /// It is in the log.
    Written { seq: u64 },
    /// It is in the log, but may not survive a loss of power.
    SyncFailed { seq: u64 },
    /// It is not in the log.
    Failed,
}

/// When a history is compacted behind a batch.
#[derive(Debug, Clone, Copy, PartialEq, Eq, Structural)]
pub enum Compaction {
    /// Before the batch returns.
    Synchronous,
    /// As soon as no other compaction runs.
    Requested,
    /// If no other compaction runs.
    Threshold,
    Nothing,
}

/// The frames of a batch that are applied, each with its number in the log, and
/// what went wrong.
pub struct Batch {
    pub sequenced: Vec<(WalRecord, Option<u64>)>,
    pub scrub: bool,
    pub durability_failed: bool,
}

pub struct BatchView {
    pub sequenced: Seq<(WalView, Option<u64>)>,
    pub scrub: bool,
    pub durability_failed: bool,
}

pub open spec fn sequenced_views(s: Seq<(WalRecord, Option<u64>)>) -> Seq<(WalView, Option<u64>)> {
    Seq::new(s.len(), |i: int| (s[i].0@, s[i].1))
}

impl View for Batch {
    type V = BatchView;

    open spec fn view(&self) -> BatchView {
        BatchView {
            sequenced: sequenced_views(self.sequenced@),
            scrub: self.scrub,
            durability_failed: self.durability_failed,
        }
    }
}

/// Whether two lists have a pair in common.
pub open spec fn share_pair(
    a: Seq<(Seq<char>, Seq<char>)>,
    b: Seq<(Seq<char>, Seq<char>)>,
) -> bool {
    exists|i: int| 0 <= i < a.len() && b.contains(#[trigger] a[i])
}

impl BatchView {
    pub open spec fn empty() -> BatchView {
        BatchView { sequenced: Seq::empty(), scrub: false, durability_failed: false }
    }

    /// Whether a commit earlier in the batch learned one of the pairs.
    pub open spec fn learns(self, segments: Seq<(Seq<char>, Seq<char>)>) -> bool {
        exists|i: int|
            0 <= i < self.sequenced.len() && !(#[trigger] self.sequenced[i]).0.tombstone
                && share_pair(self.sequenced[i].0.segments, segments)
    }

    /// Whether a frame is written: a tombstone only if there is something to
    /// forget, on disk or earlier in the batch.
    pub open spec fn wants(self, record: WalView, durable_target: bool) -> bool {
        !record.tombstone || durable_target || self.learns(record.segments)
    }

    /// The batch after a frame.
    pub open spec fn appended(self, record: WalView, outcome: AppendOutcome) -> BatchView {
        BatchView {
            sequenced: self.sequenced.push(
                (
                    record,
                    match outcome {
                        AppendOutcome::Written { seq } => Some(seq),
                        AppendOutcome::SyncFailed { seq } => Some(seq),
                        AppendOutcome::Failed => None,
                    },
                ),
            ),
            scrub: self.scrub || record.tombstone || outcome is Failed,
            durability_failed: self.durability_failed || (record.tombstone && outcome
                !is Written),
        }
    }

    /// Whether a commit is held by memory alone.
    pub open spec fn memory_only(self) -> bool {
        exists|i: int|
            0 <= i < self.sequenced.len() && !(#[trigger] self.sequenced[i]).0.tombstone
                && self.sequenced[i].1 is None
    }

    /// When the history is compacted.
    pub open spec fn compaction(self, needs_threshold: bool) -> Compaction {
        if self.durability_failed {
            Compaction::Synchronous
        } else if self.scrub {
            Compaction::Requested
        } else if needs_threshold {
            Compaction::Threshold
        } else {
            Compaction::Nothing
        }
    }
}

fn pairs_meet(a: &Vec<(String, String)>, b: &Vec<(String, String)>) -> (r: bool)
    ensures
        r == share_pair(user_history::pair_views(a@), user_history::pair_views(b@)),
{
    let ghost av = user_history::pair_views(a@);
    let ghost bv = user_history::pair_views(b@);
    let mut i: usize = 0;
    while i < a.len()
        invariant
            i <= a@.len(),
            av == user_history::pair_views(a@),
            bv == user_history::pair_views(b@),
            forall|j: int| 0 <= j < i ==> !bv.contains(#[trigger] av[j]),
        decreases a@.len() - i,
    {
        proof {
            assert(av[i as int] == (a@[i as int].0@, a@[i as int].1@));
        }
        if has_pair(b.as_slice(), a[i].0.as_str(), a[i].1.as_str()) {
            return true;
        }
        i = i + 1;
    }
    false
}

impl Batch {
    pub fn new() -> (r: Self)
        ensures
            r@ == BatchView::empty(),
    {
        let r = Batch { sequenced: Vec::new(), scrub: false, durability_failed: false };
        proof {
            assert(r@.sequenced =~= Seq::empty());
        }
        r
    }

    /// Whether a frame is written. `durable_target` says whether the history or
    /// its checkpoint holds one of the pairs of a tombstone.
    pub fn wants(&self, record: &WalRecord, durable_target: bool) -> (r: bool)
        ensures
            r == self@.wants(record@, durable_target),
    {
        match record {
            WalRecord::Committed { .. } => true,
            WalRecord::Tombstone { segments, .. } => {
                if durable_target {
                    return true;
                }
                let ghost target = user_history::pair_views(segments@);
                let mut i: usize = 0;
                while i < self.sequenced.len()
                    invariant
                        i <= self.sequenced@.len(),
                        target == user_history::pair_views(segments@),
                        record@.tombstone,
                        record@.segments == target,
                        forall|j: int|
                            0 <= j < i ==> (#[trigger] self@.sequenced[j]).0.tombstone
                                || !share_pair(self@.sequenced[j].0.segments, target),
                    decreases self.sequenced@.len() - i,
                {
                    proof {
                        assert(self@.sequenced[i as int].0 == self.sequenced@[i as int].0@);
                    }
                    if let WalRecord::Committed { segments: earlier, .. } = &self.sequenced[i].0 {
                        if pairs_meet(earlier, segments) {
                            proof {
                                let x = self@.sequenced[i as int];
                                assert(!x.0.tombstone && share_pair(x.0.segments, target));
                                assert(self@.learns(target));
                            }
                            return true;
                        }
                    }
                    i = i + 1;
                }
                false
            },
        }
    }

    /// Takes a frame into the batch, with what became of it.
    pub fn appended(&mut self, record: WalRecord, outcome: AppendOutcome)
        ensures
            final(self)@ == old(self)@.appended(record@, outcome),
    {
        let tombstone: bool = match &record {
            WalRecord::Committed { .. } => false,
            WalRecord::Tombstone { .. } => true,
        };
        let seq: Option<u64> = match outcome {
            AppendOutcome::Written { seq } => Some(seq),
            AppendOutcome::SyncFailed { seq } => Some(seq),
            AppendOutcome::Failed => None,
        };
        let failed: bool = match outcome {
            AppendOutcome::Failed => true,
            _ => false,
        };
        let written: bool = match outcome {
            AppendOutcome::Written { .. } => true,
            _ => false,
        };
        let ghost before = self@.sequenced;
        self.sequenced.push((record, seq));
        proof {
            assert(self@.sequenced =~= before.push((record@, seq)));
        }
        self.scrub = self.scrub || tombstone || failed;
        self.durability_failed = self.durability_failed || (tombstone && !written);
    }

    /// Whether a commit is held by memory alone.
    pub fn memory_only(&self) -> (r: bool)
        ensures
            r == self@.memory_only(),
    {
        let mut i: usize = 0;
        while i < self.sequenced.len()
            invariant
                i <= self.sequenced@.len(),
                forall|j: int|
                    0 <= j < i ==> (#[trigger] self@.sequenced[j]).0.tombstone
                        || self@.sequenced[j].1 is Some,
            decreases self.sequenced@.len() - i,
        {
            proof {
                assert(self@.sequenced[i as int] == (
                    self.sequenced@[i as int].0@,
                    self.sequenced@[i as int].1,
                ));
            }
            if self.sequenced[i].1.is_none() {
                if let WalRecord::Committed { .. } = &self.sequenced[i].0 {
                    return true;
                }
            }
            i = i + 1;
        }
        false
    }

    /// When the history is compacted behind the batch.
    pub fn compaction(&self, needs_threshold: bool) -> (r: Compaction)
        ensures
            r == self@.compaction(needs_threshold),
    {
        if self.durability_failed {
            Compaction::Synchronous
        } else if self.scrub {
            Compaction::Requested
        } else if needs_threshold {
            Compaction::Threshold
        } else {
            Compaction::Nothing
        }
    }
}

/// A deletion of what a commit earlier in the same batch learned is written, so
/// that it wins over the commit.
pub proof fn deletion_beats_an_earlier_commit(b: BatchView, i: int, tombstone: WalView)
    requires
        0 <= i < b.sequenced.len(),
        !b.sequenced[i].0.tombstone,
        tombstone.tombstone,
        share_pair(b.sequenced[i].0.segments, tombstone.segments),
    ensures
        b.wants(tombstone, false),
{
}

/// A deletion that is not safely in the log is checkpointed before the batch
/// returns, whatever comes behind it.
pub proof fn failed_deletions_are_checkpointed(
    b: BatchView,
    tombstone: WalView,
    outcome: AppendOutcome,
    next: WalView,
    next_outcome: AppendOutcome,
    needs_threshold: bool,
)
    requires
        tombstone.tombstone,
        outcome !is Written,
    ensures
        b.appended(tombstone, outcome).compaction(needs_threshold) == Compaction::Synchronous,
        b.appended(tombstone, outcome).appended(next, next_outcome).compaction(needs_threshold)
            == Compaction::Synchronous,
{
}

/// A commit that did not reach the log is held by memory alone, and the history is
/// compacted to heal that.
pub proof fn lost_commits_are_noticed(b: BatchView, commit: WalView, needs_threshold: bool)
    requires
        !commit.tombstone,
    ensures
        b.appended(commit, AppendOutcome::Failed).memory_only(),
        b.appended(commit, AppendOutcome::Failed).compaction(needs_threshold)
            != Compaction::Nothing,
        b.appended(commit, AppendOutcome::Failed).compaction(needs_threshold)
            != Compaction::Threshold,
{
    let a = b.appended(commit, AppendOutcome::Failed);
    assert(a.sequenced[b.sequenced.len() as int].1 is None);
}

/// What became of the log when a checkpoint was written.
#[derive(Debug, Clone, Copy, PartialEq, Eq, Structural)]
pub enum TruncateOutcome {
    /// The frames that the checkpoint covers are gone.
    Truncated,
    /// Frames came behind the checkpoint.
    FramesLeft,
    Failed,
}

/// What a compaction achieved.
#[derive(Debug, Clone, Copy, PartialEq, Eq, Structural)]
pub enum CompactOutcome {
    /// The checkpoint is durable.
    Done,
    /// The checkpoint is durable, but frames came behind it.
    FollowUp,
    /// The checkpoint was not written.
    Failed,
}

/// What a compaction achieved: `truncated` is what became of the log, if the
/// checkpoint was written at all.
pub fn compact_outcome(truncated: Option<TruncateOutcome>) -> (r: CompactOutcome)
    ensures
        r == match truncated {
            None => CompactOutcome::Failed,
            Some(TruncateOutcome::FramesLeft) => CompactOutcome::FollowUp,
            Some(_) => CompactOutcome::Done,
        },
{
    match truncated {
        None => CompactOutcome::Failed,
        Some(TruncateOutcome::Truncated) => CompactOutcome::Done,
        Some(TruncateOutcome::FramesLeft) => CompactOutcome::FollowUp,
        Some(TruncateOutcome::Failed) => CompactOutcome::Done,
    }
}

/// What follows a compaction.
#[derive(Debug, Clone, Copy, PartialEq, Eq, Structural)]
pub enum AfterCompact {
    Nothing,
    /// Another compaction.
    Again,
    /// A request stays posted for a later compaction.
    Pending,
}

/// What follows a compaction: frames that came behind it are compacted again, and
/// what was not written stays requested.
pub fn after_compact(outcome: CompactOutcome) -> (r: AfterCompact)
    ensures
        r == match outcome {
            CompactOutcome::Done => AfterCompact::Nothing,
            CompactOutcome::FollowUp => AfterCompact::Again,
            CompactOutcome::Failed => AfterCompact::Pending,
        },
{
    match outcome {
        CompactOutcome::Done => AfterCompact::Nothing,
        CompactOutcome::FollowUp => AfterCompact::Again,
        CompactOutcome::Failed => AfterCompact::Pending,
    }
}

/// A step of clearing a history.
#[derive(Debug, Clone, Copy, PartialEq, Eq, Structural)]
pub enum ClearStep {
    /// Write an empty checkpoint; this decides.
    SaveEmpty,
    /// Empty the write-ahead log.
    TruncateWal,
    /// Forget what memory holds.
    ResetMemory,
    /// Remove the commit log.
    RemoveLog,
    /// Empty the commit log, since it could not be removed.
    TruncateLog,
    /// Remove what recovery left behind.
    RemoveArtifacts,
    Finished,
}

/// What went wrong in clearing.
#[derive(Debug, Clone, Copy, PartialEq, Eq, Structural)]
pub enum ClearFault {
    Checkpoint,
    Wal,
    Log,
    Artifacts,
}

/// The state of clearing a history.
#[derive(Debug, Clone, Copy, PartialEq, Eq, Structural)]
pub struct Clear {
    /// What is to be done next.
    pub step: ClearStep,
    /// Whether the empty checkpoint is durable.
    pub committed: bool,
    /// Whether the log takes no more frames, since its state is unknown.
    pub frozen: bool,
    /// What went wrong first.
    pub fault: Option<ClearFault>,
}

impl Clear {
    pub open spec fn first_fault(self, fault: ClearFault) -> Option<ClearFault> {
        match self.fault {
            Some(f) => Some(f),
            None => Some(fault),
        }
    }

    /// The state after the step has succeeded or failed. Only the checkpoint
    /// stops it: once that is written, every other step is taken, and the first
    /// failure is kept.
    pub open spec fn next(self, ok: bool) -> Clear {
        match self.step {
            ClearStep::SaveEmpty => if ok {
                Clear { step: ClearStep::TruncateWal, committed: true, ..self }
            } else {
                Clear {
                    step: ClearStep::Finished,
                    fault: Some(ClearFault::Checkpoint),
                    ..self
                }
            },
            ClearStep::TruncateWal => if ok {
                Clear { step: ClearStep::ResetMemory, ..self }
            } else {
                Clear {
                    step: ClearStep::ResetMemory,
                    frozen: true,
                    fault: self.first_fault(ClearFault::Wal),
                    ..self
                }
            },
            ClearStep::ResetMemory => Clear { step: ClearStep::RemoveLog, ..self },
            ClearStep::RemoveLog => if ok {
                Clear { step: ClearStep::RemoveArtifacts, ..self }
            } else {
                Clear { step: ClearStep::TruncateLog, ..self }
            },
            ClearStep::TruncateLog => if ok {
                Clear { step: ClearStep::RemoveArtifacts, ..self }
            } else {
                Clear {
                    step: ClearStep::RemoveArtifacts,
                    fault: self.first_fault(ClearFault::Log),
                    ..self
                }
            },
            ClearStep::RemoveArtifacts => if ok {
                Clear { step: ClearStep::Finished, ..self }
            } else {
                Clear {
                    step: ClearStep::Finished,
                    fault: self.first_fault(ClearFault::Artifacts),
                    ..self
                }
            },
            ClearStep::Finished => self,
        }
    }

    /// How many steps are left, at most.
    pub open spec fn steps_left(self) -> nat {
        match self.step {
            ClearStep::SaveEmpty => 6,
            ClearStep::TruncateWal => 5,
            ClearStep::ResetMemory => 4,
            ClearStep::RemoveLog => 3,
            ClearStep::TruncateLog => 2,
            ClearStep::RemoveArtifacts => 1,
            ClearStep::Finished => 0,
        }
    }

    pub fn start() -> (r: Self)
        ensures
            r == (Clear {
                step: ClearStep::SaveEmpty,
                committed: false,
                frozen: false,
                fault: None,
            }),
    {
        Clear { step: ClearStep::SaveEmpty, committed: false, frozen: false, fault: None }
    }

    fn keep_fault(&self, fault: ClearFault) -> (r: Option<ClearFault>)
        ensures
            r == self.first_fault(fault),
    {
        match self.fault {
            Some(f) => Some(f),
            None => Some(fault),
        }
    }

    /// Goes on after the step has succeeded or failed. A commit log that is not
    /// there counts as removed.
    pub fn advance(&mut self, ok: bool)
        ensures
            *final(self) == old(self).next(ok),
    {
        match self.step {
            ClearStep::SaveEmpty => {
                if ok {
                    self.committed = true;
                    self.step = ClearStep::TruncateWal;
                } else {
                    self.fault = Some(ClearFault::Checkpoint);
                    self.step = ClearStep::Finished;
                }
            },
            ClearStep::TruncateWal => {
                if !ok {
                    self.frozen = true;
                    self.fault = self.keep_fault(ClearFault::Wal);
                }
                self.step = ClearStep::ResetMemory;
            },
            ClearStep::ResetMemory => {
                self.step = ClearStep::RemoveLog;
            },
            ClearStep::RemoveLog => {
                self.step = if ok {
                    ClearStep::RemoveArtifacts
                } else {
                    ClearStep::TruncateLog
                };
            },
            ClearStep::TruncateLog => {
                if !ok {
                    self.fault = self.keep_fault(ClearFault::Log);
                }
                self.step = ClearStep::RemoveArtifacts;
            },
            ClearStep::RemoveArtifacts => {
                if !ok {
                    self.fault = self.keep_fault(ClearFault::Artifacts);
                }
                self.step = ClearStep::Finished;
            },
            ClearStep::Finished => {},
        }
    }

    /// Whether a compaction is needed to heal what clearing left behind.
    pub fn needs_heal(&self) -> (r: bool)
        ensures
            r == (self.committed && self.fault is Some),
    {
        self.committed && self.fault.is_some()
    }
}

/// Clearing comes to an end.
pub proof fn clearing_ends(c: Clear, ok: bool)
    requires
        c.step != ClearStep::Finished,
    ensures
        c.next(ok).steps_left() < c.steps_left(),
{
}

/// Once the empty checkpoint is durable, memory is reset on the way to the end, and
/// a fault never goes unnoticed.
pub proof fn committed_clears_are_carried_through(c: Clear, ok: bool)
    requires
        c.committed,
        c.step == ClearStep::TruncateWal,
    ensures
        c.next(ok).step == ClearStep::ResetMemory,
        c.next(ok).committed,
        !ok ==> c.next(ok).fault is Some && c.next(ok).frozen,
        forall|d: Clear, k: bool| d.fault is Some ==> (#[trigger] d.next(k)).fault is Some,
        forall|d: Clear, k: bool| d.committed ==> (#[trigger] d.next(k)).committed,
{
}

/// A clear whose checkpoint fails changes nothing.
pub proof fn failed_clears_change_nothing(c: Clear)
    requires
        c.step == ClearStep::SaveEmpty,
        !c.committed,
        !c.frozen,
    ensures
        c.next(false).step == ClearStep::Finished,
        !c.next(false).committed,
        !c.next(false).frozen,
        c.next(false).fault == Some(ClearFault::Checkpoint),
{
}

/// A value in a line of the commit log.
pub enum Field {
    Number(u64),
    Text(String),
    Flag(bool),
}

pub enum FieldView {
    Number(u64),
    Text(Seq<char>),
    Flag(bool),
}

impl View for Field {
    type V = FieldView;

    open spec fn view(&self) -> FieldView {
        match *self {
            Field::Number(n) => FieldView::Number(n),
            Field::Text(t) => FieldView::Text(t@),
            Field::Flag(b) => FieldView::Flag(b),
        }
    }
}

/// The text of a JSON object with these members.
pub uninterp spec fn json_object(fields: Seq<(Seq<char>, FieldView)>) -> Seq<char>;

pub open spec fn field_views(s: Seq<(&'static str, Field)>) -> Seq<(Seq<char>, FieldView)> {
    Seq::new(s.len(), |i: int| (s[i].0@, s[i].1@))
}

/// `serde_json::Value::to_string` of an object with these members: one line of
/// JSON.
#[verifier::external_body]
fn object_text(fields: Vec<(&'static str, Field)>) -> (r: String)
    ensures
        r@ == json_object(field_views(fields@)),
{
    let members: serde_json::Map<String, serde_json::Value> = fields.into_iter().map(
        |(name, value)| (name.to_string(), match value {
            Field::Number(n) => serde_json::Value::from(n),
            Field::Text(t) => serde_json::Value::from(t),
            Field::Flag(b) => serde_json::Value::from(b),
        }),
    ).collect();
    serde_json::Value::Object(members).to_string()
}

/// The members of a line: the other first candidate and the mark of a commit by
/// itself only where there is one.
pub open spec fn line_fields(e: EventView) -> Seq<(Seq<char>, FieldView)> {
    let base = seq![
        ("t"@, FieldView::Number(e.time)),
        ("reading"@, FieldView::Text(e.reading)),
        ("surface"@, FieldView::Text(e.surface)),
        ("rank"@, FieldView::Number(e.rank as u64)),
    ];
    let more = match e.top1 {
        Some(t) => base.push(("top1"@, FieldView::Text(t))),
        None => base,
    };
    if e.auto_committed {
        more.push(("auto"@, FieldView::Flag(true)))
    } else {
        more
    }
}

/// The members of a line of the commit log.
pub fn commit_log_fields(e: CommitEvent) -> (r: Vec<(&'static str, Field)>)
    ensures
        field_views(r@) == line_fields(e@),
{
    let ghost ev = e@;
    let mut fields: Vec<(&'static str, Field)> = Vec::new();
    fields.push(("t", Field::Number(e.time)));
    fields.push(("reading", Field::Text(e.reading)));
    fields.push(("surface", Field::Text(e.surface)));
    fields.push(("rank", Field::Number(e.rank as u64)));
    if let Some(t) = e.top1 {
        fields.push(("top1", Field::Text(t)));
    }
    if e.auto_committed {
        fields.push(("auto", Field::Flag(true)));
    }
    proof {
        assert(field_views(fields@) =~= line_fields(ev));
    }
    fields
}

/// A line of the commit log, as JSON.
pub fn commit_log_line(e: CommitEvent) -> (r: String)
    ensures
        r@ == json_object(line_fields(e@)),
{
    object_text(commit_log_fields(e))
}

/// What memory holds: the history, how far the log is in it, and the pairs that it
/// forgot although the checkpoint may hold them and no frame of the log says so.
pub struct Learned {
    pub history: UserHistory,
    pub applied_seq: u64,
    pub residue: Vec<(String, String)>,
}

pub struct LearnedView {
    pub history: HistoryView,
    pub applied_seq: u64,
    pub residue: Seq<(Seq<char>, Seq<char>)>,
}

impl View for Learned {
    type V = LearnedView;

    open spec fn view(&self) -> LearnedView {
        LearnedView {
            history: self.history@,
            applied_seq: self.applied_seq,
            residue: user_history::pair_views(self.residue@),
        }
    }
}

impl LearnedView {
    /// What memory holds behind a frame; `seq` is its place in the log, if it is
    /// there.
    pub open spec fn applied(self, record: WalView, seq: Option<u64>) -> LearnedView {
        LearnedView {
            history: if record.tombstone {
                self.history.forgotten(record.segments)
            } else {
                self.history.recorded(record.segments)
            },
            applied_seq: match seq {
                Some(s) if s > self.applied_seq => s,
                _ => self.applied_seq,
            },
            residue: if record.tombstone && seq is None {
                self.residue + record.segments
            } else {
                self.residue
            },
        }
    }

    /// What memory holds behind the first `n` frames of a batch.
    pub open spec fn applied_upto(self, batch: Seq<(WalView, Option<u64>)>, n: nat) -> LearnedView
        decreases n,
    {
        if n == 0 {
            self
        } else {
            self.applied_upto(batch, (n - 1) as nat).applied(batch[n - 1].0, batch[n - 1].1)
        }
    }

    /// Whether a deletion has something to forget, in memory or in the checkpoint.
    pub open spec fn has_target(self, pairs: Seq<(Seq<char>, Seq<char>)>) -> bool {
        self.history.knows_any(pairs) || share_pair(self.residue, pairs)
    }

    /// The checkpoint of a state with the first `n` of the residue is written.
    pub open spec fn settled(self, n: nat) -> LearnedView {
        LearnedView {
            residue: if n <= self.residue.len() {
                self.residue.skip(n as int)
            } else {
                Seq::empty()
            },
            ..self
        }
    }
}

impl Learned {
    /// What a checkpoint gives.
    pub fn restored(history: UserHistory, applied_seq: u64) -> (r: Self)
        ensures
            r@ == (LearnedView { history: history@, applied_seq, residue: Seq::empty() }),
    {
        let r = Learned { history, applied_seq, residue: Vec::new() };
        proof {
            assert(r@.residue =~= Seq::empty());
        }
        r
    }

    /// Learns from a frame, or forgets what it says; `seq` is its place in the log,
    /// if it is there.
    pub fn apply(&mut self, record: &WalRecord, seq: Option<u64>)
        ensures
            final(self)@ == old(self)@.applied(record@, seq),
    {
        let ghost before = self@;
        match record {
            WalRecord::Committed { segments, .. } => {
                self.history.record(segments.as_slice());
            },
            WalRecord::Tombstone { segments, .. } => {
                self.history.forget(segments.as_slice());
                if seq.is_none() {
                    let ghost ps = user_history::pair_views(segments@);
                    let mut i: usize = 0;
                    proof {
                        assert(before.residue + ps.take(0) =~= before.residue);
                    }
                    while i < segments.len()
                        invariant
                            i <= segments@.len(),
                            ps == user_history::pair_views(segments@),
                            self@ == (LearnedView {
                                history: before.history.forgotten(ps),
                                residue: before.residue + ps.take(i as int),
                                ..before
                            }),
                        decreases segments@.len() - i,
                    {
                        let ghost held = self@.residue;
                        self.residue.push((segments[i].0.clone(), segments[i].1.clone()));
                        proof {
                            assert(self@.residue =~= held.push(ps[i as int]));
                            assert(before.residue + ps.take(i + 1) =~= (before.residue + ps.take(
                                i as int,
                            )).push(ps[i as int]));
                        }
                        i = i + 1;
                    }
                    proof {
                        assert(ps.take(ps.len() as int) =~= ps);
                    }
                }
            },
        }
        if let Some(s) = seq {
            if s > self.applied_seq {
                self.applied_seq = s;
            }
        }
    }

    /// Learns from a batch.
    pub fn apply_batch(&mut self, batch: &Batch)
        ensures
            final(self)@ == old(self)@.applied_upto(batch@.sequenced, batch@.sequenced.len()),
    {
        let ghost before = self@;
        let ghost frames = batch@.sequenced;
        let mut i: usize = 0;
        while i < batch.sequenced.len()
            invariant
                i <= batch.sequenced@.len(),
                frames == batch@.sequenced,
                self@ == before.applied_upto(frames, i as nat),
            decreases batch.sequenced@.len() - i,
        {
            proof {
                assert(frames[i as int] == (
                    batch.sequenced@[i as int].0@,
                    batch.sequenced@[i as int].1,
                ));
            }
            self.apply(&batch.sequenced[i].0, batch.sequenced[i].1);
            i = i + 1;
        }
    }

    /// Takes in a frame of the log, unless the checkpoint has it; says whether it
    /// did.
    pub fn replay(&mut self, record: &WalRecord, seq: u64) -> (r: bool)
        ensures
            r == (seq > old(self)@.applied_seq),
            r ==> final(self)@ == old(self)@.applied(record@, Some(seq)),
            !r ==> final(self)@ == old(self)@,
    {
        if seq <= self.applied_seq {
            return false;
        }
        self.apply(record, Some(seq));
        true
    }

    /// Whether a deletion has something to forget, in memory or in the checkpoint.
    pub fn has_durable_target(&self, pairs: &Vec<(String, String)>) -> (r: bool)
        ensures
            r == self@.has_target(user_history::pair_views(pairs@)),
    {
        self.history.knows_any(pairs.as_slice()) || pairs_meet(&self.residue, pairs)
    }

    /// Takes note that the checkpoint of a state with the first `n` of the residue is
    /// written: it does not hold them any more.
    pub fn settle_residue(&mut self, n: usize)
        ensures
            final(self)@ == old(self)@.settled(n as nat),
    {
        let ghost before = self@.residue;
        let mut kept: Vec<(String, String)> = Vec::new();
        let len: usize = self.residue.len();
        let first: usize = if n <= len {
            n
        } else {
            len
        };
        let mut i: usize = first;
        proof {
            assert(user_history::pair_views(kept@) =~= before.subrange(first as int, first as int));
        }
        while i < self.residue.len()
            invariant
                first <= i <= self.residue@.len(),
                before == user_history::pair_views(self.residue@),
                *self == *old(self),
                user_history::pair_views(kept@) == before.subrange(first as int, i as int),
            decreases self.residue@.len() - i,
        {
            let ghost held = user_history::pair_views(kept@);
            kept.push((self.residue[i].0.clone(), self.residue[i].1.clone()));
            proof {
                assert(user_history::pair_views(kept@) =~= held.push(before[i as int]));
                assert(before.subrange(first as int, i + 1) =~= before.subrange(
                    first as int,
                    i as int,
                ).push(before[i as int]));
            }
            i = i + 1;
        }
        self.residue = kept;
        proof {
            assert(self@.residue =~= old(self)@.settled(n as nat).residue);
        }
    }
}

/// A deletion leaves nothing learned of its pairs, whatever was committed before it
/// and wherever its frame went.
pub proof fn deleted_pairs_are_not_learned(
    l: LearnedView,
    tombstone: WalView,
    seq: Option<u64>,
    i: int,
)
    requires
        tombstone.tombstone,
        0 <= i < tombstone.segments.len(),
    ensures
        l.applied(tombstone, seq).history.unigram_boost(
            tombstone.segments[i].0,
            tombstone.segments[i].1,
        ) == 0,
        forall|prev: Seq<char>| #[trigger]
            l.applied(tombstone, seq).history.bigram_boost(
                prev,
                tombstone.segments[i].0,
                tombstone.segments[i].1,
            ) == 0,
{
    user_history::forgotten_pairs_count_for_nothing(l.history, tombstone.segments, i);
}

/// A deletion that comes last in a batch wins over every commit in it.
pub proof fn last_deletion_of_a_batch_wins(
    l: LearnedView,
    batch: Seq<(WalView, Option<u64>)>,
    i: int,
)
    requires
        batch.len() > 0,
        batch.last().0.tombstone,
        0 <= i < batch.last().0.segments.len(),
    ensures
        l.applied_upto(batch, batch.len()).history.unigram_boost(
            batch.last().0.segments[i].0,
            batch.last().0.segments[i].1,
        ) == 0,
{
    let before = l.applied_upto(batch, (batch.len() - 1) as nat);
    deleted_pairs_are_not_learned(before, batch.last().0, batch.last().1, i);
}

/// A deletion whose frame is not in the log has something to forget until a
/// checkpoint is written.
pub proof fn lost_deletions_stay_wanted(l: LearnedView, tombstone: WalView)
    requires
        tombstone.tombstone,
        tombstone.segments.len() > 0,
    ensures
        l.applied(tombstone, None).has_target(tombstone.segments),
{
    let r = l.applied(tombstone, None).residue;
    assert(r[l.residue.len() as int] == tombstone.segments[0]);
    assert(tombstone.segments.contains(r[l.residue.len() as int]));
}

/// What is committed is learned.
pub proof fn committed_pairs_are_learned(l: LearnedView, record: WalView, seq: Option<u64>, i: int)
    requires
        !record.tombstone,
        0 <= i < record.segments.len(),
    ensures
        l.applied(record, seq).history.unigram_boost(record.segments[i].0, record.segments[i].1)
            >= user_history::BOOST_PER_USE,
{
    user_history::recorded_words_are_boosted(l.history, record.segments, i);
}

} // verus!
