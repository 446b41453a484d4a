//! What callers are told, and what is learned.

use vstd::prelude::*;

use super::events::{self, EventView, KeyEvent, LexKeyEvent};
use super::flat;
use super::learning::{
    self, AppendOutcome, BatchView, Clear, ClearFault, ClearStep, Compaction, LearnedView,
    LearningView, WalView,
};
use super::ledger::LedgerView;
use super::snippets;
use super::worker;
use crate::candidates::{self, Lexicon};
use crate::session::types::{ActionView, Response};

verus! {

/// The place of an event among the others: what is committed, what is marked, the
/// panel, the switch.
pub open spec fn event_order(e: EventView) -> int {
    match e {
        EventView::Commit { .. } => 0,
        EventView::SetMarkedText { .. } => 1,
        EventView::ShowCandidates { .. } => 2,
        EventView::HideCandidates => 2,
        EventView::SwitchToAbc => 3,
    }
}

/// Whether an answer asks for an event.
pub open spec fn asks_for(r: Response, e: EventView) -> bool {
    match e {
        EventView::Commit { text } => r.commit == Some(text),
        EventView::SetMarkedText { text } => r.marked is Some && r.marked->0.text == text,
        EventView::ShowCandidates { surfaces, selected } => r.candidates == (ActionView::Show {
            surfaces,
            selected,
        }),
        EventView::HideCandidates => r.candidates == ActionView::Hide,
        EventView::SwitchToAbc => r.side_effects.switch_to_abc,
    }
}

/// An answer gives the events that it asks for, each once, and no others: first what is
/// committed, then what is marked, then the panel, then the switch.
pub proof fn events_are_what_the_answer_asks_for(r: Response, e: EventView, i: int, j: int)
    ensures
        events::events_of(r).contains(e) <==> asks_for(r, e),
        0 <= i < j < events::events_of(r).len() ==> event_order(events::events_of(r)[i])
            < event_order(events::events_of(r)[j]),
{
    let s = events::events_of(r);
    let a = if r.commit is Some {
        1int
    } else {
        0
    };
    let b = if r.marked is Some {
        1int
    } else {
        0
    };
    let c = if r.candidates is Keep {
        0int
    } else {
        1
    };
    if r.commit is Some {
        assert(s[0] == EventView::Commit { text: r.commit->0 });
    }
    if r.marked is Some {
        assert(s[a] == EventView::SetMarkedText { text: r.marked->0.text });
    }
    match r.candidates {
        ActionView::Show { surfaces, selected } => {
            assert(s[a + b] == EventView::ShowCandidates { surfaces, selected });
        },
        ActionView::Hide => {
            assert(s[a + b] == EventView::HideCandidates);
        },
        ActionView::Keep => {},
    }
    if r.side_effects.switch_to_abc {
        assert(s[a + b + c] == EventView::SwitchToAbc);
    }
    if s.contains(e) {
        let k = choose|k: int| 0 <= k < s.len() && s[k] == e;
        assert(asks_for(r, s[k]));
    }
}

/// A text goes over to callers that end texts with a zero, unless it holds one.
pub open spec fn goes_over(t: Option<Seq<char>>) -> Option<Seq<char>> {
    if t is Some && (forall|i: int| 0 <= i < t->0.len() ==> #[trigger] t->0[i] != '\0') {
        t
    } else {
        None
    }
}

proof fn lemma_goes_over(t: Option<Seq<char>>)
    ensures
        flat::handed_over(t) == goes_over(t),
{
    if t is Some {
        let s = t->0;
        if s.contains('\0') {
            let i = choose|i: int| 0 <= i < s.len() && s[i] == '\0';
            assert(t->0[i] == '\0');
        }
    }
}

/// An answer in plain values says the same as the answer.
pub proof fn plain_answers_say_the_same(r: Response)
    ensures
        ({
            let f = flat::flattened(r);
            &&& f.consumed == 1 <==> r.consumed
            &&& f.commit_text == goes_over(r.commit)
            &&& r.marked is Some ==> f.marked_text == goes_over(Some(r.marked->0.text))
            &&& r.marked is None ==> f.marked_text is None
            &&& f.is_dashed_underline == 1 <==> r.marked is Some && r.marked->0.dashed
            &&& f.show_candidates == 1 <==> r.candidates is Show
            &&& f.hide_candidates == 1 <==> r.candidates is Hide
            &&& r.candidates matches ActionView::Show { surfaces, selected }
                ==> f.selected_index == selected
            &&& f.switch_to_abc == 1 <==> r.side_effects.switch_to_abc
            &&& f.save_history == 1 <==> r.side_effects.save_history
            &&& f.needs_candidates == 1 <==> r.async_request is Some
            &&& r.async_request is Some ==> f.candidate_reading == goes_over(
                Some(r.async_request->0.reading),
            ) && f.candidate_dispatch == r.async_request->0.dispatch
            &&& f.ghost_text == goes_over(r.ghost_text)
            &&& f.needs_ghost_text == 1 <==> r.ghost_request is Some
            &&& r.ghost_request is Some ==> f.ghost_context == goes_over(
                Some(r.ghost_request->0.context),
            ) && f.ghost_generation == r.ghost_request->0.generation
        }),
{
    lemma_goes_over(r.commit);
    lemma_goes_over(r.ghost_text);
    if r.marked is Some {
        lemma_goes_over(Some(r.marked->0.text));
    }
    if r.async_request is Some {
        lemma_goes_over(Some(r.async_request->0.reading));
    }
    if r.ghost_request is Some {
        lemma_goes_over(Some(r.ghost_request->0.context));
    }
}

/// Candidates go over in their order, those that hold no zero, and no others.
pub proof fn candidates_go_over_in_order(s: Seq<Seq<char>>, x: Seq<char>)
    ensures
        flat::all_handed_over(s.push(x)) == if x.contains('\0') {
            flat::all_handed_over(s)
        } else {
            flat::all_handed_over(s).push(x)
        },
        flat::all_handed_over(Seq::empty()) == Seq::<Seq<char>>::empty(),
{
    assert(s.push(x).drop_last() =~= s);
}

/// A commit is written to the log where it is to be learned: the whole pair, and then
/// its segments where it has several; a deletion is always written. Every commit has a
/// line in the record of commits, learned or not, and a deletion has none.
pub proof fn records_become_frames_and_lines(rs: Seq<LearningView>, r: LearningView, now: u64)
    ensures
        ({
            let old_frames = learning::all_frames(rs, now);
            let frames = learning::all_frames(rs.push(r), now);
            let old_lines = learning::all_lines(rs, now);
            let all = learning::all_lines(rs.push(r), now);
            match r {
                LearningView::Committed {
                    reading,
                    surface,
                    segments,
                    rank,
                    top1,
                    auto_committed,
                    learn,
                } => {
                    let pair = WalView {
                        tombstone: false,
                        segments: seq![(reading, surface)],
                        timestamp: now,
                    };
                    &&& !learn ==> frames == old_frames
                    &&& learn && segments is None ==> frames == old_frames.push(pair)
                    &&& learn && segments is Some ==> frames == old_frames.push(pair).push(
                        WalView { tombstone: false, segments: segments->0, timestamp: now },
                    )
                    &&& all.len() == old_lines.len() + 1
                    &&& all.drop_last() == old_lines
                    &&& all.last().reading == reading
                    &&& all.last().surface == surface
                    &&& all.last().rank == rank
                    &&& all.last().top1 == top1
                    &&& all.last().auto_committed == auto_committed
                    &&& all.last().time == now
                },
                LearningView::Deletion { segments } => {
                    &&& frames == old_frames.push(
                        WalView { tombstone: true, segments, timestamp: now },
                    )
                    &&& all == old_lines
                },
            }
        }),
{
    let t = rs.push(r);
    assert(t.drop_last() =~= rs);
    assert(t.last() == r);
    let a = learning::all_frames(rs, now);
    let b = learning::all_lines(rs, now);
    match r {
        LearningView::Committed { reading, surface, segments, learn, .. } => {
            let pair = WalView {
                tombstone: false,
                segments: seq![(reading, surface)],
                timestamp: now,
            };
            if !learn {
                assert(learning::all_frames(t, now) =~= a);
            } else if segments is Some {
                assert(learning::all_frames(t, now) =~= a.push(pair).push(
                    WalView { tombstone: false, segments: segments->0, timestamp: now },
                ));
            } else {
                assert(learning::all_frames(t, now) =~= a.push(pair));
            }
            assert(learning::all_lines(t, now).drop_last() =~= b);
        },
        LearningView::Deletion { segments } => {
            assert(learning::all_lines(t, now) =~= b);
        },
    }
}

/// A commit is always written; a deletion only where there is something to forget: on
/// disk, or a commit of the same batch that learned one of its pairs.
pub proof fn deletions_without_a_target_are_not_written(
    b: BatchView,
    record: WalView,
    durable_target: bool,
)
    ensures
        !record.tombstone ==> b.wants(record, durable_target),
        record.tombstone && durable_target ==> b.wants(record, durable_target),
        record.tombstone && !durable_target ==> (b.wants(record, durable_target) <==> exists|
            i: int,
            j: int,
            k: int,
        |
            0 <= i < b.sequenced.len() && 0 <= j < b.sequenced[i].0.segments.len() && 0 <= k
                < record.segments.len() && !b.sequenced[i].0.tombstone
                && #[trigger] b.sequenced[i].0.segments[j] == #[trigger] record.segments[k]),
{
    if b.learns(record.segments) {
        let i = choose|i: int|
            0 <= i < b.sequenced.len() && !(#[trigger] b.sequenced[i]).0.tombstone
                && learning::share_pair(b.sequenced[i].0.segments, record.segments);
        let s = b.sequenced[i].0.segments;
        let j = choose|j: int| 0 <= j < s.len() && record.segments.contains(#[trigger] s[j]);
        let k = choose|k: int| 0 <= k < record.segments.len() && record.segments[k] == s[j];
        assert(b.sequenced[i].0.segments[j] == record.segments[k]);
    }
    if exists|i: int, j: int, k: int|
        0 <= i < b.sequenced.len() && 0 <= j < b.sequenced[i].0.segments.len() && 0 <= k
            < record.segments.len() && !b.sequenced[i].0.tombstone
            && #[trigger] b.sequenced[i].0.segments[j] == #[trigger] record.segments[k] {
        let (i, j, k) = choose|i: int, j: int, k: int|
            0 <= i < b.sequenced.len() && 0 <= j < b.sequenced[i].0.segments.len() && 0 <= k
                < record.segments.len() && !b.sequenced[i].0.tombstone
                && #[trigger] b.sequenced[i].0.segments[j] == #[trigger] record.segments[k];
        let s = b.sequenced[i].0.segments;
        assert(record.segments.contains(s[j]));
        assert(learning::share_pair(s, record.segments));
        assert(!b.sequenced[i].0.tombstone);
    }
}

/// A batch keeps its frames in order, with the places in the log of those that reached
/// it. A batch in which all is commits that were written asks for compaction only when
/// the log is long enough.
pub proof fn batches_keep_their_frames(
    b: BatchView,
    record: WalView,
    outcome: AppendOutcome,
    needs_threshold: bool,
)
    ensures
        ({
            let a = b.appended(record, outcome);
            &&& a.sequenced.len() == b.sequenced.len() + 1
            &&& a.sequenced.drop_last() == b.sequenced
            &&& a.sequenced.last().0 == record
            &&& outcome matches AppendOutcome::Written { seq } ==> a.sequenced.last().1 == Some(seq)
            &&& outcome matches AppendOutcome::SyncFailed { seq } ==> a.sequenced.last().1 == Some(
                seq,
            )
            &&& outcome is Failed ==> a.sequenced.last().1 is None
            &&& !b.scrub && !b.durability_failed && !record.tombstone && outcome !is Failed
                ==> a.compaction(needs_threshold) == if needs_threshold {
                Compaction::Threshold
            } else {
                Compaction::Nothing
            }
            &&& !b.durability_failed && record.tombstone && outcome is Written ==> a.compaction(
                needs_threshold,
            ) == Compaction::Requested
            &&& a.memory_only() <==> b.memory_only() || (!record.tombstone && outcome is Failed)
        }),
        BatchView::empty().sequenced.len() == 0,
        !BatchView::empty().scrub,
        !BatchView::empty().durability_failed,
{
    let a = b.appended(record, outcome);
    assert(a.sequenced.drop_last() =~= b.sequenced);
    let n = b.sequenced.len() as int;
    if b.memory_only() {
        let i = choose|i: int|
            0 <= i < b.sequenced.len() && !(#[trigger] b.sequenced[i]).0.tombstone
                && b.sequenced[i].1 is None;
        assert(a.sequenced[i] == b.sequenced[i]);
    }
    if !record.tombstone && outcome is Failed {
        assert(a.sequenced[n].1 is None);
    }
    if a.memory_only() {
        let i = choose|i: int|
            0 <= i < a.sequenced.len() && !(#[trigger] a.sequenced[i]).0.tombstone
                && a.sequenced[i].1 is None;
        if i < n {
            assert(b.sequenced[i] == a.sequenced[i]);
        }
    }
}

/// A frame takes memory forward: the history records or forgets its pairs, and the
/// place in the log never goes back. A deletion that is not in the log waits for the
/// next checkpoint, and a checkpoint takes away those that it held.
pub proof fn frames_take_memory_forward(l: LearnedView, record: WalView, seq: Option<u64>, n: nat)
    ensures
        ({
            let a = l.applied(record, seq);
            &&& record.tombstone ==> a.history == l.history.forgotten(record.segments)
            &&& !record.tombstone ==> a.history == l.history.recorded(record.segments)
            &&& a.applied_seq >= l.applied_seq
            &&& seq is Some ==> a.applied_seq >= seq->0
            &&& a.applied_seq == l.applied_seq || seq == Some(a.applied_seq)
            &&& record.tombstone && seq is None ==> a.residue == l.residue + record.segments
            &&& !(record.tombstone && seq is None) ==> a.residue == l.residue
        }),
        n <= l.residue.len() ==> l.settled(n).residue == l.residue.skip(n as int),
        n > l.residue.len() ==> l.settled(n).residue.len() == 0,
        l.settled(n).history == l.history,
        l.settled(n).applied_seq == l.applied_seq,
{
}

/// A failure gets the generation behind all that were raised or covered, as long as
/// there is one: 2097151 is the last.
pub proof fn failures_get_a_new_generation(l: LedgerView, m: bool, d: bool)
    requires
        l.wf(),
    ensures
        ({
            let r = l.raised(m, d);
            let top = if l.memory_only >= l.deletion && l.memory_only >= l.covered {
                l.memory_only
            } else if l.deletion >= l.covered {
                l.deletion
            } else {
                l.covered
            };
            let new = if top < 2097151 {
                top + 1
            } else {
                2097151
            };
            &&& r.memory_only == if m {
                new
            } else {
                l.memory_only as int
            }
            &&& r.deletion == if d {
                new
            } else {
                l.deletion as int
            }
            &&& r.covered == l.covered
        }),
{
}

/// A checkpoint covers up to its generation, but for the last; an older one changes
/// nothing.
pub proof fn checkpoints_cover_their_generation(l: LedgerView, generation: u64)
    requires
        l.wf(),
    ensures
        ({
            let r = l.covered_upto(generation);
            &&& generation <= l.covered ==> r == l
            &&& l.covered < generation < 2097151 ==> r.covered == generation
            &&& l.covered < generation && generation >= 2097151 ==> r.covered == 2097150
            &&& r.memory_only == l.memory_only
            &&& r.deletion == l.deletion
        }),
        l.issues().contains(super::ledger::LexHistoryDurabilityIssue::DeletionNotPersisted)
            <==> l.deletion > l.covered,
        l.issues().contains(super::ledger::LexHistoryDurabilityIssue::LearningMemoryOnly)
            <==> l.memory_only > l.covered,
{
    let a = super::ledger::LexHistoryDurabilityIssue::DeletionNotPersisted;
    let b = super::ledger::LexHistoryDurabilityIssue::LearningMemoryOnly;
    let s = l.issues();
    if l.deletion > l.covered {
        assert(s[0] == a);
    }
    if l.memory_only > l.covered {
        assert(s[s.len() - 1] == b);
    }
    if s.contains(a) {
        let i = choose|i: int| 0 <= i < s.len() && s[i] == a;
        assert(i == 0);
    }
    if s.contains(b) {
        let i = choose|i: int| 0 <= i < s.len() && s[i] == b;
        assert(i == s.len() - 1);
    }
}

/// The number that a session gives with a request chooses the generator of candidates:
/// 1 runs ahead of the reading, the others do not.
pub proof fn numbers_choose_the_generator(
    lex: Lexicon,
    dispatch: u8,
    reading: Seq<char>,
    max_results: nat,
)
    ensures
        worker::dispatched(lex, 1, reading, max_results) == candidates::prediction_candidates(
            lex,
            reading,
            max_results,
        ),
        dispatch != 1 ==> worker::dispatched(lex, dispatch, reading, max_results)
            == candidates::candidates(lex, reading, max_results),
        crate::session::types::ConversionMode::Standard.dispatch() != 1,
        crate::session::types::ConversionMode::Predictive.dispatch() == 1,
        crate::session::types::ConversionMode::GhostText.dispatch() != 1,
{
}

/// Clearing goes through its steps: an empty checkpoint, the log, memory, the record of
/// commits, and what lies beside them. The record of commits is emptied where it cannot
/// be removed. Only a checkpoint that fails stops it, and of several faults the first is
/// kept.
pub proof fn clearing_goes_through_its_steps(c: Clear, ok: bool)
    ensures
        ({
            let n = c.next(ok);
            let first = |f: ClearFault|
                if c.fault is Some {
                    c.fault
                } else {
                    Some(f)
                };
            &&& c.step == ClearStep::SaveEmpty && ok ==> n.step == ClearStep::TruncateWal
                && n.committed && n.fault == c.fault
            &&& c.step == ClearStep::SaveEmpty && !ok ==> n.step == ClearStep::Finished
                && n.committed == c.committed && n.fault == Some(ClearFault::Checkpoint)
            &&& c.step == ClearStep::TruncateWal ==> n.step == ClearStep::ResetMemory
            &&& c.step == ClearStep::TruncateWal && ok ==> n.fault == c.fault && n.frozen
                == c.frozen
            &&& c.step == ClearStep::TruncateWal && !ok ==> n.fault == first(ClearFault::Wal)
                && n.frozen
            &&& c.step == ClearStep::ResetMemory ==> n.step == ClearStep::RemoveLog && n.fault
                == c.fault
            &&& c.step == ClearStep::RemoveLog ==> n.fault == c.fault && n.step == if ok {
                ClearStep::RemoveArtifacts
            } else {
                ClearStep::TruncateLog
            }
            &&& c.step == ClearStep::TruncateLog ==> n.step == ClearStep::RemoveArtifacts
                && n.fault == if ok {
                c.fault
            } else {
                first(ClearFault::Log)
            }
            &&& c.step == ClearStep::RemoveArtifacts ==> n.step == ClearStep::Finished && n.fault
                == if ok {
                c.fault
            } else {
                first(ClearFault::Artifacts)
            }
            &&& c.step == ClearStep::Finished ==> n == c
        }),
{
}

/// A key keeps what it is on its way to the session.
pub proof fn keys_stay_what_they_are(e: LexKeyEvent)
    ensures
        ({
            let k = events::key_event(e);
            &&& e matches LexKeyEvent::Text { text, shift } ==> k == (KeyEvent::Text { text, shift })
            &&& e matches LexKeyEvent::Remapped { text, shift } ==> k == (KeyEvent::Remapped {
                text,
                shift,
            })
            &&& e is Enter <==> k is Enter
            &&& e is Space <==> k is Space
            &&& e is Backspace <==> k is Backspace
            &&& e is Escape <==> k is Escape
            &&& e is Tab <==> k is Tab
            &&& e is ArrowDown <==> k is ArrowDown
            &&& e is ArrowUp <==> k is ArrowUp
            &&& e is SwitchToDirectInput <==> k is SwitchToDirectInput
            &&& e is SwitchToJapanese <==> k is SwitchToJapanese
            &&& e is ForwardDelete <==> k is ForwardDelete
            &&& e is ModifiedKey <==> k is ModifiedKey
            &&& e is SnippetTrigger <==> k is SnippetTrigger
        }),
{
}

/// A text of plain letters is shown as it is; quotes, backslashes and line ends get a
/// backslash before them.
pub proof fn plain_text_is_not_escaped(s: Seq<char>, c: char)
    ensures
        ({
            let before = snippets::escaped(s);
            let after = snippets::escaped(s.push(c));
            &&& 0x20 <= c as u32 <= 0x7E && c != '\'' && c != '"' && c != '\\' ==> after
                == before.push(c)
            &&& c == '\'' || c == '"' || c == '\\' ==> after == before.push('\\').push(c)
            &&& c == '\n' ==> after == before.push('\\').push('n')
            &&& c == '\r' ==> after == before.push('\\').push('r')
            &&& c == '\t' ==> after == before.push('\\').push('t')
        }),
        snippets::escaped(Seq::empty()).len() == 0,
{
    assert(s.push(c).drop_last() =~= s);
    let before = snippets::escaped(s);
    let after = snippets::escaped(s.push(c));
    assert(after == before + snippets::escaped_char(c));
    assert(before + seq![c] =~= before.push(c));
    assert(before + seq!['\\', c] =~= before.push('\\').push(c));
    assert(before + seq!['\\', 'n'] =~= before.push('\\').push('n'));
    assert(before + seq!['\\', 'r'] =~= before.push('\\').push('r'));
    assert(before + seq!['\\', 't'] =~= before.push('\\').push('t'));
}

/// A line of the record of commits has the time, the reading, the surface and the rank,
/// in this order; behind them the first candidate where another was chosen, and a mark
/// where the commit came by itself.
pub proof fn lines_have_their_members(e: learning::EventView)
    ensures
        ({
            let f = learning::line_fields(e);
            let n = f.len() as int;
            &&& f[0] == ("t"@, learning::FieldView::Number(e.time))
            &&& f[1] == ("reading"@, learning::FieldView::Text(e.reading))
            &&& f[2] == ("surface"@, learning::FieldView::Text(e.surface))
            &&& f[3] == ("rank"@, learning::FieldView::Number(e.rank as u64))
            &&& e.top1 is Some ==> f[4] == ("top1"@, learning::FieldView::Text(e.top1->0))
            &&& e.auto_committed ==> f[n - 1] == ("auto"@, learning::FieldView::Flag(true))
            &&& n == 4 + if e.top1 is Some {
                1int
            } else {
                0
            } + if e.auto_committed {
                1int
            } else {
                0
            }
        }),
{
}

/// Entries and segments go over in their order, those whose texts hold no zero.
pub proof fn entries_go_over_in_order(
    s: Seq<crate::dict::EntryView>,
    e: crate::dict::EntryView,
    t: Seq<crate::converter::viterbi::SegmentText>,
    g: crate::converter::viterbi::SegmentText,
)
    ensures
        flat::entries_handed_over(s.push(e)) == if e.surface.contains('\0') {
            flat::entries_handed_over(s)
        } else {
            flat::entries_handed_over(s).push((e.surface, e.cost))
        },
        flat::segments_handed_over(t.push(g)) == if g.reading.contains('\0') || g.surface.contains(
            '\0',
        ) {
            flat::segments_handed_over(t)
        } else {
            flat::segments_handed_over(t).push(g)
        },
        flat::entries_handed_over(Seq::empty()).len() == 0,
        flat::segments_handed_over(Seq::empty()).len() == 0,
{
    assert(s.push(e).drop_last() =~= s);
    assert(t.push(g).drop_last() =~= t);
}

/// So it does where the lattice of the reading is at hand.
pub proof fn numbers_choose_the_generator_of_a_lattice(
    lex: Lexicon,
    l: crate::converter::lattice::LatticeView,
    dispatch: u8,
    reading: Seq<char>,
    max_results: nat,
)
    ensures
        worker::dispatched_in(lex, l, 1, reading, max_results)
            == candidates::prediction_candidates_in(lex, l, reading, max_results),
        dispatch != 1 ==> worker::dispatched_in(lex, l, dispatch, reading, max_results)
            == candidates::candidates_in(lex, l, reading, max_results),
{
}

} // verus!
