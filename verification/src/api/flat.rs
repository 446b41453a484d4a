//! Answers as plain values, for callers that take texts with a zero at the end.

use vstd::prelude::*;

use crate::candidates::{CandidateResponse, CandidateView};
use crate::converter::viterbi::{ConvertedSegment, SegmentText};
use crate::dict::{DictEntry, EntryView};
use crate::session::types::{
    self, ActionView, CandidateAction, KeyResponse, Response,
};
use crate::text::{self, chars_of};

verus! {

/// Whether a text can have a zero at its end: it holds none.
pub open spec fn terminable(s: Seq<char>) -> bool {
    !s.contains('\0')
}

fn is_terminable(s: &str) -> (r: bool)
    ensures
        r == terminable(s@),
{
    let chars = chars_of(s);
    let mut i: usize = 0;
    while i < chars.len()
        invariant
            chars@ == s@,
            i <= chars@.len(),
            forall|j: int| 0 <= j < i ==> chars@[j] != '\0',
        decreases chars@.len() - i,
    {
        if chars[i] == '\0' {
            return false;
        }
        i = i + 1;
    }
    true
}

/// A text that can have a zero at its end, or none.
pub open spec fn handed_over(s: Option<Seq<char>>) -> Option<Seq<char>> {
    match s {
        Some(t) if terminable(t) => Some(t),
        _ => None,
    }
}

fn hand_over(s: Option<String>) -> (r: Option<String>)
    ensures
        types::text_of(r) == handed_over(types::text_of(s)),
{
    match s {
        Some(t) => if is_terminable(t.as_str()) {
            Some(t)
        } else {
            None
        },
        None => None,
    }
}

/// The texts that can have a zero at their ends.
pub open spec fn all_handed_over(s: Seq<Seq<char>>) -> Seq<Seq<char>>
    decreases s.len(),
{
    if s.len() == 0 {
        s
    } else if terminable(s.last()) {
        all_handed_over(s.drop_last()).push(s.last())
    } else {
        all_handed_over(s.drop_last())
    }
}

/// The texts that can have a zero at their ends.
pub fn hand_over_all(v: Vec<String>) -> (r: Vec<String>)
    ensures
        text::views(r@) == all_handed_over(text::views(v@)),
{
    let ghost s = text::views(v@);
    let mut r: Vec<String> = Vec::new();
    proof {
        assert(text::views(r@) =~= all_handed_over(s.take(0)));
    }
    let mut i: usize = 0;
    while i < v.len()
        invariant
            i <= v@.len(),
            s == text::views(v@),
            text::views(r@) == all_handed_over(s.take(i as int)),
        decreases v@.len() - i,
    {
        let ghost before = text::views(r@);
        proof {
            assert(s.take(i as int + 1).drop_last() =~= s.take(i as int));
            assert(s.take(i as int + 1).last() == v@[i as int]@);
        }
        if is_terminable(v[i].as_str()) {
            r.push(v[i].clone());
            proof {
                assert(text::views(r@) =~= before.push(v@[i as int]@));
            }
        }
        i = i + 1;
    }
    proof {
        assert(s.take(s.len() as int) =~= s);
    }
    r
}

/// An answer as plain values: numbers for flags, and texts that are there or not.
pub struct FlatKeyResponse {
    pub consumed: u8,
    pub commit_text: Option<String>,
    pub marked_text: Option<String>,
    pub is_dashed_underline: u8,
    pub candidates: Vec<String>,
    pub selected_index: u32,
    pub show_candidates: u8,
    pub hide_candidates: u8,
    pub switch_to_abc: u8,
    pub save_history: u8,
    pub needs_candidates: u8,
    pub candidate_reading: Option<String>,
    pub candidate_dispatch: u8,
    pub ghost_text: Option<String>,
    pub needs_ghost_text: u8,
    pub ghost_context: Option<String>,
    pub ghost_generation: u64,
}

/// What a `FlatKeyResponse` holds.
pub struct FlatView {
    pub consumed: u8,
    pub commit_text: Option<Seq<char>>,
    pub marked_text: Option<Seq<char>>,
    pub is_dashed_underline: u8,
    pub candidates: Seq<Seq<char>>,
    pub selected_index: u32,
    pub show_candidates: u8,
    pub hide_candidates: u8,
    pub switch_to_abc: u8,
    pub save_history: u8,
    pub needs_candidates: u8,
    pub candidate_reading: Option<Seq<char>>,
    pub candidate_dispatch: u8,
    pub ghost_text: Option<Seq<char>>,
    pub needs_ghost_text: u8,
    pub ghost_context: Option<Seq<char>>,
    pub ghost_generation: u64,
}

impl View for FlatKeyResponse {
    type V = FlatView;

    open spec fn view(&self) -> FlatView {
        FlatView {
            consumed: self.consumed,
            commit_text: types::text_of(self.commit_text),
            marked_text: types::text_of(self.marked_text),
            is_dashed_underline: self.is_dashed_underline,
            candidates: text::views(self.candidates@),
            selected_index: self.selected_index,
            show_candidates: self.show_candidates,
            hide_candidates: self.hide_candidates,
            switch_to_abc: self.switch_to_abc,
            save_history: self.save_history,
            needs_candidates: self.needs_candidates,
            candidate_reading: types::text_of(self.candidate_reading),
            candidate_dispatch: self.candidate_dispatch,
            ghost_text: types::text_of(self.ghost_text),
            needs_ghost_text: self.needs_ghost_text,
            ghost_context: types::text_of(self.ghost_context),
            ghost_generation: self.ghost_generation,
        }
    }
}

pub open spec fn flag(b: bool) -> u8 {
    if b {
        1
    } else {
        0
    }
}

fn number(b: bool) -> (r: u8)
    ensures
        r == flag(b),
{
    if b {
        1
    } else {
        0
    }
}

/// An answer as plain values.
pub open spec fn flattened(r: Response) -> FlatView {
    FlatView {
        consumed: flag(r.consumed),
        commit_text: handed_over(r.commit),
        marked_text: handed_over(
            match r.marked {
                Some(m) => Some(m.text),
                None => None,
            },
        ),
        is_dashed_underline: flag(r.marked is Some && r.marked->0.dashed),
        candidates: match r.candidates {
            ActionView::Show { surfaces, selected } => all_handed_over(surfaces),
            _ => Seq::empty(),
        },
        selected_index: match r.candidates {
            ActionView::Show { surfaces, selected } => selected,
            _ => 0,
        },
        show_candidates: flag(r.candidates is Show),
        hide_candidates: flag(r.candidates is Hide),
        switch_to_abc: flag(r.side_effects.switch_to_abc),
        save_history: flag(r.side_effects.save_history),
        needs_candidates: flag(r.async_request is Some),
        candidate_reading: handed_over(
            match r.async_request {
                Some(q) => Some(q.reading),
                None => None,
            },
        ),
        candidate_dispatch: match r.async_request {
            Some(q) => q.dispatch,
            None => 0,
        },
        ghost_text: handed_over(r.ghost_text),
        needs_ghost_text: flag(r.ghost_request is Some),
        ghost_context: handed_over(
            match r.ghost_request {
                Some(q) => Some(q.context),
                None => None,
            },
        ),
        ghost_generation: match r.ghost_request {
            Some(q) => q.generation,
            None => 0,
        },
    }
}

/// Lays an answer out as plain values. A text that holds a zero is left out.
pub fn flatten_key_response(resp: KeyResponse) -> (r: FlatKeyResponse)
    ensures
        r@ == flattened(resp@),
{
    let mut dashed: bool = false;
    let mut marked: Option<String> = None;
    if let Some(m) = resp.marked {
        dashed = m.dashed;
        marked = Some(m.text);
    }
    let mut visible: bool = false;
    let mut hidden: bool = false;
    let mut shown: Vec<String> = Vec::new();
    let mut selected_index: u32 = 0;
    match resp.candidates {
        CandidateAction::Keep => {},
        CandidateAction::Hide => {
            hidden = true;
        },
        CandidateAction::Show { surfaces, selected } => {
            visible = true;
            shown = surfaces;
            selected_index = selected;
        },
    }
    let candidates = hand_over_all(shown);
    let mut needs_candidates: bool = false;
    let mut reading: Option<String> = None;
    let mut candidate_dispatch: u8 = 0;
    if let Some(q) = resp.async_request {
        needs_candidates = true;
        reading = Some(q.reading);
        candidate_dispatch = q.candidate_dispatch;
    }
    let mut needs_ghost: bool = false;
    let mut context: Option<String> = None;
    let mut ghost_generation: u64 = 0;
    if let Some(q) = resp.ghost_request {
        needs_ghost = true;
        context = Some(q.context);
        ghost_generation = q.generation;
    }
    let r = FlatKeyResponse {
        consumed: number(resp.consumed),
        commit_text: hand_over(resp.commit),
        marked_text: hand_over(marked),
        is_dashed_underline: number(dashed),
        candidates,
        selected_index,
        show_candidates: number(visible),
        hide_candidates: number(hidden),
        switch_to_abc: number(resp.side_effects.switch_to_abc),
        save_history: number(resp.side_effects.save_history),
        needs_candidates: number(needs_candidates),
        candidate_reading: hand_over(reading),
        candidate_dispatch,
        ghost_text: hand_over(resp.ghost_text),
        needs_ghost_text: number(needs_ghost),
        ghost_context: hand_over(context),
        ghost_generation,
    };
    proof {
        assert(r@.candidates =~= flattened(resp@).candidates);
    }
    r
}

/// The panel is never both shown and hidden.
pub proof fn panel_is_shown_or_hidden(r: Response)
    ensures
        !(flattened(r).show_candidates == 1 && flattened(r).hide_candidates == 1),
{
}

/// Whether both texts of a segment can have a zero at their ends.
pub open spec fn segment_terminable(s: SegmentText) -> bool {
    terminable(s.reading) && terminable(s.surface)
}

/// The segments whose texts can have a zero at their ends.
pub open spec fn segments_handed_over(s: Seq<SegmentText>) -> Seq<SegmentText>
    decreases s.len(),
{
    if s.len() == 0 {
        s
    } else if segment_terminable(s.last()) {
        segments_handed_over(s.drop_last()).push(s.last())
    } else {
        segments_handed_over(s.drop_last())
    }
}

/// The segments whose texts can have a zero at their ends.
pub fn hand_over_segments(v: &Vec<ConvertedSegment>) -> (r: Vec<ConvertedSegment>)
    ensures
        text::views(r@) == segments_handed_over(text::views(v@)),
{
    let ghost s = text::views(v@);
    let mut r: Vec<ConvertedSegment> = Vec::new();
    proof {
        assert(text::views(r@) =~= segments_handed_over(s.take(0)));
    }
    let mut i: usize = 0;
    while i < v.len()
        invariant
            i <= v@.len(),
            s == text::views(v@),
            text::views(r@) == segments_handed_over(s.take(i as int)),
        decreases v@.len() - i,
    {
        let ghost before = text::views(r@);
        proof {
            assert(s.take(i as int + 1).drop_last() =~= s.take(i as int));
            assert(s.take(i as int + 1).last() == v@[i as int]@);
        }
        if is_terminable(v[i].reading.as_str()) && is_terminable(v[i].surface.as_str()) {
            r.push(
                ConvertedSegment { reading: v[i].reading.clone(), surface: v[i].surface.clone() },
            );
            proof {
                assert(text::views(r@) =~= before.push(v@[i as int]@));
            }
        }
        i = i + 1;
    }
    proof {
        assert(s.take(s.len() as int) =~= s);
    }
    r
}

/// Candidates with the texts that can have a zero at their ends.
pub open spec fn candidates_handed_over(c: CandidateView) -> CandidateView {
    CandidateView {
        surfaces: all_handed_over(c.surfaces),
        paths: Seq::new(c.paths.len(), |i: int| segments_handed_over(c.paths[i])),
    }
}

/// Candidates with the texts that can have a zero at their ends.
pub fn hand_over_candidates(resp: CandidateResponse) -> (r: CandidateResponse)
    ensures
        r@ == candidates_handed_over(resp@),
{
    let ghost all = resp@.paths;
    let mut paths: Vec<Vec<ConvertedSegment>> = Vec::new();
    let mut i: usize = 0;
    while i < resp.paths.len()
        invariant
            i <= resp.paths@.len(),
            all == resp@.paths,
            paths@.len() == i,
            forall|j: int|
                0 <= j < i ==> text::views((#[trigger] paths@[j])@) == segments_handed_over(all[j]),
        decreases resp.paths.len() - i,
    {
        paths.push(hand_over_segments(&resp.paths[i]));
        i = i + 1;
    }
    let r = CandidateResponse { surfaces: hand_over_all(resp.surfaces), paths };
    proof {
        assert(r@.paths =~= candidates_handed_over(resp@).paths);
    }
    r
}

/// The surfaces and costs of entries whose surfaces can have a zero at their ends.
pub open spec fn entries_handed_over(s: Seq<EntryView>) -> Seq<(Seq<char>, i16)>
    decreases s.len(),
{
    if s.len() == 0 {
        Seq::empty()
    } else if terminable(s.last().surface) {
        entries_handed_over(s.drop_last()).push((s.last().surface, s.last().cost))
    } else {
        entries_handed_over(s.drop_last())
    }
}

pub open spec fn cost_views(s: Seq<(String, i16)>) -> Seq<(Seq<char>, i16)> {
    Seq::new(s.len(), |i: int| (s[i].0@, s[i].1))
}

/// The surfaces and costs of the entries of a reading; none where the reading
/// cannot have a zero at its end.
pub fn hand_over_entries(reading: &str, entries: &[DictEntry]) -> (r: Vec<(String, i16)>)
    ensures
        terminable(reading@) ==> cost_views(r@) == entries_handed_over(text::views(entries@)),
        !terminable(reading@) ==> r@.len() == 0,
{
    let ghost s = text::views(entries@);
    let mut r: Vec<(String, i16)> = Vec::new();
    if !is_terminable(reading) {
        return r;
    }
    proof {
        assert(s.take(0) =~= Seq::empty());
        assert(cost_views(r@) =~= Seq::empty());
    }
    let mut i: usize = 0;
    while i < entries.len()
        invariant
            i <= entries@.len(),
            s == text::views(entries@),
            cost_views(r@) == entries_handed_over(s.take(i as int)),
        decreases entries@.len() - i,
    {
        let ghost before = cost_views(r@);
        proof {
            assert(s.take(i as int + 1).drop_last() =~= s.take(i as int));
            assert(s.take(i as int + 1).last() == entries@[i as int]@);
        }
        if is_terminable(entries[i].surface.as_str()) {
            r.push((entries[i].surface.clone(), entries[i].cost));
            proof {
                assert(cost_views(r@) =~= before.push(
                    (entries@[i as int]@.surface, entries@[i as int].cost),
                ));
            }
        }
        i = i + 1;
    }
    proof {
        assert(s.take(s.len() as int) =~= s);
    }
    r
}

} // verus!
