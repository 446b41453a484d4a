//! What a session answers to a key.

use vstd::prelude::*;

use crate::text;

verus! {

/// How candidates are generated, what Tab does, and whether stable segments are
/// committed by themselves.
#[derive(Debug, Clone, Copy, PartialEq, Eq, Structural)]
pub enum ConversionMode {
    /// Conversions, predictions and lookups; Tab toggles the submode.
    Standard,
    /// Conversions continued by words that followed them; Tab commits.
    Predictive,
    /// As `Standard`, with text suggested behind a commit; Tab commits.
    GhostText,
}

/// What Tab does while composing.
#[derive(Debug, Clone, Copy, PartialEq, Eq, Structural)]
pub enum TabAction {
    ToggleSubmode,
    Commit,
}

impl ConversionMode {
    /// The number by which callers choose the generator of candidates.
    pub open spec fn dispatch(self) -> u8 {
        match self {
            ConversionMode::Standard => 0,
            ConversionMode::Predictive => 1,
            ConversionMode::GhostText => 2,
        }
    }

    /// The number by which callers choose the generator of candidates.
    pub fn candidate_dispatch(&self) -> (r: u8)
        ensures
            r == self.dispatch(),
    {
        match self {
            ConversionMode::Standard => 0,
            ConversionMode::Predictive => 1,
            ConversionMode::GhostText => 2,
        }
    }

    /// What Tab does while composing.
    pub fn tab_action(&self) -> (r: TabAction)
        ensures
            r == (if *self == ConversionMode::Standard {
                TabAction::ToggleSubmode
            } else {
                TabAction::Commit
            }),
    {
        match self {
            ConversionMode::Standard => TabAction::ToggleSubmode,
            ConversionMode::Predictive => TabAction::Commit,
            ConversionMode::GhostText => TabAction::Commit,
        }
    }

    /// Whether stable segments are committed by themselves.
    pub fn auto_commit_enabled(&self) -> (r: bool)
        ensures
            r == (*self == ConversionMode::Standard),
    {
        matches!(self, ConversionMode::Standard)
    }
}

/// Which script is typed.
#[derive(Debug, Clone, Copy, PartialEq, Eq, Structural)]
pub enum Submode {
    Japanese,
    English,
}

/// The text of an optional string.
pub open spec fn text_of(s: Option<String>) -> Option<Seq<char>> {
    match s {
        Some(t) => Some(t@),
        None => None,
    }
}

/// Text that is being composed, with the style of its underline.
pub struct MarkedText {
    pub text: String,
    pub dashed: bool,
}

pub struct MarkedView {
    pub text: Seq<char>,
    pub dashed: bool,
}

impl View for MarkedText {
    type V = MarkedView;

    open spec fn view(&self) -> MarkedView {
        MarkedView { text: self.text@, dashed: self.dashed }
    }
}

/// What becomes of the candidate panel.
pub enum CandidateAction {
    /// The panel stays as it is.
    Keep,
    /// The panel shows these surfaces.
    Show { surfaces: Vec<String>, selected: u32 },
    /// The panel is hidden.
    Hide,
}

pub enum ActionView {
    Keep,
    Show { surfaces: Seq<Seq<char>>, selected: u32 },
    Hide,
}

impl View for CandidateAction {
    type V = ActionView;

    open spec fn view(&self) -> ActionView {
        match *self {
            CandidateAction::Keep => ActionView::Keep,
            CandidateAction::Show { surfaces, selected } => ActionView::Show {
                surfaces: text::views(surfaces@),
                selected,
            },
            CandidateAction::Hide => ActionView::Hide,
        }
    }
}

/// A request to generate candidates elsewhere.
pub struct AsyncCandidateRequest {
    pub reading: String,
    pub candidate_dispatch: u8,
}

pub struct CandidateRequestView {
    pub reading: Seq<char>,
    pub dispatch: u8,
}

impl View for AsyncCandidateRequest {
    type V = CandidateRequestView;

    open spec fn view(&self) -> CandidateRequestView {
        CandidateRequestView { reading: self.reading@, dispatch: self.candidate_dispatch }
    }
}

/// What goes with an answer besides text.
#[derive(Debug, Clone, Copy, PartialEq, Eq, Structural)]
pub struct SideEffects {
    pub switch_to_abc: bool,
    pub save_history: bool,
}

impl Default for SideEffects {
    fn default() -> (r: Self)
        ensures
            r == (SideEffects { switch_to_abc: false, save_history: false }),
    {
        SideEffects { switch_to_abc: false, save_history: false }
    }
}

/// A request to suggest text behind a commit.
pub struct AsyncGhostRequest {
    pub context: String,
    pub generation: u64,
}

pub struct GhostRequestView {
    pub context: Seq<char>,
    pub generation: u64,
}

impl View for AsyncGhostRequest {
    type V = GhostRequestView;

    open spec fn view(&self) -> GhostRequestView {
        GhostRequestView { context: self.context@, generation: self.generation }
    }
}

/// The answer to a key.
pub struct KeyResponse {
    pub consumed: bool,
    pub commit: Option<String>,
    pub marked: Option<MarkedText>,
    pub candidates: CandidateAction,
    pub async_request: Option<AsyncCandidateRequest>,
    pub side_effects: SideEffects,
    /// `Some` of an empty text clears the suggestion, `None` leaves it.
    pub ghost_text: Option<String>,
    pub ghost_request: Option<AsyncGhostRequest>,
}

/// What a `KeyResponse` holds.
pub struct Response {
    pub consumed: bool,
    pub commit: Option<Seq<char>>,
    pub marked: Option<MarkedView>,
    pub candidates: ActionView,
    pub async_request: Option<CandidateRequestView>,
    pub side_effects: SideEffects,
    pub ghost_text: Option<Seq<char>>,
    pub ghost_request: Option<GhostRequestView>,
}

pub open spec fn marked_of(m: Option<MarkedText>) -> Option<MarkedView> {
    match m {
        Some(t) => Some(t@),
        None => None,
    }
}

pub open spec fn request_of(r: Option<AsyncCandidateRequest>) -> Option<CandidateRequestView> {
    match r {
        Some(t) => Some(t@),
        None => None,
    }
}

pub open spec fn ghost_request_of(r: Option<AsyncGhostRequest>) -> Option<GhostRequestView> {
    match r {
        Some(t) => Some(t@),
        None => None,
    }
}

impl View for KeyResponse {
    type V = Response;

    open spec fn view(&self) -> Response {
        Response {
            consumed: self.consumed,
            commit: text_of(self.commit),
            marked: marked_of(self.marked),
            candidates: self.candidates@,
            async_request: request_of(self.async_request),
            side_effects: self.side_effects,
            ghost_text: text_of(self.ghost_text),
            ghost_request: ghost_request_of(self.ghost_request),
        }
    }
}

impl Response {
    /// The key is left to the caller, and nothing changes.
    pub open spec fn not_consumed() -> Response {
        Response {
            consumed: false,
            commit: None,
            marked: None,
            candidates: ActionView::Keep,
            async_request: None,
            side_effects: SideEffects { switch_to_abc: false, save_history: false },
            ghost_text: None,
            ghost_request: None,
        }
    }

    /// The key is taken, and nothing changes.
    pub open spec fn consumed() -> Response {
        Response { consumed: true, ..Response::not_consumed() }
    }

    /// What is committed stays, what is shown comes from `other`.
    pub open spec fn with_display_from(self, other: Response) -> Response {
        Response {
            marked: other.marked,
            candidates: other.candidates,
            async_request: other.async_request,
            ..self
        }
    }
}

impl KeyResponse {
    pub fn not_consumed() -> (r: Self)
        ensures
            r@ == Response::not_consumed(),
    {
        KeyResponse {
            consumed: false,
            commit: None,
            marked: None,
            candidates: CandidateAction::Keep,
            async_request: None,
            side_effects: SideEffects { switch_to_abc: false, save_history: false },
            ghost_text: None,
            ghost_request: None,
        }
    }

    pub fn consumed() -> (r: Self)
        ensures
            r@ == Response::consumed(),
            r.side_effects == (SideEffects { switch_to_abc: false, save_history: false }),
    {
        KeyResponse {
            consumed: true,
            commit: None,
            marked: None,
            candidates: CandidateAction::Keep,
            async_request: None,
            side_effects: SideEffects { switch_to_abc: false, save_history: false },
            ghost_text: None,
            ghost_request: None,
        }
    }

    /// Keeps what is committed, and shows what `other` shows.
    pub fn with_display_from(self, other: KeyResponse) -> (r: KeyResponse)
        ensures
            r@ == self@.with_display_from(other@),
    {
        KeyResponse {
            consumed: self.consumed,
            commit: self.commit,
            marked: other.marked,
            candidates: other.candidates,
            async_request: other.async_request,
            side_effects: self.side_effects,
            ghost_text: self.ghost_text,
            ghost_request: self.ghost_request,
        }
    }
}

} // verus!
