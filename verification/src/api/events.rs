//! Answers as streams of events, and keys as callers name them.

use vstd::prelude::*;

use crate::romaji::convert::{self as romaji, KanaView};
use crate::romaji::trie::{self, LookupView};
use crate::romaji::{convert_romaji, RomajiTrie, TrieLookupResult};
use crate::session::types::{
    ActionView, CandidateAction, ConversionMode, KeyResponse, Response,
};
use crate::text;

verus! {

/// One thing that a caller has to do.
#[derive(Debug)]
pub enum LexEvent {
    Commit { text: String },
    SetMarkedText { text: String },
    ShowCandidates { surfaces: Vec<String>, selected: u32 },
    HideCandidates,
    SwitchToAbc,
}

/// What a `LexEvent` holds.
pub enum EventView {
    Commit { text: Seq<char> },
    SetMarkedText { text: Seq<char> },
    ShowCandidates { surfaces: Seq<Seq<char>>, selected: u32 },
    HideCandidates,
    SwitchToAbc,
}

impl View for LexEvent {
    type V = EventView;

    open spec fn view(&self) -> EventView {
        match *self {
            LexEvent::Commit { text } => EventView::Commit { text: text@ },
            LexEvent::SetMarkedText { text } => EventView::SetMarkedText { text: text@ },
            LexEvent::ShowCandidates { surfaces, selected } => EventView::ShowCandidates {
                surfaces: text::views(surfaces@),
                selected,
            },
            LexEvent::HideCandidates => EventView::HideCandidates,
            LexEvent::SwitchToAbc => EventView::SwitchToAbc,
        }
    }
}

/// An answer as events, with the epoch of the session that it reflects.
pub struct LexKeyResponse {
    pub consumed: bool,
    pub epoch: u64,
    pub events: Vec<LexEvent>,
}

/// The events of an answer, in the order in which they are applied: what is
/// committed comes before what is marked, since a commit ends the marked text.
pub open spec fn events_of(r: Response) -> Seq<EventView> {
    let commit = match r.commit {
        Some(text) => seq![EventView::Commit { text }],
        None => Seq::empty(),
    };
    let marked = match r.marked {
        Some(m) => seq![EventView::SetMarkedText { text: m.text }],
        None => Seq::empty(),
    };
    let panel = match r.candidates {
        ActionView::Show { surfaces, selected } => seq![
            EventView::ShowCandidates { surfaces, selected },
        ],
        ActionView::Hide => seq![EventView::HideCandidates],
        ActionView::Keep => Seq::empty(),
    };
    let switch = if r.side_effects.switch_to_abc {
        seq![EventView::SwitchToAbc]
    } else {
        Seq::empty()
    };
    commit + marked + panel + switch
}

/// Turns an answer into events.
pub fn convert_to_events(resp: KeyResponse, epoch: u64) -> (r: LexKeyResponse)
    ensures
        r.consumed == resp.consumed,
        r.epoch == epoch,
        text::views(r.events@) == events_of(resp@),
{
    let ghost rv = resp@;
    let mut events: Vec<LexEvent> = Vec::new();
    if let Some(text) = resp.commit {
        events.push(LexEvent::Commit { text });
    }
    if let Some(m) = resp.marked {
        events.push(LexEvent::SetMarkedText { text: m.text });
    }
    match resp.candidates {
        CandidateAction::Show { surfaces, selected } => {
            events.push(LexEvent::ShowCandidates { surfaces, selected });
        },
        CandidateAction::Hide => {
            events.push(LexEvent::HideCandidates);
        },
        CandidateAction::Keep => {},
    }
    if resp.side_effects.switch_to_abc {
        events.push(LexEvent::SwitchToAbc);
    }
    proof {
        assert(text::views(events@) =~= events_of(rv));
    }
    LexKeyResponse { consumed: resp.consumed, epoch, events }
}

/// Committed text comes before marked text.
pub proof fn commit_comes_before_marked_text(r: Response, i: int, j: int)
    requires
        0 <= i < events_of(r).len(),
        0 <= j < events_of(r).len(),
        events_of(r)[i] is Commit,
        events_of(r)[j] is SetMarkedText,
    ensures
        i < j,
{
}

/// A key as a caller names it.
pub enum LexKeyEvent {
    Text { text: String, shift: bool },
    Remapped { text: String, shift: bool },
    Enter,
    Space,
    Backspace,
    Escape,
    Tab,
    ArrowDown,
    ArrowUp,
    SwitchToDirectInput,
    SwitchToJapanese,
    ForwardDelete,
    ModifiedKey,
    SnippetTrigger,
}

/// A key as a session takes it.
pub enum KeyEvent {
    Text { text: String, shift: bool },
    Remapped { text: String, shift: bool },
    Enter,
    Space,
    Backspace,
    Escape,
    Tab,
    ArrowDown,
    ArrowUp,
    SwitchToDirectInput,
    SwitchToJapanese,
    ForwardDelete,
    ModifiedKey,
    SnippetTrigger,
}

pub open spec fn key_event(e: LexKeyEvent) -> KeyEvent {
    match e {
        LexKeyEvent::Text { text, shift } => KeyEvent::Text { text, shift },
        LexKeyEvent::Remapped { text, shift } => KeyEvent::Remapped { text, shift },
        LexKeyEvent::Enter => KeyEvent::Enter,
        LexKeyEvent::Space => KeyEvent::Space,
        LexKeyEvent::Backspace => KeyEvent::Backspace,
        LexKeyEvent::Escape => KeyEvent::Escape,
        LexKeyEvent::Tab => KeyEvent::Tab,
        LexKeyEvent::ArrowDown => KeyEvent::ArrowDown,
        LexKeyEvent::ArrowUp => KeyEvent::ArrowUp,
        LexKeyEvent::SwitchToDirectInput => KeyEvent::SwitchToDirectInput,
        LexKeyEvent::SwitchToJapanese => KeyEvent::SwitchToJapanese,
        LexKeyEvent::ForwardDelete => KeyEvent::ForwardDelete,
        LexKeyEvent::ModifiedKey => KeyEvent::ModifiedKey,
        LexKeyEvent::SnippetTrigger => KeyEvent::SnippetTrigger,
    }
}

impl From<LexKeyEvent> for KeyEvent {
    fn from(e: LexKeyEvent) -> (r: Self) {
        match e {
            LexKeyEvent::Text { text, shift } => KeyEvent::Text { text, shift },
            LexKeyEvent::Remapped { text, shift } => KeyEvent::Remapped { text, shift },
            LexKeyEvent::Enter => KeyEvent::Enter,
            LexKeyEvent::Space => KeyEvent::Space,
            LexKeyEvent::Backspace => KeyEvent::Backspace,
            LexKeyEvent::Escape => KeyEvent::Escape,
            LexKeyEvent::Tab => KeyEvent::Tab,
            LexKeyEvent::ArrowDown => KeyEvent::ArrowDown,
            LexKeyEvent::ArrowUp => KeyEvent::ArrowUp,
            LexKeyEvent::SwitchToDirectInput => KeyEvent::SwitchToDirectInput,
            LexKeyEvent::SwitchToJapanese => KeyEvent::SwitchToJapanese,
            LexKeyEvent::ForwardDelete => KeyEvent::ForwardDelete,
            LexKeyEvent::ModifiedKey => KeyEvent::ModifiedKey,
            LexKeyEvent::SnippetTrigger => KeyEvent::SnippetTrigger,
        }
    }
}

impl vstd::std_specs::convert::FromSpecImpl<LexKeyEvent> for KeyEvent {
    open spec fn obeys_from_spec() -> bool {
        true
    }

    open spec fn from_spec(e: LexKeyEvent) -> Self {
        key_event(e)
    }
}

/// The modes that a caller chooses from.
#[derive(Debug, Clone, Copy, PartialEq, Eq, Structural)]
pub enum LexConversionMode {
    Standard,
    Predictive,
}

/// The mode of a session.
pub fn conversion_mode(mode: LexConversionMode) -> (r: ConversionMode)
    ensures
        r == match mode {
            LexConversionMode::Standard => ConversionMode::Standard,
            LexConversionMode::Predictive => ConversionMode::Predictive,
        },
{
    match mode {
        LexConversionMode::Standard => ConversionMode::Standard,
        LexConversionMode::Predictive => ConversionMode::Predictive,
    }
}

/// The mode of a number: 1 predictive, 2 with suggestions, else standard.
pub fn mode_of_number(mode: u8) -> (r: ConversionMode)
    ensures
        r == if mode == 1 {
            ConversionMode::Predictive
        } else if mode == 2 {
            ConversionMode::GhostText
        } else {
            ConversionMode::Standard
        },
{
    if mode == 1 {
        ConversionMode::Predictive
    } else if mode == 2 {
        ConversionMode::GhostText
    } else {
        ConversionMode::Standard
    }
}

/// What is known of a romaji sequence.
#[derive(Debug)]
pub enum LexRomajiLookup {
    NoMatch,
    Prefix,
    Exact { kana: String },
    ExactAndPrefix { kana: String },
}

pub open spec fn lookup_view(r: LexRomajiLookup) -> LookupView {
    match r {
        LexRomajiLookup::NoMatch => LookupView::NoMatch,
        LexRomajiLookup::Prefix => LookupView::Prefix,
        LexRomajiLookup::Exact { kana } => LookupView::Exact(kana@),
        LexRomajiLookup::ExactAndPrefix { kana } => LookupView::ExactAndPrefix(kana@),
    }
}

/// Looks a romaji sequence up.
pub fn romaji_lookup(romaji: &str) -> (r: LexRomajiLookup)
    ensures
        lookup_view(r) == trie::known(trie::romaji_table(), romaji@),
{
    let trie = RomajiTrie::global();
    match trie.lookup(romaji) {
        TrieLookupResult::NoMatch => LexRomajiLookup::NoMatch,
        TrieLookupResult::Prefix => LexRomajiLookup::Prefix,
        TrieLookupResult::Exact(kana) => LexRomajiLookup::Exact { kana },
        TrieLookupResult::ExactAndPrefix(kana) => LexRomajiLookup::ExactAndPrefix { kana },
    }
}

/// Kana, and romaji that is not resolved yet.
#[derive(Debug)]
pub struct LexRomajiConvert {
    pub composed_kana: String,
    pub pending_romaji: String,
}

/// Resolves pending romaji.
pub fn romaji_convert(kana: &str, pending: &str, force: bool) -> (r: LexRomajiConvert)
    ensures
        (KanaView { composed: r.composed_kana@, pending: r.pending_romaji@ })
            == romaji::romaji_converted(
            trie::romaji_table(),
            (KanaView { composed: kana@, pending: pending@ }),
            force,
        ),
{
    let result = convert_romaji(kana, pending, force);
    LexRomajiConvert {
        composed_kana: result.composed_kana,
        pending_romaji: result.pending_romaji,
    }
}

/// The key that opens the snippets.
#[derive(Debug)]
pub struct LexTriggerKey {
    pub char_: String,
    pub ctrl: bool,
    pub shift: bool,
    pub alt: bool,
    pub cmd: bool,
}

} // verus!
