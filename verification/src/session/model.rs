//! What a session does, as functions from state and key to state and answer.

use vstd::prelude::*;
use vstd::utf8;

use super::types::{
    ActionView, CandidateRequestView, ConversionMode, GhostRequestView, MarkedView, Response,
    SideEffects, Submode,
};
use crate::candidates::{self, CandidateView, Lexicon};
use crate::converter::convert;
use crate::converter::cost;
use crate::converter::viterbi::SegmentText;
use crate::romaji::convert::{self as romaji, KanaView};
use crate::romaji::trie::{self, LookupView};
use crate::seqs;

verus! {

/// Virtual key codes.
pub const ENTER: u16 = 36;

pub const TAB: u16 = 48;

pub const SPACE: u16 = 49;

pub const BACKSPACE: u16 = 51;

pub const ESCAPE: u16 = 53;

pub const YEN: u16 = 93;

pub const EISU: u16 = 102;

pub const KANA: u16 = 104;

pub const DOWN: u16 = 125;

pub const UP: u16 = 126;

/// The flag of the shift key.
pub const FLAG_SHIFT: u8 = 1;

/// The flag of the other modifier keys.
pub const FLAG_HAS_MODIFIER: u8 = 2;

/// Kana of this many bytes is committed before more is added.
pub const MAX_COMPOSED_KANA_LENGTH: usize = 100;

/// How many candidates are generated.
pub const MAX_CANDIDATES: usize = 20;

/// How often in a row the first segment has to stay before it is committed.
pub const STABLE_COUNT: usize = 3;

/// How many segments a conversion has to have before the first is committed.
pub const STABLE_SEGMENTS: usize = 4;

/// What is being composed.
pub struct CompView {
    pub submode: Submode,
    /// Resolved kana, or English text.
    pub kana: Seq<char>,
    /// Romaji that is not resolved yet.
    pub pending: Seq<char>,
    /// Text of earlier submodes, in front of the kana.
    pub prefix: Seq<char>,
    /// Whether the prefix ends with a space that was put there by a toggle.
    pub boundary_space: bool,
    pub surfaces: Seq<Seq<char>>,
    pub paths: Seq<Seq<SegmentText>>,
    pub selected: usize,
    /// The reading of the first segment, and how often in a row it came.
    pub first_reading: Option<Seq<char>>,
    pub stable: usize,
}

/// The state of a session.
pub struct State {
    pub comp: Option<CompView>,
    pub idle_submode: Submode,
    pub programmer_mode: bool,
    pub defer_candidates: bool,
    pub mode: ConversionMode,
    pub records: Seq<Seq<(Seq<char>, Seq<char>)>>,
    pub ghost_text: Option<Seq<char>>,
    pub ghost_generation: u64,
}

/// Text with letters beyond ASCII in lower case.
pub uninterp spec fn lowercase(s: Seq<char>) -> Seq<char>;

/// Whether a text is ASCII.
pub open spec fn all_ascii(s: Seq<char>) -> bool {
    forall|i: int| 0 <= i < s.len() ==> (#[trigger] s[i] as u32) < 0x80
}

/// An ASCII character in lower case.
pub open spec fn ascii_lower(c: char) -> char {
    if 'A' <= c <= 'Z' {
        (c as u32 + 32) as char
    } else {
        c
    }
}

/// Text in lower case.
pub open spec fn lowered(s: Seq<char>) -> Seq<char> {
    if all_ascii(s) {
        Seq::new(s.len(), |i: int| ascii_lower(s[i]))
    } else {
        lowercase(s)
    }
}

impl CompView {
    pub open spec fn fresh(submode: Submode) -> CompView {
        CompView {
            submode,
            kana: Seq::empty(),
            pending: Seq::empty(),
            prefix: Seq::empty(),
            boundary_space: false,
            surfaces: Seq::empty(),
            paths: Seq::empty(),
            selected: 0,
            first_reading: None,
            stable: 0,
        }
    }

    /// Whether a candidate is selected.
    pub open spec fn has_selection(self) -> bool {
        self.selected < self.surfaces.len()
    }

    /// What is shown: the prefix, the selected candidate or the kana, and the
    /// pending romaji.
    pub open spec fn display(self) -> Seq<char> {
        self.prefix + (self.current() + self.pending)
    }

    /// The selected candidate, or the kana.
    pub open spec fn current(self) -> Seq<char> {
        if self.submode == Submode::Japanese && self.has_selection() {
            self.surfaces[self.selected as int]
        } else {
            self.kana
        }
    }

    /// The prefix with what is composed behind it; a space that a toggle put
    /// between the two goes.
    pub open spec fn crystallized(self) -> Seq<char> {
        let before = if self.boundary_space && self.prefix.len() > 0 && self.prefix.last() == ' ' {
            self.prefix.drop_last()
        } else {
            self.prefix
        };
        before + self.current()
    }

    pub open spec fn without_candidates(self) -> CompView {
        CompView { surfaces: Seq::empty(), paths: Seq::empty(), selected: 0, ..self }
    }

    pub open spec fn unstable(self) -> CompView {
        CompView { first_reading: None, stable: 0, ..self }
    }

    /// Counts how often in a row the first segment of the best conversion stays.
    pub open spec fn counted(self) -> CompView {
        if self.paths.len() == 0 || self.paths[0].len() < 2 {
            self.unstable()
        } else {
            let reading = self.paths[0][0].reading;
            if self.first_reading == Some(reading) {
                CompView {
                    stable: if self.stable < usize::MAX {
                        (self.stable + 1) as usize
                    } else {
                        self.stable
                    },
                    ..self
                }
            } else {
                CompView { first_reading: Some(reading), stable: 1, ..self }
            }
        }
    }

    /// Resolves pending romaji.
    pub open spec fn drained(self, force: bool) -> CompView {
        let k = romaji::romaji_converted(
            trie::romaji_table(),
            KanaView { composed: self.kana, pending: self.pending },
            force,
        );
        CompView { kana: k.composed, pending: k.pending, ..self }
    }

    /// New candidates, the first of them selected.
    pub open spec fn with_candidates(self, c: CandidateView) -> CompView {
        CompView { surfaces: c.surfaces, paths: c.paths, selected: 0, ..self }
    }

    /// Generates candidates for the kana.
    pub open spec fn updated(self, lex: Lexicon, mode: ConversionMode) -> CompView {
        if self.kana.len() == 0 {
            self.without_candidates().unstable()
        } else {
            self.with_candidates(generated(lex, mode, self.kana)).counted()
        }
    }

    /// Generates candidates for the kana, if there are none yet.
    pub open spec fn ensured(self, lex: Lexicon, mode: ConversionMode) -> CompView {
        if self.surfaces.len() == 0 && self.kana.len() > 0 {
            self.updated(lex, mode)
        } else {
            self
        }
    }
}

/// The candidates that a mode generates.
pub open spec fn generated(lex: Lexicon, mode: ConversionMode, reading: Seq<char>) -> CandidateView {
    if mode == ConversionMode::Predictive {
        candidates::prediction_candidates(lex, reading, MAX_CANDIDATES as nat)
    } else {
        candidates::candidates(lex, reading, MAX_CANDIDATES as nat)
    }
}

pub open spec fn flipped(m: Submode) -> Submode {
    match m {
        Submode::Japanese => Submode::English,
        Submode::English => Submode::Japanese,
    }
}

/// Whether a space goes between text of submode `from` and the other submode.
pub open spec fn wants_space(from: Submode, text: Seq<char>) -> bool {
    text.len() > 0 && if from == Submode::Japanese {
        text.last() as u32 >= 0x80
    } else {
        (text.last() as u32) < 0x80 && text.last() != ' '
    }
}

pub open spec fn marked(text: Seq<char>, dashed: bool) -> Option<MarkedView> {
    Some(MarkedView { text, dashed })
}

pub open spec fn next_generation(g: u64) -> u64 {
    if g == u64::MAX {
        0
    } else {
        (g + 1) as u64
    }
}

/// The pairs of a path.
pub open spec fn path_pairs(path: Seq<SegmentText>) -> Seq<(Seq<char>, Seq<char>)> {
    Seq::new(path.len(), |i: int| (path[i].reading, path[i].surface))
}

pub open spec fn reads_as(surface: Seq<char>) -> spec_fn(Seq<SegmentText>) -> bool {
    |path: Seq<SegmentText>| candidates::surface_of(path) == surface
}

/// What is recorded of a choice: the pair, and the segments of the conversion
/// that it was, if there are several.
pub open spec fn with_choice(
    records: Seq<Seq<(Seq<char>, Seq<char>)>>,
    paths: Seq<Seq<SegmentText>>,
    reading: Seq<char>,
    surface: Seq<char>,
) -> Seq<Seq<(Seq<char>, Seq<char>)>> {
    let whole = records.push(seq![(reading, surface)]);
    let i = seqs::first_place(paths, reads_as(surface));
    if i < paths.len() && paths[i].len() > 1 {
        whole.push(path_pairs(paths[i]))
    } else {
        whole
    }
}

/// Whether a text starts with a printable ASCII character.
pub open spec fn is_printable(text: Seq<char>) -> bool {
    text.len() > 0 && 0x20 <= text[0] as u32 && (text[0] as u32) < 0x7F
}

/// Whether a text is romaji input: a hyphen, or one that starts with a Latin
/// letter.
pub open spec fn romaji_input(text: Seq<char>) -> bool {
    text == "-"@ || (text.len() > 0 && ('a' <= text[0] <= 'z' || 'A' <= text[0] <= 'Z'))
}

/// Whether a text is a romaji sequence of its own.
pub open spec fn is_sequence(text: Seq<char>) -> bool {
    trie::romaji_table().contains_key(text)
}

/// How many segments are committed together, from `n` on: those that are ASCII
/// stay together, but the last segment stays.
pub open spec fn ascii_run(path: Seq<SegmentText>, n: int) -> int
    decreases path.len() - n,
{
    if 0 <= n < path.len() - 1 && all_ascii(path[n].surface) {
        ascii_run(path, n + 1)
    } else {
        n
    }
}

pub open spec fn commit_count(path: Seq<SegmentText>) -> int {
    if all_ascii(path[0].surface) {
        ascii_run(path, 1)
    } else {
        1
    }
}

pub open spec fn reading_of(path: Seq<SegmentText>) -> Seq<char>
    decreases path.len(),
{
    if path.len() == 0 {
        Seq::empty()
    } else {
        reading_of(path.drop_last()) + path.last().reading
    }
}

/// The surfaces of what conversions leave behind their first `n` segments.
pub open spec fn remainders(paths: Seq<Seq<SegmentText>>, n: int) -> Seq<Seq<char>>
    decreases paths.len(),
{
    if paths.len() == 0 {
        Seq::empty()
    } else {
        let rest = remainders(paths.drop_last(), n);
        let path = paths.last();
        if path.len() > n && candidates::surface_of(path.skip(n)).len() > 0 {
            rest.push(candidates::surface_of(path.skip(n)))
        } else {
            rest
        }
    }
}

impl State {
    pub open spec fn initial() -> State {
        State {
            comp: None,
            idle_submode: Submode::Japanese,
            programmer_mode: false,
            defer_candidates: false,
            mode: ConversionMode::Standard,
            records: Seq::empty(),
            ghost_text: None,
            ghost_generation: 0,
        }
    }

    pub open spec fn with_comp(self, c: CompView) -> State {
        State { comp: Some(c), ..self }
    }

    /// Back to where nothing is composed.
    pub open spec fn idle(self) -> State {
        State { comp: None, idle_submode: Submode::Japanese, ..self }
    }

    pub open spec fn submode(self) -> Submode {
        match self.comp {
            Some(c) => c.submode,
            None => self.idle_submode,
        }
    }

    /// Commits prefix and kana as they are.
    pub open spec fn commit_composed(self) -> (State, Response) {
        let c = self.comp->0;
        let text = c.prefix + c.kana;
        (
            self.idle(),
            if text.len() > 0 {
                Response { commit: Some(text), ..Response::consumed() }
            } else {
                Response { marked: marked(Seq::empty(), false), ..Response::consumed() }
            },
        )
    }

    /// Commits what is composed: the selected candidate, or the kana.
    pub open spec fn commit(self, lex: Lexicon) -> (State, Response) {
        match self.comp {
            None => (self, Response::consumed()),
            Some(c0) => {
                let c = c0.drained(true);
                let chosen = c.has_selection();
                let surface = c.surfaces[c.selected as int];
                let text = if chosen {
                    c.prefix + surface
                } else {
                    c.prefix + c.kana
                };
                let committed = chosen || c.kana.len() > 0 || c.prefix.len() > 0;
                let asks = self.mode == ConversionMode::GhostText && committed;
                let generation = if asks {
                    next_generation(self.ghost_generation)
                } else {
                    self.ghost_generation
                };
                (
                    State {
                        records: if chosen && lex.history is Some {
                            with_choice(self.records, c.paths, c.kana, surface)
                        } else {
                            self.records
                        },
                        ghost_generation: generation,
                        ..self.idle()
                    },
                    Response {
                        commit: if committed {
                            Some(text)
                        } else {
                            None
                        },
                        marked: if committed {
                            None
                        } else {
                            marked(Seq::empty(), false)
                        },
                        candidates: ActionView::Hide,
                        side_effects: SideEffects { switch_to_abc: false, save_history: chosen },
                        ghost_request: if asks {
                            Some(GhostRequestView { context: text, generation })
                        } else {
                            None
                        },
                        ..Response::consumed()
                    },
                )
            },
        }
    }

    /// Shows what is composed.
    pub open spec fn shown(self) -> Response {
        let c = self.comp->0;
        Response {
            marked: marked(c.display(), c.submode == Submode::English),
            ..Response::consumed()
        }
    }

    /// The panel with the candidates, if there are any.
    pub open spec fn panel(self) -> ActionView {
        let c = self.comp->0;
        if c.surfaces.len() > 0 {
            ActionView::Show { surfaces: c.surfaces, selected: c.selected as u32 }
        } else {
            ActionView::Keep
        }
    }

    /// Shows what is composed with its candidates, or commits what is stable.
    pub open spec fn shown_with_candidates(self, lex: Lexicon) -> (State, Response) {
        if !self.defer_candidates && self.stable_enough() {
            self.auto_commit(lex)
        } else {
            (self, Response { candidates: self.panel(), ..self.shown() })
        }
    }

    /// Shows the selected candidate.
    pub open spec fn shown_selection(self) -> Response {
        let c = self.comp->0;
        Response {
            marked: marked(c.display(), false),
            candidates: ActionView::Show { surfaces: c.surfaces, selected: c.selected as u32 },
            ..Response::consumed()
        }
    }

    /// Shows the best conversion and asks for the other candidates.
    pub open spec fn deferred(self, lex: Lexicon) -> (State, Response) {
        let c = self.comp->0;
        if c.kana.len() > 0 {
            let best = convert::converted(
                lex.words,
                cost::default_model(lex.conn),
                lex.conn,
                None,
                c.kana,
            );
            let s = self.with_comp(
                c.with_candidates(
                    CandidateView {
                        surfaces: seq![candidates::surface_of(best)],
                        paths: seq![best],
                    },
                ),
            );
            (
                s,
                Response {
                    async_request: Some(
                        CandidateRequestView { reading: c.kana, dispatch: self.mode.dispatch() },
                    ),
                    ..s.shown()
                },
            )
        } else {
            let s = self.with_comp(c.without_candidates());
            (s, s.shown())
        }
    }

    /// Whether the first segment is committed by itself: it has stayed for a
    /// while, enough follows it, and the user is not choosing.
    pub open spec fn stable_enough(self) -> bool {
        let c = self.comp->0;
        &&& self.mode == ConversionMode::Standard
        &&& c.stable >= STABLE_COUNT
        &&& c.paths.len() > 0
        &&& c.paths[0].len() >= STABLE_SEGMENTS
        &&& c.selected == 0
        &&& c.pending.len() == 0
        &&& reading_of(c.paths[0].take(commit_count(c.paths[0]))).is_prefix_of(c.kana)
    }

    /// Commits the first segment, and goes on with the rest.
    pub open spec fn auto_commit(self, lex: Lexicon) -> (State, Response) {
        let c = self.comp->0;
        let n = commit_count(c.paths[0]);
        let head = c.paths[0].take(n);
        let reading = reading_of(head);
        let surface = candidates::surface_of(head);
        let records1 = if surface != reading {
            self.records.push(seq![(reading, surface)])
        } else {
            self.records
        };
        let records = if n > 1 {
            records1.push(path_pairs(head))
        } else {
            records1
        };
        let rest = CompView {
            kana: c.kana.skip(reading.len() as int),
            prefix: Seq::empty(),
            boundary_space: false,
            ..c.unstable()
        };
        let response = Response {
            commit: Some(c.prefix + surface),
            side_effects: SideEffects { switch_to_abc: false, save_history: true },
            ..Response::consumed()
        };
        let s = State { records, ..self };
        if rest.kana.len() == 0 {
            (
                s.with_comp(rest.without_candidates()),
                Response {
                    candidates: ActionView::Hide,
                    marked: marked(Seq::empty(), false),
                    ..response
                },
            )
        } else if self.defer_candidates {
            let provisional = seqs::distinct(remainders(c.paths, n).push(rest.kana));
            (
                s.with_comp(
                    CompView { surfaces: provisional, ..rest.without_candidates() },
                ),
                Response {
                    marked: marked(provisional[0], false),
                    async_request: Some(
                        CandidateRequestView {
                            reading: rest.kana,
                            dispatch: self.mode.dispatch(),
                        },
                    ),
                    candidates: ActionView::Show { surfaces: provisional, selected: 0 },
                    ..response
                },
            )
        } else {
            let s2 = s.with_comp(rest.updated(lex, self.mode));
            let u = s2.comp->0;
            (
                s2,
                Response {
                    marked: marked(
                        if u.surfaces.len() > 0 {
                            u.surfaces[0]
                        } else {
                            rest.kana
                        },
                        c.submode == Submode::English,
                    ),
                    candidates: s2.panel(),
                    ..response
                },
            )
        }
    }

    /// Adds romaji to what is composed.
    pub open spec fn append(self, lex: Lexicon, input: Seq<char>) -> (State, Response) {
        let c = self.comp->0;
        if utf8::encode_utf8(c.kana).len() >= MAX_COMPOSED_KANA_LENGTH {
            let (s1, r1) = self.commit_composed();
            let s2 = s1.with_comp(
                CompView { pending: input, ..CompView::fresh(Submode::Japanese) }.drained(false),
            );
            let (s3, r3) = if self.defer_candidates {
                s2.deferred(lex)
            } else {
                s2.refreshed(lex)
            };
            (s3, r1.with_display_from(r3))
        } else {
            let s = self.with_comp(
                CompView { pending: c.pending + input, boundary_space: false, ..c }.drained(false),
            );
            if !self.defer_candidates {
                s.refreshed(lex)
            } else if s.comp->0.pending.len() == 0 {
                s.deferred(lex)
            } else {
                (s, s.shown())
            }
        }
    }

    /// Generates candidates unless romaji is pending, and shows them.
    pub open spec fn refreshed(self, lex: Lexicon) -> (State, Response) {
        let c = self.comp->0;
        if c.pending.len() == 0 {
            self.with_comp(c.updated(lex, self.mode)).shown_with_candidates(lex)
        } else {
            self.shown_with_candidates(lex)
        }
    }

    /// Takes a suggestion over.
    pub open spec fn accept_ghost(self) -> (State, Response) {
        let text = self.ghost_text->0;
        let generation = next_generation(self.ghost_generation);
        (
            State { ghost_text: None, ghost_generation: generation, ..self },
            Response {
                commit: Some(text),
                ghost_request: Some(GhostRequestView { context: text, generation }),
                ..Response::consumed()
            },
        )
    }

    /// Switches between Japanese and English; what was composed becomes prefix.
    pub open spec fn toggle(self, lex: Lexicon) -> (State, Response) {
        let from = self.submode();
        let to = flipped(from);
        match self.comp {
            None => (State { idle_submode: to, ..self }, Response::consumed()),
            Some(c0) => {
                let c = if c0.pending.len() > 0 {
                    c0.drained(true)
                } else {
                    c0
                };
                let chosen = from == Submode::Japanese && c.has_selection();
                let text = c.crystallized();
                let spaced = self.programmer_mode && wants_space(from, text);
                let prefix = if spaced {
                    text.push(' ')
                } else {
                    text
                };
                let s = State {
                    comp: Some(
                        CompView { prefix, boundary_space: spaced, ..CompView::fresh(to) },
                    ),
                    records: if chosen && lex.history is Some {
                        with_choice(self.records, c.paths, c.kana, c.current())
                    } else {
                        self.records
                    },
                    ..self
                };
                (
                    s,
                    Response {
                        marked: if prefix.len() > 0 {
                            marked(prefix, to == Submode::English)
                        } else {
                            None
                        },
                        candidates: ActionView::Hide,
                        side_effects: SideEffects {
                            switch_to_abc: false,
                            save_history: s.records.len() > 0,
                        },
                        ..Response::consumed()
                    },
                )
            },
        }
    }

    /// Takes the last character away.
    pub open spec fn backspace(self, lex: Lexicon) -> (State, Response) {
        let c0 = self.comp->0;
        let c = if c0.pending.len() > 0 {
            CompView { pending: c0.pending.drop_last(), ..c0 }
        } else if c0.kana.len() > 0 {
            CompView { kana: c0.kana.drop_last(), ..c0 }
        } else if c0.prefix.len() > 0 {
            CompView { prefix: c0.prefix.drop_last(), ..c0 }
        } else {
            c0
        };
        let s = self.with_comp(c);
        if c.kana.len() == 0 && c.pending.len() == 0 && c.prefix.len() == 0 {
            (
                self.idle(),
                Response {
                    candidates: ActionView::Hide,
                    marked: marked(Seq::empty(), false),
                    ..Response::consumed()
                },
            )
        } else if c.kana.len() == 0 && c.pending.len() == 0 {
            let s2 = s.with_comp(c.without_candidates());
            (s2, Response { candidates: ActionView::Hide, ..s2.shown() })
        } else if c.submode == Submode::English {
            s.shown_with_candidates(lex)
        } else if self.defer_candidates {
            s.deferred(lex)
        } else {
            s.with_comp(c.updated(lex, self.mode)).shown_with_candidates(lex)
        }
    }

    /// Adds text as it is.
    pub open spec fn typed(self, text: Seq<char>) -> (State, Response) {
        let c = self.comp->0;
        let s = self.with_comp(CompView { kana: c.kana + text, boundary_space: false, ..c });
        (s, s.shown())
    }

    /// A key while nothing is composed.
    pub open spec fn idle_key(self, lex: Lexicon, key: u16, text: Seq<char>) -> (State, Response) {
        if key == TAB {
            if self.ghost_text is Some && self.mode == ConversionMode::GhostText {
                self.accept_ghost()
            } else {
                self.toggle(lex)
            }
        } else if self.idle_submode == Submode::English {
            if is_printable(text) {
                self.with_comp(CompView::fresh(Submode::English)).typed(text)
            } else {
                (self, Response::not_consumed())
            }
        } else if romaji_input(text) {
            self.with_comp(CompView::fresh(Submode::Japanese)).append(lex, lowered(text))
        } else if is_sequence(text) {
            self.with_comp(CompView::fresh(Submode::Japanese)).append(lex, text)
        } else {
            (self, Response::not_consumed())
        }
    }

    /// Selects another candidate, `forward` or back.
    pub open spec fn cycled(self, selected: usize) -> (State, Response) {
        let c = self.comp->0;
        let s = self.with_comp(CompView { selected, ..c });
        (s, s.shown_selection())
    }

    /// A key while something is composed.
    pub open spec fn composing_key(self, lex: Lexicon, key: u16, text: Seq<char>) -> (
        State,
        Response,
    ) {
        let c = self.comp->0;
        let e = c.ensured(lex, self.mode);
        let s = self.with_comp(e);
        let n = e.surfaces.len() as int;
        if key == ENTER {
            if c.submode == Submode::English {
                let (s1, r1) = self.commit_composed();
                (s1, Response { candidates: ActionView::Hide, ..r1 })
            } else {
                s.commit(lex)
            }
        } else if key == SPACE {
            if c.submode == Submode::English {
                let s1 = self.with_comp(CompView { kana: c.kana.push(' '), ..c });
                (s1, s1.shown())
            } else if n == 0 {
                (s, Response::consumed())
            } else if e.selected == 0 && n > 1 {
                s.cycled(1)
            } else {
                s.cycled(cyclic(e.selected as int, 1, n) as usize)
            }
        } else if key == DOWN {
            if n == 0 {
                (s, Response::consumed())
            } else {
                s.cycled(cyclic(e.selected as int, 1, n) as usize)
            }
        } else if key == UP {
            if n == 0 {
                (s, Response::consumed())
            } else {
                s.cycled(cyclic(e.selected as int, -1, n) as usize)
            }
        } else if key == TAB {
            if self.mode == ConversionMode::Standard {
                self.toggle(lex)
            } else {
                s.commit(lex)
            }
        } else if key == BACKSPACE {
            self.backspace(lex)
        } else if key == ESCAPE {
            let f = c.drained(true);
            let records = if f.submode == Submode::Japanese && f.kana.len() > 0
                && lex.history is Some {
                with_choice(self.records, f.paths, f.kana, f.kana)
            } else {
                self.records
            };
            (
                State { comp: Some(f.without_candidates()), records, ..self },
                Response {
                    candidates: ActionView::Hide,
                    side_effects: SideEffects {
                        switch_to_abc: false,
                        save_history: records.len() > 0,
                    },
                    ..Response::consumed()
                },
            )
        } else {
            self.composing_text(lex, text)
        }
    }

    /// Text while something is composed.
    pub open spec fn composing_text(self, lex: Lexicon, text: Seq<char>) -> (State, Response) {
        let c = self.comp->0;
        if c.submode == Submode::English {
            if is_printable(text) {
                self.typed(text)
            } else {
                (self, Response::consumed())
            }
        } else if c.pending.len() > 0 && trie::known(trie::romaji_table(), c.pending + text)
            != LookupView::NoMatch {
            self.append(lex, text)
        } else if romaji_input(text) {
            if 0 < c.selected && c.has_selection() {
                let (s1, r1) = self.commit(lex);
                let (s2, r2) = s1.with_comp(CompView::fresh(Submode::Japanese)).append(
                    lex,
                    lowered(text),
                );
                (s2, r1.with_display_from(r2))
            } else {
                self.append(lex, lowered(text))
            }
        } else if is_sequence(text) {
            let (s1, r1) = self.commit(lex);
            let kana = romaji::romaji_converted(
                trie::romaji_table(),
                KanaView { composed: Seq::empty(), pending: text },
                true,
            ).composed;
            (s1, with_more(r1, kana))
        } else {
            let s = self.with_comp(CompView { kana: c.kana + text, ..c });
            if self.defer_candidates {
                s.deferred(lex)
            } else {
                s.with_comp(s.comp->0.updated(lex, self.mode)).shown_with_candidates(lex)
            }
        }
    }

    /// A key.
    pub open spec fn key(self, lex: Lexicon, key: u16, text: Seq<char>, flags: u8) -> (
        State,
        Response,
    ) {
        let clears = self.ghost_text is Some && key != TAB;
        let s = if clears {
            State { ghost_text: None, ..self }
        } else {
            self
        };
        let (s1, r1) = if key == EISU {
            let (s2, r2) = s.commit(lex);
            (
                s2,
                Response {
                    side_effects: SideEffects { switch_to_abc: true, ..r2.side_effects },
                    ..r2
                },
            )
        } else if key == KANA {
            (s, Response::consumed())
        } else if has_modifier(flags) {
            if s.comp is Some {
                let (s2, r2) = s.commit(lex);
                (s2, Response { consumed: false, ..r2 })
            } else {
                (s, Response::not_consumed())
            }
        } else if key == YEN && s.programmer_mode && !has_shift(flags) {
            let (s2, r2) = s.commit(lex);
            (s2, with_more(r2, seq!['\\']))
        } else if s.comp is Some {
            s.composing_key(lex, key, text)
        } else {
            s.idle_key(lex, key, text)
        };
        (
            s1,
            if clears {
                Response { ghost_text: Some(Seq::empty()), ..r1 }
            } else {
                r1
            },
        )
    }

    /// Whether candidates for `reading` are still wanted.
    pub open spec fn awaits(self, reading: Seq<char>) -> bool {
        self.comp is Some && self.comp->0.kana == reading && self.comp->0.submode
            == Submode::Japanese
    }

    /// Candidates that were asked for.
    pub open spec fn received(self, lex: Lexicon, c: CandidateView) -> (State, Response) {
        let s = self.with_comp(self.comp->0.with_candidates(c).counted());
        if s.stable_enough() {
            s.auto_commit(lex)
        } else {
            (s, Response { candidates: s.panel(), ..s.shown() })
        }
    }

    /// Whether a suggestion of this generation is still wanted.
    pub open spec fn awaits_ghost(self, generation: u64) -> bool {
        generation == self.ghost_generation && self.comp is None && self.mode
            == ConversionMode::GhostText
    }
}

/// Committed text with more behind it.
pub open spec fn with_more(r: Response, more: Seq<char>) -> Response {
    if more.len() == 0 {
        r
    } else {
        Response {
            commit: match r.commit {
                Some(t) => Some(t + more),
                None => Some(more),
            },
            ..r
        }
    }
}

pub open spec fn has_modifier(flags: u8) -> bool {
    flags & FLAG_HAS_MODIFIER != 0
}

pub open spec fn has_shift(flags: u8) -> bool {
    flags & FLAG_SHIFT != 0
}

/// The place `delta` places on from `current` in a circle of `count`.
pub open spec fn cyclic(current: int, delta: int, count: int) -> int {
    if count <= 0 {
        0
    } else {
        (current + delta + count) % count
    }
}

} // verus!
