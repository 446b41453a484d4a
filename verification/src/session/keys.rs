//! What each key does to what is composed.

use vstd::prelude::*;
use vstd::utf8;

use super::model::{self, CompView, State};
use super::types::{ActionView, ConversionMode, Submode};
use crate::candidates::{self, Lexicon};
use crate::converter::viterbi::SegmentText;
use crate::romaji::convert::{self as romaji, KanaView};
use crate::romaji::trie;
use crate::seqs;

verus! {

/// A key that stands for its text alone.
pub open spec fn types_text(key: u16) -> bool {
    &&& key != 36
    &&& key != 48
    &&& key != 49
    &&& key != 51
    &&& key != 53
    &&& key != 93
    &&& key != 102
    &&& key != 104
    &&& key != 125
    &&& key != 126
}

/// Whether no modifier but shift is held.
pub open spec fn unmodified(flags: u8) -> bool {
    flags & 2 == 0
}

/// The text is the Latin letter `letter`, in lower or in upper case.
pub open spec fn is_letter(text: Seq<char>, letter: char) -> bool {
    &&& text.len() == 1
    &&& 'a' <= letter <= 'z'
    &&& text[0] == letter || text[0] as int + 32 == letter as int
}

/// What romaji behind kana becomes as it is typed.
pub open spec fn resolves_to(kana: Seq<char>, pending: Seq<char>) -> KanaView {
    romaji::romaji_converted(
        trie::romaji_table(),
        KanaView { composed: kana, pending },
        false,
    )
}

/// What romaji behind kana becomes when it has to be resolved.
pub open spec fn resolves_at_once(kana: Seq<char>, pending: Seq<char>) -> Seq<char> {
    romaji::romaji_converted(
        trie::romaji_table(),
        KanaView { composed: kana, pending },
        true,
    ).composed
}

/// A surface was recorded for a reading behind the records that were there.
pub open spec fn records_choice(
    before: State,
    after: State,
    reading: Seq<char>,
    surface: Seq<char>,
) -> bool {
    &&& after.records.len() > before.records.len()
    &&& after.records.take(before.records.len() as int) == before.records
    &&& after.records[before.records.len() as int] == seq![(reading, surface)]
}

proof fn lemma_lowered(text: Seq<char>, letter: char)
    requires
        is_letter(text, letter),
    ensures
        model::lowered(text) == seq![letter],
        model::romaji_input(text),
{
    assert(model::lowered(text) =~= seq![letter]);
}

proof fn lemma_choice(
    records: Seq<Seq<(Seq<char>, Seq<char>)>>,
    c: CompView,
    reading: Seq<char>,
    surface: Seq<char>,
)
    ensures
        ({
            let r = model::with_choice(records, c.paths, reading, surface);
            &&& r.len() > records.len()
            &&& r.take(records.len() as int) == records
            &&& r[records.len() as int] == seq![(reading, surface)]
        }),
{
    let r = model::with_choice(records, c.paths, reading, surface);
    assert(r.take(records.len() as int) =~= records);
}

/// A letter typed where nothing is composed yet: it alone is composed.
proof fn lemma_first_letter(s: State, lex: Lexicon, letter: char)
    requires
        s.comp == Some(CompView::fresh(Submode::Japanese)),
    ensures
        ({
            let (s1, r1) = s.append(lex, seq![letter]);
            let k = resolves_to(Seq::empty(), seq![letter]);
            &&& s1.comp is Some
            &&& s1.comp->0.submode == Submode::Japanese
            &&& s1.comp->0.prefix.len() == 0
            &&& s1.comp->0.kana == k.composed
            &&& s1.comp->0.pending == k.pending
            &&& s1.comp->0.selected == 0
            &&& s1.records == s.records
            &&& s1.mode == s.mode
            &&& r1.consumed
            &&& r1.commit is None
            &&& r1.marked == model::marked(s1.comp->0.display(), false)
        }),
{
    reveal_with_fuel(utf8::encode_utf8, 1);
    assert(utf8::encode_utf8(Seq::<char>::empty()).len() == 0);
    assert(Seq::<char>::empty() + seq![letter] =~= seq![letter]);
}

/// Typing goes on behind a candidate that was chosen: where any candidate but the
/// first is selected and no romaji is pending, a letter commits the prefix with
/// that candidate, records the choice, and is all that is composed from then on.
pub proof fn letters_commit_the_chosen_candidate(
    s: State,
    lex: Lexicon,
    key: u16,
    text: Seq<char>,
    letter: char,
    flags: u8,
)
    requires
        s.comp is Some,
        s.comp->0.submode == Submode::Japanese,
        s.comp->0.pending.len() == 0,
        0 < s.comp->0.selected < s.comp->0.surfaces.len(),
        types_text(key),
        unmodified(flags),
        is_letter(text, letter),
    ensures
        ({
            let c = s.comp->0;
            let (s1, r) = s.key(lex, key, text, flags);
            let k = resolves_to(Seq::empty(), seq![letter]);
            &&& r.consumed
            &&& r.commit == Some(c.prefix + c.surfaces[c.selected as int])
            &&& r.side_effects.save_history
            &&& s1.comp is Some
            &&& s1.comp->0.submode == Submode::Japanese
            &&& s1.comp->0.prefix.len() == 0
            &&& s1.comp->0.kana == k.composed
            &&& s1.comp->0.pending == k.pending
            &&& s1.comp->0.selected == 0
            &&& r.marked == model::marked(s1.comp->0.display(), false)
            &&& lex.history is Some ==> records_choice(
                s,
                s1,
                resolves_at_once(c.kana, c.pending),
                c.surfaces[c.selected as int],
            )
            &&& lex.history is None ==> s1.records == s.records
        }),
{
    let c = s.comp->0;
    let t = if s.ghost_text is Some {
        State { ghost_text: None, ..s }
    } else {
        s
    };
    lemma_lowered(text, letter);
    let t1 = t.commit(lex).0;
    lemma_first_letter(t1.with_comp(CompView::fresh(Submode::Japanese)), lex, letter);
    lemma_choice(s.records, c, resolves_at_once(c.kana, c.pending), c.surfaces[c.selected as int]);
}

/// A letter where nothing is composed starts composing; any other text that is no
/// romaji sequence is left to the caller.
pub proof fn letters_start_composing(
    s: State,
    lex: Lexicon,
    key: u16,
    text: Seq<char>,
    letter: char,
    flags: u8,
)
    requires
        s.comp is None,
        s.idle_submode == Submode::Japanese,
        types_text(key),
        unmodified(flags),
        is_letter(text, letter),
    ensures
        ({
            let (s1, r) = s.key(lex, key, text, flags);
            let k = resolves_to(Seq::empty(), seq![letter]);
            &&& r.consumed
            &&& r.commit is None
            &&& s1.comp is Some
            &&& s1.comp->0.submode == Submode::Japanese
            &&& s1.comp->0.prefix.len() == 0
            &&& s1.comp->0.kana == k.composed
            &&& s1.comp->0.pending == k.pending
            &&& s1.records == s.records
            &&& r.marked == model::marked(s1.comp->0.display(), false)
        }),
{
    let t = if s.ghost_text is Some {
        State { ghost_text: None, ..s }
    } else {
        s
    };
    lemma_lowered(text, letter);
    lemma_first_letter(t.with_comp(CompView::fresh(Submode::Japanese)), lex, letter);
}

/// Whether what is composed may be committed by itself at the next conversion: in
/// standard mode, when its first segment stayed twice already.
pub open spec fn may_commit_itself(s: State) -> bool {
    s.mode == ConversionMode::Standard && s.comp->0.stable >= 2
}

/// Romaji goes behind what is composed, where the kana has room.
proof fn lemma_append(s: State, lex: Lexicon, input: Seq<char>)
    requires
        s.comp is Some,
        s.comp->0.submode == Submode::Japanese,
        utf8::encode_utf8(s.comp->0.kana).len() < 100,
    ensures
        ({
            let c = s.comp->0;
            let (s1, r1) = s.append(lex, input);
            let k = resolves_to(c.kana, c.pending + input);
            &&& r1.consumed
            &&& s1.comp is Some
            &&& s1.comp->0.submode == Submode::Japanese
            &&& s1.comp->0.pending == k.pending
            &&& r1.commit is None ==> {
                &&& s1.comp->0.kana == k.composed
                &&& s1.comp->0.prefix == c.prefix
                &&& s1.records == s.records
                &&& r1.marked == model::marked(s1.comp->0.display(), false)
            }
            &&& r1.commit is Some ==> !s.defer_candidates && may_commit_itself(s)
                && k.pending.len() == 0
            &&& k.pending.len() == 0 && k.composed.len() > 0 && s.defer_candidates
                ==> r1.async_request is Some && r1.async_request->0.reading == k.composed
        }),
{
}

/// A letter goes behind what is composed, where no candidate but the first is
/// selected and the kana has room: the romaji at the end is resolved as far as it
/// goes, and prefix and kana before it stay.
pub proof fn letters_extend_what_is_composed(
    s: State,
    lex: Lexicon,
    key: u16,
    letter: char,
    flags: u8,
)
    requires
        s.comp is Some,
        s.comp->0.submode == Submode::Japanese,
        s.comp->0.selected == 0 || s.comp->0.selected >= s.comp->0.surfaces.len(),
        utf8::encode_utf8(s.comp->0.kana).len() < 100,
        types_text(key),
        unmodified(flags),
        'a' <= letter <= 'z',
    ensures
        ({
            let c = s.comp->0;
            let (s1, r) = s.key(lex, key, seq![letter], flags);
            let k = resolves_to(c.kana, c.pending + seq![letter]);
            &&& r.consumed
            &&& s1.comp is Some
            &&& s1.comp->0.submode == Submode::Japanese
            &&& s1.comp->0.pending == k.pending
            &&& r.commit is None ==> {
                &&& s1.comp->0.kana == k.composed
                &&& s1.comp->0.prefix == c.prefix
                &&& s1.records == s.records
                &&& r.marked == model::marked(s1.comp->0.display(), false)
            }
            &&& r.commit is Some ==> !s.defer_candidates && may_commit_itself(s)
                && k.pending.len() == 0
            &&& k.pending.len() == 0 && k.composed.len() > 0 && s.defer_candidates
                ==> r.async_request is Some && r.async_request->0.reading == k.composed
        }),
{
    let t = if s.ghost_text is Some {
        State { ghost_text: None, ..s }
    } else {
        s
    };
    lemma_lowered(seq![letter], letter);
    lemma_append(t, lex, seq![letter]);
}

/// Kana of 100 bytes or more is committed with its prefix before a letter is added,
/// and the letter is all that is composed from then on.
pub proof fn full_kana_is_committed_first(
    s: State,
    lex: Lexicon,
    key: u16,
    letter: char,
    flags: u8,
)
    requires
        s.comp is Some,
        s.comp->0.submode == Submode::Japanese,
        s.comp->0.selected == 0 || s.comp->0.selected >= s.comp->0.surfaces.len(),
        utf8::encode_utf8(s.comp->0.kana).len() >= 100,
        s.comp->0.kana.len() > 0,
        types_text(key),
        unmodified(flags),
        'a' <= letter <= 'z',
    ensures
        ({
            let c = s.comp->0;
            let (s1, r) = s.key(lex, key, seq![letter], flags);
            let k = resolves_to(Seq::empty(), seq![letter]);
            &&& r.commit == Some(c.prefix + c.kana)
            &&& s1.comp is Some
            &&& s1.comp->0.submode == Submode::Japanese
            &&& s1.comp->0.prefix.len() == 0
            &&& s1.comp->0.kana == k.composed
            &&& s1.comp->0.pending == k.pending
        }),
{
    let t = if s.ghost_text is Some {
        State { ghost_text: None, ..s }
    } else {
        s
    };
    lemma_lowered(seq![letter], letter);
    assert(composed_text(t).len() > 0);
}

/// Prefix and kana.
pub open spec fn composed_text(s: State) -> Seq<char> {
    s.comp->0.prefix + s.comp->0.kana
}

/// Enter commits the prefix with the selected candidate, records the choice, and
/// leaves nothing composed.
pub proof fn enter_commits_the_selected_candidate(
    s: State,
    lex: Lexicon,
    text: Seq<char>,
    flags: u8,
)
    requires
        s.comp is Some,
        s.comp->0.submode == Submode::Japanese,
        s.comp->0.selected < s.comp->0.surfaces.len(),
        unmodified(flags),
    ensures
        ({
            let c = s.comp->0;
            let (s1, r) = s.key(lex, 36, text, flags);
            &&& r.consumed
            &&& r.commit == Some(c.prefix + c.surfaces[c.selected as int])
            &&& r.marked is None
            &&& r.candidates == ActionView::Hide
            &&& r.side_effects.save_history
            &&& !r.side_effects.switch_to_abc
            &&& s1.comp is None
            &&& s1.idle_submode == Submode::Japanese
            &&& lex.history is Some ==> records_choice(
                s,
                s1,
                resolves_at_once(c.kana, c.pending),
                c.surfaces[c.selected as int],
            )
            &&& lex.history is None ==> s1.records == s.records
            &&& s.mode != ConversionMode::GhostText ==> r.ghost_request is None
            &&& s.mode == ConversionMode::GhostText ==> r.ghost_request is Some
                && r.ghost_request->0.context == c.prefix + c.surfaces[c.selected as int]
                && r.ghost_request->0.generation == s1.ghost_generation && s1.ghost_generation
                != s.ghost_generation
        }),
{
    let c = s.comp->0;
    lemma_choice(s.records, c, resolves_at_once(c.kana, c.pending), c.surfaces[c.selected as int]);
}

/// Enter without candidates for kana: the first of those that are generated for it is
/// committed.
pub proof fn enter_commits_the_best_candidate(s: State, lex: Lexicon, text: Seq<char>, flags: u8)
    requires
        s.comp is Some,
        s.comp->0.submode == Submode::Japanese,
        s.comp->0.surfaces.len() == 0,
        s.comp->0.kana.len() > 0,
        unmodified(flags),
    ensures
        ({
            let c = s.comp->0;
            let offered = if s.mode == ConversionMode::Predictive {
                candidates::prediction_candidates(lex, c.kana, 20).surfaces
            } else {
                candidates::candidates(lex, c.kana, 20).surfaces
            };
            offered.len() > 0 ==> s.key(lex, 36, text, flags).1.commit == Some(
                c.prefix + offered[0],
            )
        }),
{
}

/// Enter without kana and candidates commits the prefix with the pending romaji as it
/// is resolved at last, where there is any text.
pub proof fn enter_resolves_pending_romaji(s: State, lex: Lexicon, text: Seq<char>, flags: u8)
    requires
        s.comp is Some,
        s.comp->0.submode == Submode::Japanese,
        s.comp->0.surfaces.len() == 0,
        s.comp->0.kana.len() == 0,
        unmodified(flags),
    ensures
        ({
            let c = s.comp->0;
            let (s1, r) = s.key(lex, 36, text, flags);
            let t = c.prefix + resolves_at_once(c.kana, c.pending);
            &&& s1.comp is None
            &&& s1.records == s.records
            &&& t.len() > 0 ==> r.commit == Some(t)
            &&& t.len() == 0 ==> r.commit is None
        }),
{
}

/// Enter commits English text with its prefix.
pub proof fn enter_commits_english_text(s: State, lex: Lexicon, text: Seq<char>, flags: u8)
    requires
        s.comp is Some,
        s.comp->0.submode == Submode::English,
        unmodified(flags),
    ensures
        ({
            let (s1, r) = s.key(lex, 36, text, flags);
            &&& r.consumed
            &&& composed_text(s).len() > 0 ==> r.commit == Some(composed_text(s))
            &&& composed_text(s).len() == 0 ==> r.commit is None
            &&& r.candidates == ActionView::Hide
            &&& s1.comp is None
            &&& s1.records == s.records
        }),
{
}

/// The selection that `key` leads to among `n` candidates: the next one for Space and
/// Down, the one before for Up, round at the ends.
pub open spec fn moves(key: u16, from: int, to: int, n: int) -> bool {
    ||| key == 49 && to == from + 1 && to < n
    ||| key == 49 && to == 0 && from == n - 1
    ||| key == 125 && to == from + 1 && to < n
    ||| key == 125 && to == 0 && from == n - 1
    ||| key == 126 && to == from - 1 && to >= 0
    ||| key == 126 && to == n - 1 && from == 0
}

/// Space, Down and Up select another candidate and show it; nothing else changes.
pub proof fn arrows_move_the_selection(
    s: State,
    lex: Lexicon,
    key: u16,
    text: Seq<char>,
    flags: u8,
    to: usize,
)
    requires
        s.comp is Some,
        s.comp->0.submode == Submode::Japanese,
        s.comp->0.selected < s.comp->0.surfaces.len() <= usize::MAX,
        unmodified(flags),
        moves(key, s.comp->0.selected as int, to as int, s.comp->0.surfaces.len() as int),
    ensures
        ({
            let c = s.comp->0;
            let (s1, r) = s.key(lex, key, text, flags);
            &&& s1 == (State {
                comp: Some(CompView { selected: to, ..c }),
                ghost_text: None,
                ..s
            })
            &&& r.consumed
            &&& r.commit is None
            &&& r.marked is Some
            &&& r.marked->0.text == c.prefix + (c.surfaces[to as int] + c.pending)
            &&& r.candidates == (ActionView::Show { surfaces: c.surfaces, selected: to as u32 })
        }),
{
    let c = s.comp->0;
    let n = c.surfaces.len() as int;
    let from = c.selected as int;
    assert(model::cyclic(from, 1, n) == if from + 1 < n {
        from + 1
    } else {
        0
    }) by {
        if from + 1 < n {
            vstd::arithmetic::div_mod::lemma_mod_add_multiples_vanish(from + 1, n);
            vstd::arithmetic::div_mod::lemma_small_mod((from + 1) as nat, n as nat);
        } else {
            assert(from + 1 + n == n * 2) ;
            vstd::arithmetic::div_mod::lemma_mod_multiples_basic(2, n);
        }
    }
    assert(model::cyclic(from, -1, n) == if from > 0 {
        from - 1
    } else {
        n - 1
    }) by {
        if from > 0 {
            vstd::arithmetic::div_mod::lemma_mod_add_multiples_vanish(from - 1, n);
            vstd::arithmetic::div_mod::lemma_small_mod((from - 1) as nat, n as nat);
        } else {
            vstd::arithmetic::div_mod::lemma_small_mod((n - 1) as nat, n as nat);
        }
    }
}

/// Up takes Down back: the selection is where it was.
pub proof fn up_takes_down_back(s: State, lex: Lexicon, text: Seq<char>, flags: u8)
    requires
        s.comp is Some,
        s.comp->0.submode == Submode::Japanese,
        s.comp->0.selected < s.comp->0.surfaces.len() <= usize::MAX,
        unmodified(flags),
        s.ghost_text is None,
    ensures
        s.key(lex, 125, text, flags).0.key(lex, 126, text, flags).0 == s,
{
    let c = s.comp->0;
    let n = c.surfaces.len();
    let to: usize = if c.selected + 1 < n {
        (c.selected + 1) as usize
    } else {
        0
    };
    arrows_move_the_selection(s, lex, 125, text, flags, to);
    let s1 = s.key(lex, 125, text, flags).0;
    arrows_move_the_selection(s1, lex, 126, text, flags, c.selected);
}

/// Candidates that are not there yet are generated when Space, Down or Up asks for
/// them: the first ones for the kana, 20 predictions at most.
pub proof fn arrows_ask_for_candidates(
    s: State,
    lex: Lexicon,
    key: u16,
    text: Seq<char>,
    flags: u8,
)
    requires
        s.comp is Some,
        s.comp->0.submode == Submode::Japanese,
        s.comp->0.surfaces.len() == 0,
        s.comp->0.kana.len() > 0,
        unmodified(flags),
        key == 49 || key == 125 || key == 126,
    ensures
        ({
            let c = s.comp->0;
            let s1 = s.key(lex, key, text, flags).0;
            &&& s1.comp is Some
            &&& s1.comp->0.kana == c.kana
            &&& s1.comp->0.surfaces == if s.mode == ConversionMode::Predictive {
                candidates::prediction_candidates(lex, c.kana, 20).surfaces
            } else {
                candidates::candidates(lex, c.kana, 20).surfaces
            }
        }),
{
}

/// What is composed, as it was typed: prefix, kana and pending romaji.
pub open spec fn typed_text(c: CompView) -> Seq<char> {
    c.prefix + c.kana + c.pending
}

/// Backspace takes away the last character that was typed: the last of the pending
/// romaji, else of the kana, else of the prefix. It leaves nothing composed when it
/// took the last one. Romaji and prefix apart, what is left may be committed in part by
/// itself, as after any conversion.
pub proof fn backspace_takes_the_last_character(
    s: State,
    lex: Lexicon,
    text: Seq<char>,
    flags: u8,
)
    requires
        s.comp is Some,
        unmodified(flags),
        typed_text(s.comp->0).len() > 0,
    ensures
        ({
            let c = s.comp->0;
            let (s1, r) = s.key(lex, 51, text, flags);
            &&& r.consumed
            &&& typed_text(c).len() == 1 ==> s1.comp is None && s1.idle_submode
                == Submode::Japanese && r.commit is None && r.candidates == ActionView::Hide
                && r.marked == model::marked(Seq::empty(), false)
            &&& typed_text(c).len() > 1 ==> s1.comp is Some && s1.comp->0.submode == c.submode
            &&& typed_text(c).len() > 1 && r.commit is None ==> {
                &&& typed_text(s1.comp->0) == typed_text(c).drop_last()
                &&& c.pending.len() > 0 ==> s1.comp->0.kana == c.kana && s1.comp->0.prefix
                    == c.prefix
                &&& c.pending.len() == 0 && c.kana.len() > 0 ==> s1.comp->0.prefix == c.prefix
                &&& s1.records == s.records
                &&& s1.comp->0.submode == Submode::Japanese ==> r.marked == model::marked(
                    s1.comp->0.display(),
                    false,
                )
            }
            &&& r.commit is Some ==> !s.defer_candidates && s.mode == ConversionMode::Standard
                && c.stable >= 2
        }),
{
    let c = s.comp->0;
    if c.pending.len() > 0 {
        assert(typed_text(CompView { pending: c.pending.drop_last(), ..c }) =~= typed_text(
            c,
        ).drop_last());
    } else if c.kana.len() > 0 {
        assert(typed_text(CompView { kana: c.kana.drop_last(), ..c }) =~= typed_text(
            c,
        ).drop_last());
    } else {
        assert(typed_text(CompView { prefix: c.prefix.drop_last(), ..c }) =~= typed_text(
            c,
        ).drop_last());
    }
}

/// Tab in standard mode turns what is composed into prefix and goes to the other
/// submode; nothing is committed.
pub proof fn tab_changes_the_submode(s: State, lex: Lexicon, text: Seq<char>, flags: u8)
    requires
        s.comp is Some,
        s.mode == ConversionMode::Standard,
        s.comp->0.pending.len() == 0,
        !s.programmer_mode,
        unmodified(flags),
    ensures
        ({
            let c = s.comp->0;
            let (s1, r) = s.key(lex, 48, text, flags);
            let shown = if c.submode == Submode::Japanese && c.selected < c.surfaces.len() {
                c.surfaces[c.selected as int]
            } else {
                c.kana
            };
            &&& r.consumed
            &&& r.commit is None
            &&& r.candidates == ActionView::Hide
            &&& s1.comp is Some
            &&& s1.comp->0.submode != c.submode
            &&& s1.comp->0.kana.len() == 0
            &&& s1.comp->0.pending.len() == 0
            &&& s1.comp->0.surfaces.len() == 0
            &&& !c.boundary_space ==> s1.comp->0.prefix == c.prefix + shown
            &&& c.boundary_space && c.prefix.len() > 0 && c.prefix.last() == ' '
                ==> s1.comp->0.prefix == c.prefix.drop_last() + shown
            &&& lex.history is Some && c.submode == Submode::Japanese && c.selected
                < c.surfaces.len() ==> records_choice(s, s1, c.kana, shown)
            &&& !(lex.history is Some && c.submode == Submode::Japanese && c.selected
                < c.surfaces.len()) ==> s1.records == s.records
        }),
{
    let c = s.comp->0;
    lemma_choice(s.records, c, c.kana, c.current());
}

/// In programmer mode a toggle puts a space behind Japanese text that ends beyond
/// ASCII, and behind English text that ends in ASCII other than a space; else none.
pub proof fn programmers_get_a_space(s: State, lex: Lexicon, text: Seq<char>, flags: u8)
    requires
        s.comp is Some,
        s.mode == ConversionMode::Standard,
        s.comp->0.pending.len() == 0,
        !s.comp->0.boundary_space,
        s.programmer_mode,
        unmodified(flags),
    ensures
        ({
            let c = s.comp->0;
            let t = c.prefix + c.current();
            let p = s.key(lex, 48, text, flags).0.comp->0.prefix;
            &&& t.len() == 0 ==> p == t
            &&& t.len() > 0 && c.submode == Submode::Japanese ==> p == if t.last() as u32 >= 128 {
                t.push(' ')
            } else {
                t
            }
            &&& t.len() > 0 && c.submode == Submode::English ==> p == if (t.last() as u32) < 128
                && t.last() != ' ' {
                t.push(' ')
            } else {
                t
            }
        }),
{
}

/// Tab in the other modes commits what is composed, as Enter does.
pub proof fn tab_commits_in_other_modes(s: State, lex: Lexicon, text: Seq<char>, flags: u8)
    requires
        s.comp is Some,
        s.comp->0.submode == Submode::Japanese,
        s.mode != ConversionMode::Standard,
        s.ghost_text is None,
        unmodified(flags),
    ensures
        s.key(lex, 48, text, flags) == s.key(lex, 36, text, flags),
{
}

/// Tab takes a suggestion over while nothing is composed: it is committed, and what
/// could follow it is asked for.
pub proof fn tab_takes_a_suggestion_over(s: State, lex: Lexicon, text: Seq<char>, flags: u8)
    requires
        s.comp is None,
        s.mode == ConversionMode::GhostText,
        s.ghost_text is Some,
        unmodified(flags),
    ensures
        ({
            let (s1, r) = s.key(lex, 48, text, flags);
            &&& r.consumed
            &&& r.commit == s.ghost_text
            &&& s1.comp is None
            &&& s1.ghost_text is None
            &&& s1.ghost_generation != s.ghost_generation
            &&& r.ghost_request is Some
            &&& r.ghost_request->0.context == s.ghost_text->0
            &&& r.ghost_request->0.generation == s1.ghost_generation
            &&& s1.records == s.records
        }),
{
}

/// A suggestion is wanted only where nothing is composed, in the mode for suggestions,
/// and only if it is the one that was asked for last.
pub proof fn stale_suggestions_are_not_wanted(s: State, generation: u64)
    ensures
        s.awaits_ghost(generation) <==> generation == s.ghost_generation && s.comp is None && s.mode
            == ConversionMode::GhostText,
{
}

/// The key for direct input commits what is composed and asks for the switch; the key
/// for Japanese input changes nothing; a key with a modifier commits what is composed
/// and is left to the caller.
pub proof fn switching_keys_commit(s: State, lex: Lexicon, key: u16, text: Seq<char>, flags: u8)
    requires
        s.comp is Some,
        s.comp->0.selected < s.comp->0.surfaces.len(),
    ensures
        ({
            let c = s.comp->0;
            let t = c.prefix + c.surfaces[c.selected as int];
            let (s1, r1) = s.key(lex, 102, text, flags);
            let (s2, r2) = s.key(lex, 104, text, flags);
            let (s3, r3) = s.key(lex, key, text, flags);
            &&& r1.consumed
            &&& r1.commit == Some(t)
            &&& r1.side_effects.switch_to_abc
            &&& s1.comp is None
            &&& s2 == (State { ghost_text: None, ..s })
            &&& r2.consumed
            &&& r2.commit is None
            &&& !r2.side_effects.switch_to_abc
            &&& key != 102 && key != 104 && flags & 2 != 0 ==> !r3.consumed && r3.commit == Some(t)
                && s3.comp is None && !r3.side_effects.switch_to_abc
        }),
{
}

/// The Yen key gives a backslash in programmer mode, behind what is committed; with
/// shift, and outside programmer mode, it does not.
pub proof fn yen_gives_a_backslash(s: State, lex: Lexicon, text: Seq<char>, flags: u8)
    requires
        s.programmer_mode,
        unmodified(flags),
        flags & 1 == 0,
    ensures
        ({
            let (s1, r) = s.key(lex, 93, text, flags);
            &&& r.consumed
            &&& s1.comp is None
            &&& s.comp is None ==> r.commit == Some(seq!['\\'])
            &&& s.comp is Some && s.comp->0.selected < s.comp->0.surfaces.len() ==> r.commit
                == Some((s.comp->0.prefix + s.comp->0.surfaces[s.comp->0.selected as int]).push('\\'))
        }),
{
    if s.comp is Some {
        let c = s.comp->0;
        let t = c.prefix + c.surfaces[c.selected as int];
        assert(t + seq!['\\'] =~= t.push('\\'));
    }
}

/// The Yen key is a key like any other where it gives no backslash.
pub proof fn yen_is_an_ordinary_key_elsewhere(
    s: State,
    lex: Lexicon,
    key: u16,
    text: Seq<char>,
    flags: u8,
)
    requires
        !s.programmer_mode || flags & 1 != 0,
        unmodified(flags),
        types_text(key),
    ensures
        s.key(lex, 93, text, flags) == s.key(lex, key, text, flags),
{
}

/// English text is added as it is typed, a space with the space key; what cannot be
/// printed is taken and does nothing.
pub proof fn english_text_is_added(
    s: State,
    lex: Lexicon,
    key: u16,
    text: Seq<char>,
    flags: u8,
)
    requires
        s.comp is Some,
        s.comp->0.submode == Submode::English,
        types_text(key),
        unmodified(flags),
        text.len() > 0,
    ensures
        ({
            let c = s.comp->0;
            let (s1, r1) = s.key(lex, key, text, flags);
            let (s2, r2) = s.key(lex, 49, text, flags);
            &&& r1.consumed && r2.consumed
            &&& r1.commit is None && r2.commit is None
            &&& s1.comp is Some && s2.comp is Some
            &&& s1.comp->0.kana == if 0x20 <= text[0] as u32 && (text[0] as u32) < 0x7F {
                c.kana + text
            } else {
                c.kana
            }
            &&& s2.comp->0.kana == c.kana.push(' ')
            &&& s1.comp->0.prefix == c.prefix && s2.comp->0.prefix == c.prefix
            &&& s1.comp->0.submode == Submode::English && s2.comp->0.submode == Submode::English
            &&& r2.marked == model::marked(s2.comp->0.display(), true)
            &&& s1.records == s.records && s2.records == s.records
        }),
{
}

/// Text that starts English composing, and text that does not.
pub proof fn english_text_starts_composing(
    s: State,
    lex: Lexicon,
    key: u16,
    text: Seq<char>,
    flags: u8,
)
    requires
        s.comp is None,
        s.idle_submode == Submode::English,
        types_text(key),
        unmodified(flags),
        text.len() > 0,
    ensures
        ({
            let (s1, r) = s.key(lex, key, text, flags);
            if 0x20 <= text[0] as u32 && (text[0] as u32) < 0x7F {
                &&& r.consumed
                &&& r.commit is None
                &&& s1.comp is Some
                &&& s1.comp->0.submode == Submode::English
                &&& s1.comp->0.kana == text
                &&& s1.comp->0.prefix.len() == 0
                &&& r.marked == model::marked(text, true)
            } else {
                &&& !r.consumed
                &&& s1.comp is None
            }
        }),
{
    assert(Seq::<char>::empty() + text =~= text);
    assert(Seq::<char>::empty() + (text + Seq::<char>::empty()) =~= text);
}

/// A mark that the romaji table knows, typed where no romaji is pending, commits the
/// selected candidate with the kana of the mark behind it.
pub proof fn marks_are_committed_at_once(
    s: State,
    lex: Lexicon,
    key: u16,
    text: Seq<char>,
    flags: u8,
)
    requires
        s.comp is Some,
        s.comp->0.submode == Submode::Japanese,
        s.comp->0.pending.len() == 0,
        s.comp->0.selected < s.comp->0.surfaces.len(),
        types_text(key),
        unmodified(flags),
        trie::romaji_table().contains_key(text),
        text != "-"@,
        text.len() > 0,
        !('a' <= text[0] <= 'z') && !('A' <= text[0] <= 'Z'),
    ensures
        ({
            let c = s.comp->0;
            let (s1, r) = s.key(lex, key, text, flags);
            &&& r.consumed
            &&& s1.comp is None
            &&& r.commit == Some(
                c.prefix + c.surfaces[c.selected as int] + resolves_at_once(Seq::empty(), text),
            )
        }),
{
    let c = s.comp->0;
    let t = c.prefix + c.surfaces[c.selected as int];
    let k = resolves_at_once(Seq::empty(), text);
    if k.len() == 0 {
        assert(t + k =~= t);
    }
}

/// Other text goes behind the kana as it is.
pub proof fn other_text_joins_the_kana(
    s: State,
    lex: Lexicon,
    key: u16,
    text: Seq<char>,
    flags: u8,
)
    requires
        s.comp is Some,
        s.comp->0.submode == Submode::Japanese,
        s.comp->0.pending.len() == 0,
        types_text(key),
        unmodified(flags),
        !trie::romaji_table().contains_key(text),
        text != "-"@,
        text.len() > 0,
        !('a' <= text[0] <= 'z') && !('A' <= text[0] <= 'Z'),
    ensures
        ({
            let c = s.comp->0;
            let (s1, r) = s.key(lex, key, text, flags);
            &&& r.consumed
            &&& s1.comp is Some
            &&& r.commit is None ==> s1.comp->0.kana == c.kana + text && s1.comp->0.prefix
                == c.prefix && s1.comp->0.pending.len() == 0
            &&& r.commit is Some ==> !s.defer_candidates && may_commit_itself(s)
        }),
{
}

/// Text that is neither a letter nor known to the romaji table is left to the caller
/// where nothing is composed.
pub proof fn other_text_passes_through(
    s: State,
    lex: Lexicon,
    key: u16,
    text: Seq<char>,
    flags: u8,
)
    requires
        s.comp is None,
        s.idle_submode == Submode::Japanese,
        types_text(key),
        unmodified(flags),
        !trie::romaji_table().contains_key(text),
        text != "-"@,
        text.len() == 0 || (!('a' <= text[0] <= 'z') && !('A' <= text[0] <= 'Z')),
    ensures
        s.key(lex, key, text, flags).0 == (State { ghost_text: None, ..s }),
        !s.key(lex, key, text, flags).1.consumed,
        s.key(lex, key, text, flags).1.commit is None,
{
}

/// Candidates that arrive are taken over with the first of them selected, and shown;
/// or, in standard mode, the first segment of the best conversion is committed by
/// itself: where four segments are there, none of the romaji is pending, and the first
/// segment has the reading that it had the last two times.
pub proof fn received_candidates_are_shown(
    s: State,
    lex: Lexicon,
    a: candidates::CandidateView,
)
    requires
        s.comp is Some,
        a.paths.len() > 0,
        a.paths[0].len() >= 2,
        exists|i: int|
            0 <= i < a.paths[0][0].surface.len() && #[trigger] a.paths[0][0].surface[i] as u32
                >= 128,
    ensures
        ({
            let c = s.comp->0;
            let (s1, r) = s.received(lex, a);
            let first = a.paths[0][0];
            let stays = c.first_reading == Some(first.reading);
            &&& r.consumed
            &&& s1.comp is Some
            &&& r.commit is Some <==> {
                &&& s.mode == ConversionMode::Standard
                &&& a.paths[0].len() >= 4
                &&& c.pending.len() == 0
                &&& stays && c.stable >= 2
                &&& first.reading.is_prefix_of(c.kana)
            }
            &&& r.commit is Some ==> {
                &&& r.commit == Some(c.prefix + first.surface)
                &&& c.kana == first.reading + s1.comp->0.kana
                &&& s1.comp->0.prefix.len() == 0
                &&& s1.comp->0.stable <= 1
                &&& r.side_effects.save_history
                &&& first.surface != first.reading ==> s1.records == s.records.push(
                    seq![(first.reading, first.surface)],
                )
                &&& first.surface == first.reading ==> s1.records == s.records
            }
            &&& r.commit is None ==> {
                &&& s1.comp->0.surfaces == a.surfaces
                &&& s1.comp->0.paths == a.paths
                &&& s1.comp->0.selected == 0
                &&& s1.comp->0.kana == c.kana
                &&& s1.comp->0.prefix == c.prefix
                &&& s1.comp->0.pending == c.pending
                &&& s1.comp->0.first_reading == Some(first.reading)
                &&& !stays ==> s1.comp->0.stable == 1
                &&& stays && c.stable < usize::MAX ==> s1.comp->0.stable == c.stable + 1
                &&& s1.records == s.records
                &&& r.marked == model::marked(
                    s1.comp->0.display(),
                    c.submode == Submode::English,
                )
                &&& a.surfaces.len() > 0 ==> r.candidates == (ActionView::Show {
                    surfaces: a.surfaces,
                    selected: 0,
                })
            }
        }),
{
    let c = s.comp->0;
    let p = a.paths[0];
    let i = choose|i: int| 0 <= i < p[0].surface.len() && #[trigger] p[0].surface[i] as u32 >= 128;
    assert(!model::all_ascii(p[0].surface)) by {
        assert(!((p[0].surface[i] as u32) < 0x80));
    }
    let head = p.take(1);
    assert(head.drop_last() =~= Seq::empty());
    assert(head.last() == p[0]);
    assert(model::reading_of(head.drop_last()) == Seq::<char>::empty());
    assert(model::reading_of(head) =~= p[0].reading);
    assert(candidates::surface_of(head.drop_last()) == Seq::<char>::empty());
    assert(candidates::surface_of(head) =~= p[0].surface);
    let n = p[0].reading.len() as int;
    if p[0].reading.is_prefix_of(c.kana) {
        assert(c.kana.subrange(0, n) == p[0].reading);
        assert(c.kana =~= p[0].reading + c.kana.skip(n));
    }
}

/// Escape resolves the romaji, takes the candidates away and commits nothing; kana that
/// it leaves is recorded as a choice of itself.
pub proof fn escape_leaves_the_kana(s: State, lex: Lexicon, text: Seq<char>, flags: u8)
    requires
        s.comp is Some,
        s.comp->0.submode == Submode::Japanese,
        unmodified(flags),
    ensures
        ({
            let c = s.comp->0;
            let (s1, r) = s.key(lex, 53, text, flags);
            let kana = resolves_at_once(c.kana, c.pending);
            &&& r.consumed
            &&& r.commit is None
            &&& r.candidates == ActionView::Hide
            &&& s1.comp is Some
            &&& s1.comp->0.kana == kana
            &&& s1.comp->0.prefix == c.prefix
            &&& s1.comp->0.surfaces.len() == 0
            &&& lex.history is Some && kana.len() > 0 ==> records_choice(s, s1, kana, kana)
            &&& !(lex.history is Some && kana.len() > 0) ==> s1.records == s.records
        }),
{
    let c = s.comp->0;
    let kana = resolves_at_once(c.kana, c.pending);
    lemma_choice(s.records, c, kana, kana);
}

proof fn lemma_ascii_run(path: Seq<SegmentText>, i: int, n: int)
    requires
        1 <= i <= n < path.len(),
        forall|k: int| 0 <= k < n ==> model::all_ascii((#[trigger] path[k]).surface),
        n == path.len() - 1 || !model::all_ascii(path[n].surface),
    ensures
        model::ascii_run(path, i) == n,
    decreases n - i,
{
    if i < n {
        assert(model::all_ascii(path[i].surface));
        lemma_ascii_run(path, i + 1, n);
    }
}

/// Where the first segment is ASCII, the ASCII segments behind it are committed with
/// it, but the last segment of the conversion stays.
pub proof fn ascii_segments_are_committed_together(
    s: State,
    lex: Lexicon,
    a: candidates::CandidateView,
    n: int,
)
    requires
        s.comp is Some,
        s.mode == ConversionMode::Standard,
        s.comp->0.pending.len() == 0,
        s.comp->0.stable >= 2,
        a.paths.len() > 0,
        a.paths[0].len() >= 4,
        s.comp->0.first_reading == Some(a.paths[0][0].reading),
        1 <= n < a.paths[0].len(),
        forall|k: int, i: int|
            0 <= k < n && 0 <= i < a.paths[0][k].surface.len() ==> (
            #[trigger] a.paths[0][k].surface[i] as u32) < 128,
        n == a.paths[0].len() - 1 || exists|i: int|
            0 <= i < a.paths[0][n].surface.len() && #[trigger] a.paths[0][n].surface[i] as u32
                >= 128,
        model::reading_of(a.paths[0].take(n)).is_prefix_of(s.comp->0.kana),
    ensures
        s.received(lex, a).1.commit == Some(
            s.comp->0.prefix + candidates::surface_of(a.paths[0].take(n)),
        ),
        s.comp->0.kana == model::reading_of(a.paths[0].take(n)) + s.received(lex, a).0.comp->0.kana,
{
    let p = a.paths[0];
    assert forall|k: int| 0 <= k < n implies model::all_ascii((#[trigger] p[k]).surface) by {
        assert forall|i: int| 0 <= i < p[k].surface.len() implies (#[trigger] p[k].surface[i] as u32)
            < 0x80 by {
            assert((a.paths[0][k].surface[i] as u32) < 128);
        }
    }
    if n < p.len() - 1 {
        let i = choose|i: int| 0 <= i < p[n].surface.len() && #[trigger] p[n].surface[i] as u32 >= 128;
        assert(!((p[n].surface[i] as u32) < 0x80));
    }
    assert(model::all_ascii(p[0].surface));
    lemma_ascii_run(p, 1, n);
    let reading = model::reading_of(p.take(n));
    let kana = s.comp->0.kana;
    assert(kana.subrange(0, reading.len() as int) == reading);
    assert(kana =~= reading + kana.skip(reading.len() as int));
}

/// What is shown of a composition: the prefix, then the selected candidate, or the kana
/// where none is selected or the text is English, then the pending romaji.
pub proof fn display_shows_the_selection(c: CompView)
    ensures
        c.submode == Submode::Japanese && c.selected < c.surfaces.len() ==> c.display() == c.prefix
            + c.surfaces[c.selected as int] + c.pending,
        c.submode == Submode::English || c.selected >= c.surfaces.len() ==> c.display() == c.prefix
            + c.kana + c.pending,
{
    assert(c.display() =~= c.prefix + c.current() + c.pending);
}

/// The candidates that a mode offers for kana: 20 predictions at most go into them.
pub open spec fn offered(
    lex: Lexicon,
    mode: ConversionMode,
    kana: Seq<char>,
) -> candidates::CandidateView {
    if mode == ConversionMode::Predictive {
        candidates::prediction_candidates(lex, kana, 20)
    } else {
        candidates::candidates(lex, kana, 20)
    }
}

/// Kana that a letter completes gets its candidates, with the first selected, and they
/// are shown; romaji that is still pending leaves those that were there. Where
/// candidates are deferred, the best conversion stands for them.
pub proof fn completed_kana_gets_candidates(
    s: State,
    lex: Lexicon,
    key: u16,
    letter: char,
    flags: u8,
)
    requires
        s.comp is Some,
        s.comp->0.submode == Submode::Japanese,
        s.comp->0.selected == 0,
        utf8::encode_utf8(s.comp->0.kana).len() < 100,
        types_text(key),
        unmodified(flags),
        'a' <= letter <= 'z',
    ensures
        ({
            let c = s.comp->0;
            let (s1, r) = s.key(lex, key, seq![letter], flags);
            let k = resolves_to(c.kana, c.pending + seq![letter]);
            let o = offered(lex, s.mode, k.composed);
            let best = crate::converter::convert::converted(
                lex.words,
                crate::converter::cost::default_model(lex.conn),
                lex.conn,
                None,
                k.composed,
            );
            &&& r.commit is None && k.pending.len() == 0 && k.composed.len() > 0
                && !s.defer_candidates ==> {
                &&& s1.comp->0.surfaces == o.surfaces
                &&& s1.comp->0.paths == o.paths
                &&& s1.comp->0.selected == 0
                &&& o.surfaces.len() > 0 ==> r.candidates == (ActionView::Show {
                    surfaces: o.surfaces,
                    selected: 0,
                })
            }
            &&& k.pending.len() > 0 ==> {
                &&& s1.comp->0.surfaces == c.surfaces
                &&& s1.comp->0.paths == c.paths
                &&& s1.comp->0.selected == 0
                &&& r.async_request is None
            }
            &&& k.pending.len() == 0 && k.composed.len() > 0 && s.defer_candidates ==> {
                &&& s1.comp->0.surfaces == seq![candidates::surface_of(best)]
                &&& s1.comp->0.paths == seq![best]
                &&& s1.comp->0.selected == 0
                &&& r.commit is None
                &&& r.async_request is Some
                &&& r.async_request->0.reading == k.composed
                &&& r.async_request->0.dispatch == s.mode.dispatch()
            }
        }),
{
    lemma_lowered(seq![letter], letter);
}

/// Text that goes on a pending sequence is romaji, too, whatever it is.
pub proof fn text_goes_on_pending_sequences(
    s: State,
    lex: Lexicon,
    key: u16,
    text: Seq<char>,
    flags: u8,
    sequence: Seq<char>,
)
    requires
        s.comp is Some,
        s.comp->0.submode == Submode::Japanese,
        s.comp->0.pending.len() > 0,
        utf8::encode_utf8(s.comp->0.kana).len() < 100,
        types_text(key),
        unmodified(flags),
        trie::romaji_table().contains_key(sequence),
        (s.comp->0.pending + text).is_prefix_of(sequence),
    ensures
        ({
            let c = s.comp->0;
            let (s1, r) = s.key(lex, key, text, flags);
            let k = resolves_to(c.kana, c.pending + text);
            &&& r.consumed
            &&& s1.comp is Some
            &&& s1.comp->0.pending == k.pending
            &&& r.commit is None ==> s1.comp->0.kana == k.composed && s1.comp->0.prefix == c.prefix
            &&& r.commit is Some ==> !s.defer_candidates && may_commit_itself(s)
        }),
{
    let t = if s.ghost_text is Some {
        State { ghost_text: None, ..s }
    } else {
        s
    };
    let p = s.comp->0.pending + text;
    if sequence.len() == p.len() {
        assert(sequence =~= p) by {
            assert(sequence.subrange(0, p.len() as int) =~= sequence);
        }
    } else {
        assert(trie::begins(p, sequence));
        assert(trie::has_longer(trie::romaji_table(), p));
    }
    assert(trie::known(trie::romaji_table(), p) !is NoMatch);
    lemma_append(t, lex, text);
}

/// Tab while nothing is composed goes to the other submode, unless it takes a suggestion
/// over.
pub proof fn tab_changes_the_idle_submode(s: State, lex: Lexicon, text: Seq<char>, flags: u8)
    requires
        s.comp is None,
        s.mode != ConversionMode::GhostText || s.ghost_text is None,
        unmodified(flags),
    ensures
        ({
            let (s1, r) = s.key(lex, 48, text, flags);
            &&& r.consumed
            &&& r.commit is None
            &&& s1.comp is None
            &&& s.idle_submode == Submode::Japanese ==> s1.idle_submode == Submode::English
            &&& s.idle_submode == Submode::English ==> s1.idle_submode == Submode::Japanese
            &&& s1.records == s.records
        }),
{
}

/// A choice that is a conversion of several segments is recorded with its segments,
/// too: those of the first conversion that reads so.
pub proof fn conversions_are_recorded_with_their_segments(
    s: State,
    lex: Lexicon,
    text: Seq<char>,
    flags: u8,
    i: int,
)
    requires
        s.comp is Some,
        s.comp->0.submode == Submode::Japanese,
        s.comp->0.selected < s.comp->0.surfaces.len(),
        unmodified(flags),
        lex.history is Some,
        0 <= i <= s.comp->0.paths.len(),
        i < s.comp->0.paths.len() ==> candidates::surface_of(s.comp->0.paths[i])
            == s.comp->0.surfaces[s.comp->0.selected as int],
        forall|j: int|
            0 <= j < i ==> candidates::surface_of(#[trigger] s.comp->0.paths[j])
                != s.comp->0.surfaces[s.comp->0.selected as int],
    ensures
        ({
            let c = s.comp->0;
            let n = s.records.len() as int;
            let after = s.key(lex, 36, text, flags).0.records;
            let several = i < c.paths.len() && c.paths[i].len() > 1;
            &&& !several ==> after.len() == n + 1
            &&& several ==> {
                &&& after.len() == n + 2
                &&& after[n + 1].len() == c.paths[i].len()
                &&& forall|k: int|
                    0 <= k < c.paths[i].len() ==> #[trigger] after[n + 1][k] == (
                        c.paths[i][k].reading,
                        c.paths[i][k].surface,
                    )
            }
        }),
{
    let c = s.comp->0;
    let surface = c.surfaces[c.selected as int];
    let f = model::reads_as(surface);
    seqs::lemma_first_from(c.paths, f, 0);
    let p = seqs::first_place(c.paths, f);
    if p < i {
        assert(f(c.paths[p]));
    } else if i < p {
        assert(!f(c.paths[i]));
    }
    assert(p == i);
}

/// Candidates are wanted only for the kana that is composed in Japanese.
pub proof fn stale_candidates_are_not_wanted(s: State, reading: Seq<char>)
    ensures
        s.awaits(reading) <==> s.comp is Some && s.comp->0.kana == reading && s.comp->0.submode
            == Submode::Japanese,
{
}

/// What stays composed when a segment was committed by itself gets new candidates: they
/// are generated, or asked for where they are deferred, and until they come the
/// remainders of the conversions and the kana itself stand for them.
pub proof fn the_rest_gets_new_candidates(s: State, lex: Lexicon, a: candidates::CandidateView)
    requires
        s.comp is Some,
        s.received(lex, a).1.commit is Some,
    ensures
        ({
            let (s1, r) = s.received(lex, a);
            let c = s1.comp->0;
            &&& c.selected == 0
            &&& c.kana.len() == 0 ==> c.surfaces.len() == 0 && r.candidates == ActionView::Hide
            &&& c.kana.len() > 0 && s.defer_candidates ==> {
                &&& c.surfaces.contains(c.kana)
                &&& r.async_request is Some
                &&& r.async_request->0.reading == c.kana
                &&& r.candidates == (ActionView::Show { surfaces: c.surfaces, selected: 0 })
                &&& r.marked == model::marked(c.surfaces[0], false)
            }
            &&& c.kana.len() > 0 && !s.defer_candidates ==> {
                &&& c.surfaces == offered(lex, s.mode, c.kana).surfaces
                &&& c.paths == offered(lex, s.mode, c.kana).paths
                &&& r.async_request is None
            }
        }),
{
    let t = s.with_comp(s.comp->0.with_candidates(a).counted());
    let c = t.comp->0;
    let n = model::commit_count(c.paths[0]);
    let rest = s.received(lex, a).0.comp->0.kana;
    let all = model::remainders(c.paths, n).push(rest);
    seqs::distinct_keeps_each_once(all);
    assert(all[all.len() - 1] == rest);
    assert(all.contains(rest));
}

/// A conversion of fewer than two segments, and none at all, starts the count of the
/// first segment anew, and nothing is committed by itself.
pub proof fn short_conversions_start_the_count_anew(
    s: State,
    lex: Lexicon,
    a: candidates::CandidateView,
)
    requires
        s.comp is Some,
        a.paths.len() == 0 || a.paths[0].len() < 2,
    ensures
        ({
            let (s1, r) = s.received(lex, a);
            &&& r.commit is None
            &&& s1.comp is Some
            &&& s1.comp->0.stable == 0
            &&& s1.comp->0.first_reading is None
            &&& s1.comp->0.surfaces == a.surfaces
            &&& s1.comp->0.selected == 0
        }),
{
}

/// The space that a toggle put in stays marked as such until something is typed.
pub proof fn typing_settles_the_space(s: State, lex: Lexicon, key: u16, letter: char, flags: u8)
    requires
        s.comp is Some,
        s.comp->0.selected == 0 || s.comp->0.selected >= s.comp->0.surfaces.len(),
        utf8::encode_utf8(s.comp->0.kana).len() < 100,
        types_text(key),
        unmodified(flags),
        'a' <= letter <= 'z',
    ensures
        s.key(lex, key, seq![letter], flags).0.comp is Some,
        !s.key(lex, key, seq![letter], flags).0.comp->0.boundary_space,
{
    lemma_lowered(seq![letter], letter);
}

/// Kana that Backspace leaves gets its candidates anew: they are generated, with the
/// first selected, or asked for where they are deferred. What it leaves without kana and
/// romaji has none.
pub proof fn backspace_renews_the_candidates(s: State, lex: Lexicon, text: Seq<char>, flags: u8)
    requires
        s.comp is Some,
        s.comp->0.submode == Submode::Japanese,
        unmodified(flags),
        typed_text(s.comp->0).len() > 1,
        s.key(lex, 51, text, flags).1.commit is None,
    ensures
        ({
            let (s1, r) = s.key(lex, 51, text, flags);
            let c = s1.comp->0;
            let o = offered(lex, s.mode, c.kana);
            &&& s1.comp is Some
            &&& c.selected == 0
            &&& c.kana.len() > 0 && !s.defer_candidates ==> c.surfaces == o.surfaces && c.paths
                == o.paths
            &&& c.kana.len() > 0 && s.defer_candidates ==> c.surfaces.len() == 1
                && r.async_request is Some && r.async_request->0.reading == c.kana
            &&& c.kana.len() == 0 ==> c.surfaces.len() == 0
            &&& c.kana.len() == 0 && c.pending.len() == 0 ==> r.candidates == ActionView::Hide
        }),
{
    let c = s.comp->0;
    if c.pending.len() == 0 && c.kana.len() == 0 {
        assert(typed_text(c) =~= c.prefix);
    }
}

/// A mark that the romaji table knows starts composing as romaji where nothing is
/// composed, and so does a hyphen.
pub proof fn marks_start_composing(
    s: State,
    lex: Lexicon,
    key: u16,
    mark: char,
    flags: u8,
)
    requires
        s.comp is None,
        s.idle_submode == Submode::Japanese,
        types_text(key),
        unmodified(flags),
        mark == '-' || trie::romaji_table().contains_key(seq![mark]),
        !('A' <= mark <= 'Z'),
    ensures
        ({
            let (s1, r) = s.key(lex, key, seq![mark], flags);
            let k = resolves_to(Seq::empty(), seq![mark]);
            &&& r.consumed
            &&& r.commit is None
            &&& s1.comp is Some
            &&& s1.comp->0.submode == Submode::Japanese
            &&& s1.comp->0.prefix.len() == 0
            &&& s1.comp->0.kana == k.composed
            &&& s1.comp->0.pending == k.pending
        }),
{
    reveal_strlit("-");
    let text = seq![mark];
    let t = if s.ghost_text is Some {
        State { ghost_text: None, ..s }
    } else {
        s
    };
    assert(text[0] == mark);
    if mark == '-' {
        assert(text =~= "-"@);
        assert(model::lowered(text) =~= text);
    } else if 'a' <= mark <= 'z' {
        assert(model::lowered(text) =~= text);
    } else {
        assert(!model::romaji_input(text)) by {
            if text == "-"@ {
                assert(text[0] == "-"@[0]);
            }
        }
    }
    lemma_first_letter(t.with_comp(CompView::fresh(Submode::Japanese)), lex, mark);
}

/// A hyphen goes behind the kana as romaji does.
pub proof fn hyphens_are_romaji(s: State, lex: Lexicon, key: u16, flags: u8)
    requires
        s.comp is Some,
        s.comp->0.submode == Submode::Japanese,
        s.comp->0.selected == 0,
        s.comp->0.pending.len() == 0,
        utf8::encode_utf8(s.comp->0.kana).len() < 100,
        types_text(key),
        unmodified(flags),
    ensures
        ({
            let c = s.comp->0;
            let (s1, r) = s.key(lex, key, seq!['-'], flags);
            let k = resolves_to(c.kana, seq!['-']);
            &&& r.consumed
            &&& s1.comp is Some
            &&& s1.comp->0.pending == k.pending
            &&& r.commit is None ==> s1.comp->0.kana == k.composed && s1.comp->0.prefix == c.prefix
        }),
{
    reveal_strlit("-");
    let text = seq!['-'];
    let t = if s.ghost_text is Some {
        State { ghost_text: None, ..s }
    } else {
        s
    };
    assert(text =~= "-"@);
    assert(model::lowered(text) =~= text);
    assert(s.comp->0.pending + text =~= text);
    lemma_append(t, lex, text);
}

/// The history is to be saved where a choice was committed, and not where kana or text
/// was committed as it is.
pub proof fn choices_are_saved(s: State, lex: Lexicon)
    requires
        s.comp is Some,
    ensures
        s.commit(lex).1.side_effects.save_history <==> s.comp->0.selected
            < s.comp->0.surfaces.len(),
        !s.commit(lex).1.side_effects.switch_to_abc,
        s.commit(lex).0.comp is None,
{
}

proof fn lemma_remainders(paths: Seq<Seq<SegmentText>>, n: int, x: Seq<char>)
    requires
        0 <= n,
    ensures
        model::remainders(paths, n).contains(x) <==> x.len() > 0 && exists|i: int|
            0 <= i < paths.len() && (#[trigger] paths[i]).len() > n && candidates::surface_of(
                paths[i].skip(n),
            ) == x,
    decreases paths.len(),
{
    if paths.len() > 0 {
        let t = paths.drop_last();
        lemma_remainders(t, n, x);
        let s = model::remainders(paths, n);
        let r = model::remainders(t, n);
        let last = paths.len() - 1;
        if r.contains(x) {
            let k = choose|k: int| 0 <= k < r.len() && r[k] == x;
            assert(s[k] == x);
            let i = choose|i: int|
                0 <= i < t.len() && (#[trigger] t[i]).len() > n && candidates::surface_of(
                    t[i].skip(n),
                ) == x;
            assert(paths[i] == t[i]);
        }
        if s.contains(x) && !r.contains(x) {
            let k = choose|k: int| 0 <= k < s.len() && s[k] == x;
            if k < r.len() {
                assert(r[k] == x);
            }
            assert(paths[last].len() > n);
        }
        if x.len() > 0 && exists|i: int|
            0 <= i < paths.len() && (#[trigger] paths[i]).len() > n && candidates::surface_of(
                paths[i].skip(n),
            ) == x {
            let i = choose|i: int|
                0 <= i < paths.len() && (#[trigger] paths[i]).len() > n && candidates::surface_of(
                    paths[i].skip(n),
                ) == x;
            if i < last {
                assert(t[i] == paths[i]);
            } else {
                assert(s == r.push(x));
                assert(s[r.len() as int] == x);
            }
        }
    }
}

/// Until new candidates come, what the conversions leave behind the first segment stands
/// for them, with the kana that is left, each once.
pub proof fn remainders_stand_in_for_candidates(
    s: State,
    lex: Lexicon,
    a: candidates::CandidateView,
    x: Seq<char>,
)
    requires
        s.comp is Some,
        s.defer_candidates,
        s.received(lex, a).1.commit is Some,
        s.received(lex, a).0.comp->0.kana.len() > 0,
        exists|i: int|
            0 <= i < a.paths[0][0].surface.len() && #[trigger] a.paths[0][0].surface[i] as u32
                >= 128,
    ensures
        ({
            let c = s.received(lex, a).0.comp->0;
            &&& c.surfaces.no_duplicates()
            &&& c.surfaces.contains(x) <==> x == c.kana || (x.len() > 0 && exists|i: int|
                0 <= i < a.paths.len() && (#[trigger] a.paths[i]).len() > 1
                    && candidates::surface_of(a.paths[i].skip(1)) == x)
        }),
{
    let p = a.paths[0];
    let i = choose|i: int| 0 <= i < p[0].surface.len() && #[trigger] p[0].surface[i] as u32 >= 128;
    assert(!model::all_ascii(p[0].surface)) by {
        assert(!((p[0].surface[i] as u32) < 0x80));
    }
    let rest = s.received(lex, a).0.comp->0.kana;
    let r = model::remainders(a.paths, 1);
    let all = r.push(rest);
    lemma_remainders(a.paths, 1, x);
    seqs::distinct_keeps_each_once(all);
    assert(all[r.len() as int] == rest);
    if r.contains(x) {
        let k = choose|k: int| 0 <= k < r.len() && r[k] == x;
        assert(all[k] == x);
    }
    if all.contains(x) && x != rest {
        let k = choose|k: int| 0 <= k < all.len() && all[k] == x;
        assert(r[k] == x);
    }
}

/// Going some places on in a circle comes round at its ends.
pub proof fn circles_come_round(current: int, delta: int, count: int)
    requires
        0 <= current < count,
        -count <= delta <= count,
    ensures
        model::cyclic(current, delta, count) == if current + delta < 0 {
            current + delta + count
        } else if current + delta >= count {
            current + delta - count
        } else {
            current + delta
        },
        model::cyclic(current, delta, 0) == 0,
{
    let x = current + delta + count;
    if x < count {
        vstd::arithmetic::div_mod::lemma_small_mod(x as nat, count as nat);
    } else if x < 2 * count {
        vstd::arithmetic::div_mod::lemma_small_mod((x - count) as nat, count as nat);
        vstd::arithmetic::div_mod::lemma_mod_add_multiples_vanish(x - count, count);
    } else {
        vstd::arithmetic::div_mod::lemma_small_mod((x - 2 * count) as nat, count as nat);
        vstd::arithmetic::div_mod::lemma_mod_add_multiples_vanish(x - 2 * count, count);
        vstd::arithmetic::div_mod::lemma_mod_add_multiples_vanish(x - count, count);
    }
}

} // verus!
