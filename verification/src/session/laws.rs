//! What holds of every session.

use vstd::prelude::*;

use super::model::{
    self, CompView, State, EISU, ESCAPE, KANA, TAB,
};
use super::types::{ConversionMode, Response, Submode};
use crate::candidates::{self, CandidateView, Lexicon};
use crate::romaji::convert::{self as romaji, KanaView};
use crate::romaji::trie;

verus! {

impl CompView {
    /// The selected candidate is one of the candidates, and English text has no
    /// pending romaji.
    pub open spec fn sound(self) -> bool {
        &&& self.selected == 0 || self.has_selection()
        &&& self.submode == Submode::English ==> self.pending.len() == 0
    }
}

impl State {
    pub open spec fn sound(self) -> bool {
        match self.comp {
            Some(c) => c.sound(),
            None => true,
        }
    }

    pub open spec fn composes_japanese(self) -> bool {
        self.comp is Some && self.comp->0.submode == Submode::Japanese
    }
}

/// A step leaves a sound state, and asks for candidates only for what is
/// composed then.
pub open spec fn good(next: (State, Response)) -> bool {
    &&& next.0.sound()
    &&& next.1.async_request is Some ==> next.0.awaits(next.1.async_request->0.reading)
}

proof fn lemma_auto_commit(s: State, lex: Lexicon)
    requires
        s.sound(),
        s.comp is Some,
        s.stable_enough(),
        s.defer_candidates ==> s.composes_japanese(),
    ensures
        good(s.auto_commit(lex)),
{
}

proof fn lemma_shown(s: State, lex: Lexicon)
    requires
        s.sound(),
        s.comp is Some,
    ensures
        good(s.shown_with_candidates(lex)),
        s.composes_japanese() ==> good(s.deferred(lex)),
        s.composes_japanese() ==> good(s.refreshed(lex)),
{
    if s.stable_enough() && !s.defer_candidates {
        lemma_auto_commit(s, lex);
    }
    let c = s.comp->0;
    let u = s.with_comp(c.updated(lex, s.mode));
    if u.stable_enough() && !s.defer_candidates {
        lemma_auto_commit(u, lex);
    }
}

proof fn lemma_append(s: State, lex: Lexicon, input: Seq<char>)
    requires
        s.sound(),
        s.composes_japanese(),
    ensures
        good(s.append(lex, input)),
{
    let c = s.comp->0;
    let (s1, r1) = s.commit_composed();
    let s2 = s1.with_comp(
        CompView { pending: input, ..CompView::fresh(Submode::Japanese) }.drained(false),
    );
    lemma_shown(s2, lex);
    let s3 = s.with_comp(
        CompView { pending: c.pending + input, boundary_space: false, ..c }.drained(false),
    );
    lemma_shown(s3, lex);
}

proof fn lemma_commit(s: State, lex: Lexicon)
    requires
        s.sound(),
    ensures
        good(s.commit(lex)),
        s.commit(lex).0.comp is None,
{
}

proof fn lemma_toggle(s: State, lex: Lexicon)
    requires
        s.sound(),
    ensures
        good(s.toggle(lex)),
{
}

proof fn lemma_backspace(s: State, lex: Lexicon)
    requires
        s.sound(),
        s.comp is Some,
    ensures
        good(s.backspace(lex)),
{
    let c0 = s.comp->0;
    let c = if c0.pending.len() > 0 {
        CompView { pending: c0.pending.drop_last(), ..c0 }
    } else if c0.kana.len() > 0 {
        CompView { kana: c0.kana.drop_last(), ..c0 }
    } else if c0.prefix.len() > 0 {
        CompView { prefix: c0.prefix.drop_last(), ..c0 }
    } else {
        c0
    };
    lemma_shown(s.with_comp(c), lex);
    lemma_shown(s.with_comp(c.updated(lex, s.mode)), lex);
}

proof fn lemma_composing_text(s: State, lex: Lexicon, text: Seq<char>)
    requires
        s.sound(),
        s.comp is Some,
    ensures
        good(s.composing_text(lex, text)),
{
    let c = s.comp->0;
    if c.submode == Submode::Japanese {
        lemma_append(s, lex, text);
        lemma_append(s, lex, model::lowered(text));
        lemma_commit(s, lex);
        let s1 = s.commit(lex).0.with_comp(CompView::fresh(Submode::Japanese));
        lemma_append(s1, lex, model::lowered(text));
        let k = s.with_comp(CompView { kana: c.kana + text, ..c });
        lemma_shown(k, lex);
        lemma_shown(k.with_comp(k.comp->0.updated(lex, s.mode)), lex);
    }
}

proof fn lemma_composing_key(s: State, lex: Lexicon, key: u16, text: Seq<char>)
    requires
        s.sound(),
        s.comp is Some,
    ensures
        good(s.composing_key(lex, key, text)),
{
    let c = s.comp->0;
    let e = c.ensured(lex, s.mode);
    if key == model::TAB && s.mode == ConversionMode::Standard {
        lemma_toggle(s, lex);
    } else if key == model::ENTER || key == model::TAB {
        if !(key == model::ENTER && c.submode == Submode::English) {
            lemma_commit(s.with_comp(e), lex);
        }
    } else if key == model::BACKSPACE {
        lemma_backspace(s, lex);
    } else if key == model::SPACE || key == model::UP || key == model::DOWN
        || key == model::ESCAPE {
    } else {
        lemma_composing_text(s, lex, text);
    }
}

proof fn lemma_idle_key(s: State, lex: Lexicon, key: u16, text: Seq<char>)
    requires
        s.comp is None,
    ensures
        good(s.idle_key(lex, key, text)),
{
    lemma_toggle(s, lex);
    let j = s.with_comp(CompView::fresh(Submode::Japanese));
    lemma_append(j, lex, text);
    lemma_append(j, lex, model::lowered(text));
}

/// Every key leaves a sound state, and what it asks candidates for is what is
/// composed then, so that the reply is still wanted.
pub proof fn keys_keep_the_session_sound(
    s: State,
    lex: Lexicon,
    key: u16,
    text: Seq<char>,
    flags: u8,
)
    requires
        s.sound(),
    ensures
        good(s.key(lex, key, text, flags)),
{
    let clears = s.ghost_text is Some && key != TAB;
    let t = if clears {
        State { ghost_text: None, ..s }
    } else {
        s
    };
    lemma_commit(t, lex);
    if t.comp is Some {
        lemma_composing_key(t, lex, key, text);
    } else {
        lemma_idle_key(t, lex, key, text);
    }
}

/// Candidates that arrive leave a sound state, too.
pub proof fn candidates_keep_the_session_sound(
    s: State,
    lex: Lexicon,
    reading: Seq<char>,
    c: CandidateView,
)
    requires
        s.sound(),
        s.awaits(reading),
    ensures
        good(s.received(lex, c)),
{
    let t = s.with_comp(s.comp->0.with_candidates(c).counted());
    if t.stable_enough() {
        lemma_auto_commit(t, lex);
    }
}

/// A commit leaves nothing composed.
pub proof fn commit_ends_composing(s: State, lex: Lexicon)
    ensures
        s.commit(lex).0.comp is None,
        s.comp is Some ==> s.commit(lex).0.idle_submode == Submode::Japanese,
{
}

/// When nothing is left to resolve, a commit gives what is shown: the text, if
/// there is any.
pub proof fn commit_gives_what_is_shown(s: State, lex: Lexicon)
    requires
        s.comp is Some,
        s.comp->0.drained(true) == s.comp->0,
        s.comp->0.pending.len() == 0,
        s.comp->0.submode == Submode::Japanese,
    ensures
        s.comp->0.display().len() > 0 ==> s.commit(lex).1.commit == Some(s.comp->0.display()),
        s.comp->0.display().len() == 0 && s.comp->0.surfaces.len() == 0 ==> s.commit(lex).1.commit
            is None,
{
    let c = s.comp->0;
    assert(c.display() =~= c.prefix + c.current());
}

/// What is committed by itself and what stays composed make up the reading that
/// was composed.
pub proof fn auto_commit_loses_no_reading(s: State, lex: Lexicon)
    requires
        s.comp is Some,
        s.stable_enough(),
    ensures
        ({
            let c = s.comp->0;
            let head = c.paths[0].take(model::commit_count(c.paths[0]));
            let (s1, r1) = s.auto_commit(lex);
            &&& c.kana == model::reading_of(head) + s1.comp->0.kana
            &&& r1.commit == Some(c.prefix + candidates::surface_of(head))
            &&& s1.comp->0.prefix.len() == 0
        }),
{
    let c = s.comp->0;
    let head = c.paths[0].take(model::commit_count(c.paths[0]));
    let reading = model::reading_of(head);
    assert(c.kana.subrange(0, reading.len() as int) == reading);
    assert(c.kana =~= reading + c.kana.skip(reading.len() as int));
}

/// Toggling twice while nothing is composed changes nothing.
pub proof fn idle_toggle_undoes_itself(s: State, lex: Lexicon)
    requires
        s.comp is None,
    ensures
        s.toggle(lex).0.toggle(lex).0 == s,
{
}

/// Outside programmer mode, toggling keeps what is shown once romaji is resolved.
pub proof fn toggle_keeps_what_is_shown(s: State, lex: Lexicon)
    requires
        s.comp is Some,
        s.comp->0.pending.len() == 0,
        !s.comp->0.boundary_space,
        !s.programmer_mode,
    ensures
        s.toggle(lex).0.comp is Some,
        s.toggle(lex).0.comp->0.display() == s.comp->0.display(),
        s.toggle(lex).0.comp->0.submode != s.comp->0.submode,
{
    let c = s.comp->0;
    let d = s.toggle(lex).0.comp->0;
    assert(d.display() =~= d.prefix);
    assert(c.display() =~= c.prefix + c.current());
}

/// Escape leaves the kana to be committed: a commit right behind it gives the
/// prefix with the kana as it was resolved.
pub proof fn escape_commits_kana(s: State, lex: Lexicon, text: Seq<char>, flags: u8)
    requires
        s.comp is Some,
        !model::has_modifier(flags),
        !romaji::has_lower(s.comp->0.drained(true).kana),
        s.comp->0.drained(true).kana.len() > 0,
    ensures
        s.key(lex, ESCAPE, text, flags).0.commit(lex).1.commit == Some(
            s.comp->0.prefix + s.comp->0.drained(true).kana,
        ),
{
    let f = s.comp->0.drained(true);
    let k = KanaView { composed: s.comp->0.kana, pending: s.comp->0.pending };
    romaji::forced_conversion_leaves_nothing_pending(trie::romaji_table(), k);
    assert(f.pending.len() == 0);
    let f2 = f.without_candidates();
    let k2 = KanaView { composed: f2.kana, pending: f2.pending };
    assert(romaji::drained(trie::romaji_table(), k2, true) == k2);
    assert(f2.drained(true) == f2);
}

/// A key with a modifier is left to the caller.
pub proof fn modified_keys_pass_through(
    s: State,
    lex: Lexicon,
    key: u16,
    text: Seq<char>,
    flags: u8,
)
    requires
        model::has_modifier(flags),
        key != EISU,
        key != KANA,
    ensures
        !s.key(lex, key, text, flags).1.consumed,
        s.key(lex, key, text, flags).0.comp is None,
{
}

/// Every key but Tab takes a suggestion away, and says so.
pub proof fn keys_clear_suggestions(
    s: State,
    lex: Lexicon,
    key: u16,
    text: Seq<char>,
    flags: u8,
)
    requires
        s.ghost_text is Some,
        key != TAB,
    ensures
        s.key(lex, key, text, flags).1.ghost_text == Some(Seq::<char>::empty()),
{
}

/// In programmer mode a toggle puts a space where the scripts meet, and a second
/// toggle with nothing typed in between takes it back.
pub proof fn second_toggle_takes_the_space_back(s: State, lex: Lexicon)
    requires
        s.programmer_mode,
        s.comp is Some,
        s.comp->0.pending.len() == 0,
        !s.comp->0.boundary_space,
        model::wants_space(s.comp->0.submode, s.comp->0.display()),
    ensures
        ({
            let c = s.comp->0;
            let t = c.display();
            let (s1, r1) = s.toggle(lex);
            let (s2, r2) = s1.toggle(lex);
            &&& s1.comp == Some(
                CompView {
                    prefix: t.push(' '),
                    boundary_space: true,
                    ..CompView::fresh(model::flipped(c.submode))
                },
            )
            &&& r1.marked is Some && r1.marked->0.text == t.push(' ')
            &&& s2.comp == Some(CompView { prefix: t, ..CompView::fresh(c.submode) })
            &&& r2.marked is Some && r2.marked->0.text == t
        }),
{
    let c = s.comp->0;
    let t = c.display();
    assert(c.crystallized() =~= t);
    let c1 = s.toggle(lex).0.comp->0;
    assert(c1.prefix == t.push(' '));
    assert(c1.crystallized() =~= t);
}

} // verus!
