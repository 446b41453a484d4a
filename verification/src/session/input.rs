//! A session: the state of composing text, driven by keys.

use vstd::prelude::*;

use super::model::{
    self, CompView, State, BACKSPACE, DOWN, EISU, ENTER, ESCAPE, FLAG_HAS_MODIFIER, FLAG_SHIFT,
    KANA, MAX_CANDIDATES, MAX_COMPOSED_KANA_LENGTH, SPACE, STABLE_COUNT, STABLE_SEGMENTS, TAB, UP,
    YEN,
};
use super::types::{
    self, AsyncCandidateRequest, AsyncGhostRequest, CandidateAction, ConversionMode, KeyResponse,
    MarkedText, Response, SideEffects, Submode, TabAction,
};
use crate::candidates::{
    self, add_new, generate_candidates, generate_prediction_candidates, joined_surface,
    CandidateResponse, Lexicon,
};
use crate::converter::convert::convert;
use crate::converter::postprocess;
use crate::converter::viterbi::ConvertedSegment;
use crate::dict::connection::ConnectionMatrix;
use crate::dict::{Dictionary, TrieDictionary};
use crate::romaji::{convert_romaji, RomajiTrie, TrieLookupResult};
use crate::seqs;
use crate::text::{self, chars_of, clone_texts, push_text, same_text, text_between};
use crate::user_history::{self, UserHistory};

verus! {

/// `str::to_lowercase` gives a text in lower case. In ASCII it maps the letters
/// from `A` to `Z` and leaves all else; beyond, the result is named.
#[verifier::external_body]
fn to_lower(s: &str) -> (r: String)
    ensures
        !model::all_ascii(s@) ==> r@ == model::lowercase(s@),
        model::all_ascii(s@) ==> r@.len() == s@.len(),
        model::all_ascii(s@) ==> forall|i: int|
            0 <= i < s@.len() ==> #[trigger] r@[i] == model::ascii_lower(s@[i]),
{
    s.to_lowercase()
}

/// What is being composed.
pub struct Composition {
    submode: Submode,
    kana: String,
    pending: String,
    prefix: String,
    boundary_space: bool,
    surfaces: Vec<String>,
    paths: Vec<Vec<ConvertedSegment>>,
    selected: usize,
    first_reading: Option<String>,
    stable: usize,
}

impl View for Composition {
    type V = CompView;

    closed spec fn view(&self) -> CompView {
        CompView {
            submode: self.submode,
            kana: self.kana@,
            pending: self.pending@,
            prefix: self.prefix@,
            boundary_space: self.boundary_space,
            surfaces: text::views(self.surfaces@),
            paths: postprocess::segment_lists(self.paths@),
            selected: self.selected,
            first_reading: types::text_of(self.first_reading),
            stable: self.stable,
        }
    }
}

/// `a` followed by `b`.
fn joined(a: &str, b: &str) -> (r: String)
    ensures
        r@ == a@ + b@,
{
    let mut r: String = a.to_owned();
    push_text(&mut r, b);
    r
}

impl Composition {
    fn new(submode: Submode) -> (r: Self)
        ensures
            r@ == CompView::fresh(submode),
    {
        let r = Composition {
            submode,
            kana: String::new(),
            pending: String::new(),
            prefix: String::new(),
            boundary_space: false,
            surfaces: Vec::new(),
            paths: Vec::new(),
            selected: 0,
            first_reading: None,
            stable: 0,
        };
        proof {
            assert(r@.kana =~= Seq::empty());
            assert(r@.surfaces =~= Seq::empty());
            assert(r@.paths =~= Seq::empty());
        }
        r
    }

    /// What is shown.
    pub fn display(&self) -> (r: String)
        ensures
            r@ == self@.display(),
    {
        let mut segment: String = if self.submode == Submode::Japanese && self.selected
            < self.surfaces.len() {
            self.surfaces[self.selected].clone()
        } else {
            self.kana.clone()
        };
        push_text(&mut segment, self.pending.as_str());
        joined(self.prefix.as_str(), segment.as_str())
    }

    /// The prefix with what is composed behind it.
    fn crystallize(&self) -> (r: String)
        ensures
            r@ == self@.crystallized(),
    {
        let mut prefix: String = self.prefix.clone();
        if self.boundary_space {
            let chars = chars_of(prefix.as_str());
            if chars.len() > 0 && chars[chars.len() - 1] == ' ' {
                prefix = text_between(&chars, 0, chars.len() - 1);
                proof {
                    assert(chars@.subrange(0, chars@.len() - 1) =~= chars@.drop_last());
                }
            }
        }
        if self.submode == Submode::Japanese && self.selected < self.surfaces.len() {
            push_text(&mut prefix, self.surfaces[self.selected].as_str());
        } else {
            push_text(&mut prefix, self.kana.as_str());
        }
        prefix
    }

    fn clear_candidates(&mut self)
        ensures
            final(self)@ == old(self)@.without_candidates(),
    {
        self.surfaces = Vec::new();
        self.paths = Vec::new();
        self.selected = 0;
        proof {
            assert(self@.surfaces =~= Seq::empty());
            assert(self@.paths =~= Seq::empty());
        }
    }

    fn reset_stability(&mut self)
        ensures
            final(self)@ == old(self)@.unstable(),
    {
        self.first_reading = None;
        self.stable = 0;
    }

    /// Counts how often in a row the first segment stays.
    fn track(&mut self)
        ensures
            final(self)@ == old(self)@.counted(),
    {
        if self.paths.len() == 0 || self.paths[0].len() < 2 {
            self.reset_stability();
            return ;
        }
        proof {
            assert(self@.paths[0] == text::views(self.paths@[0]@));
            assert(self@.paths[0][0] == self.paths@[0]@[0]@);
        }
        let reading = self.paths[0][0].reading.clone();
        let same: bool = match &self.first_reading {
            Some(prev) => same_text(prev.as_str(), reading.as_str()),
            None => false,
        };
        if same {
            if self.stable < usize::MAX {
                self.stable = self.stable + 1;
            }
        } else {
            self.first_reading = Some(reading);
            self.stable = 1;
        }
    }

    /// Resolves pending romaji.
    fn drain_pending(&mut self, force: bool)
        ensures
            final(self)@ == old(self)@.drained(force),
    {
        let r = convert_romaji(self.kana.as_str(), self.pending.as_str(), force);
        self.kana = r.composed_kana;
        self.pending = r.pending_romaji;
    }

    fn set_candidates(&mut self, c: CandidateResponse)
        ensures
            final(self)@ == old(self)@.with_candidates(c@),
    {
        self.surfaces = c.surfaces;
        self.paths = c.paths;
        self.selected = 0;
    }
}

/// (reading, surface) pairs to be recorded.
pub open spec fn record_views(s: Seq<Vec<(String, String)>>) -> Seq<Seq<(Seq<char>, Seq<char>)>> {
    Seq::new(s.len(), |i: int| user_history::pair_views(s[i]@))
}

/// A session of typing.
pub struct InputSession<'a> {
    dict: &'a TrieDictionary,
    conn: Option<&'a ConnectionMatrix>,
    history: Option<&'a UserHistory>,
    comp: Option<Composition>,
    idle_submode: Submode,
    programmer_mode: bool,
    defer_candidates: bool,
    conversion_mode: ConversionMode,
    history_records: Vec<Vec<(String, String)>>,
    ghost_text: Option<String>,
    ghost_generation: u64,
}

pub open spec fn comp_view(c: Option<Composition>) -> Option<CompView> {
    match c {
        Some(c) => Some(c@),
        None => None,
    }
}

impl<'a> View for InputSession<'a> {
    type V = State;

    closed spec fn view(&self) -> State {
        State {
            comp: comp_view(self.comp),
            idle_submode: self.idle_submode,
            programmer_mode: self.programmer_mode,
            defer_candidates: self.defer_candidates,
            mode: self.conversion_mode,
            records: record_views(self.history_records@),
            ghost_text: types::text_of(self.ghost_text),
            ghost_generation: self.ghost_generation,
        }
    }
}

/// Whether a space goes between text of submode `from` and the other submode.
fn wants_space(from: Submode, text: &str) -> (r: bool)
    ensures
        r == model::wants_space(from, text@),
{
    let chars = chars_of(text);
    if chars.len() == 0 {
        return false;
    }
    let last: char = chars[chars.len() - 1];
    let last_is_ascii: bool = (last as u32) < 0x80;
    if from == Submode::Japanese {
        !last_is_ascii
    } else {
        last_is_ascii && last != ' '
    }
}

/// Whether a text starts with a printable ASCII character.
fn starts_printable(s: &str) -> (r: bool)
    ensures
        r == model::is_printable(s@),
{
    let chars = chars_of(s);
    if chars.len() == 0 {
        return false;
    }
    let val: u32 = chars[0] as u32;
    0x20 <= val && val < 0x7F
}

/// Whether a text is romaji input.
pub fn is_romaji_input(text: &str) -> (r: bool)
    ensures
        r == model::romaji_input(text@),
{
    if same_text(text, "-") {
        return true;
    }
    let chars = chars_of(text);
    if chars.len() == 0 {
        return false;
    }
    let c: char = chars[0];
    ('a' <= c && c <= 'z') || ('A' <= c && c <= 'Z')
}

/// The place `delta` places on from `current` in a circle of `count`.
pub fn cyclic_index(current: usize, delta: i32, count: usize) -> (r: usize)
    requires
        count == 0 || current + delta + count >= 0,
    ensures
        r == model::cyclic(current as int, delta as int, count as int),
{
    if count == 0 {
        return 0;
    }
    let sum: i128 = current as i128 + delta as i128 + count as i128;
    let place: u128 = (sum as u128) % (count as u128);
    place as usize
}

/// Whether a text is ASCII throughout.
fn is_ascii(s: &str) -> (r: bool)
    ensures
        r == model::all_ascii(s@),
{
    let chars = chars_of(s);
    let mut i: usize = 0;
    while i < chars.len()
        invariant
            chars@ == s@,
            i <= chars@.len(),
            forall|j: int| 0 <= j < i ==> (#[trigger] chars@[j] as u32) < 0x80,
        decreases chars@.len() - i,
    {
        if chars[i] as u32 >= 0x80 {
            return false;
        }
        i = i + 1;
    }
    true
}

fn is_sequence(text: &str) -> (r: bool)
    ensures
        r == model::is_sequence(text@),
{
    let trie = RomajiTrie::global();
    match trie.lookup(text) {
        TrieLookupResult::Exact(_) => true,
        TrieLookupResult::ExactAndPrefix(_) => true,
        _ => false,
    }
}

fn marked_text(text: String, dashed: bool) -> (r: Option<MarkedText>)
    ensures
        types::marked_of(r) == model::marked(text@, dashed),
{
    Some(MarkedText { text, dashed })
}

fn clone_paths(v: &Vec<ConvertedSegment>, n: usize) -> (r: Vec<(String, String)>)
    requires
        n <= v@.len(),
    ensures
        user_history::pair_views(r@) == model::path_pairs(text::views(v@).take(n as int)),
{
    let ghost want = model::path_pairs(text::views(v@).take(n as int));
    let mut r: Vec<(String, String)> = Vec::new();
    let mut i: usize = 0;
    while i < n
        invariant
            i <= n <= v@.len(),
            r@.len() == i,
            want == model::path_pairs(text::views(v@).take(n as int)),
            forall|j: int| 0 <= j < i ==> ((#[trigger] r@[j]).0@, r@[j].1@) == want[j],
        decreases n - i,
    {
        proof {
            assert(text::views(v@).take(n as int)[i as int] == v@[i as int]@);
        }
        r.push((v[i].reading.clone(), v[i].surface.clone()));
        i = i + 1;
    }
    proof {
        assert(user_history::pair_views(r@) =~= want);
    }
    r
}

impl<'a> InputSession<'a> {
    /// What candidates are made from.
    pub closed spec fn lex(&self) -> Lexicon {
        candidates::lexicon(self.dict, self.conn, self.history)
    }

    /// Whether the dictionary is intact.
    pub closed spec fn wf(&self) -> bool {
        self.dict.valid()
    }

    /// Whether the session is the same but for its state.
    pub closed spec fn same_sources(&self, other: &InputSession<'a>) -> bool {
        self.dict == other.dict && self.conn == other.conn && self.history == other.history
    }

    /// A session in which nothing is composed.
    pub fn new(
        dict: &'a TrieDictionary,
        conn: Option<&'a ConnectionMatrix>,
        history: Option<&'a UserHistory>,
    ) -> (r: Self)
        requires
            dict.valid(),
        ensures
            r@ == State::initial(),
            r.wf(),
            r.lex() == candidates::lexicon(dict, conn, history),
    {
        let r = InputSession {
            dict,
            conn,
            history,
            comp: None,
            idle_submode: Submode::Japanese,
            programmer_mode: false,
            defer_candidates: false,
            conversion_mode: ConversionMode::Standard,
            history_records: Vec::new(),
            ghost_text: None,
            ghost_generation: 0,
        };
        proof {
            assert(r@.records =~= Seq::empty());
        }
        r
    }

    pub fn set_programmer_mode(&mut self, enabled: bool)
        ensures
            final(self)@ == (State { programmer_mode: enabled, ..old(self)@ }),
            final(self).lex() == old(self).lex(),
            final(self).wf() == old(self).wf(),
    {
        self.programmer_mode = enabled;
    }

    /// With `enabled`, candidates are asked for instead of generated at once.
    pub fn set_defer_candidates(&mut self, enabled: bool)
        ensures
            final(self)@ == (State { defer_candidates: enabled, ..old(self)@ }),
            final(self).lex() == old(self).lex(),
            final(self).wf() == old(self).wf(),
    {
        self.defer_candidates = enabled;
    }

    pub fn set_conversion_mode(&mut self, mode: ConversionMode)
        ensures
            final(self)@ == (State { mode, ..old(self)@ }),
            final(self).lex() == old(self).lex(),
            final(self).wf() == old(self).wf(),
    {
        self.conversion_mode = mode;
    }

    pub fn set_history(&mut self, history: Option<&'a UserHistory>)
        ensures
            final(self)@ == old(self)@,
            final(self).lex() == (Lexicon {
                history: user_history::history_view(history),
                ..old(self).lex()
            }),
            final(self).wf() == old(self).wf(),
    {
        self.history = history;
    }

    pub fn is_composing(&self) -> (r: bool)
        ensures
            r == self@.comp is Some,
    {
        self.comp.is_some()
    }

    /// What is shown; empty when nothing is composed.
    pub fn composed_string(&self) -> (r: String)
        ensures
            r@ == match self@.comp {
                Some(c) => c.display(),
                None => Seq::empty(),
            },
    {
        match &self.comp {
            Some(c) => c.display(),
            None => {
                let r = String::new();
                proof {
                    assert(r@ =~= Seq::empty());
                }
                r
            },
        }
    }

    /// The generation of the last suggestion that was asked for.
    pub fn ghost_generation(&self) -> (r: u64)
        ensures
            r == self@.ghost_generation,
    {
        self.ghost_generation
    }

    /// Takes the choices that are to be recorded.
    pub fn take_history_records(&mut self) -> (r: Vec<Vec<(String, String)>>)
        ensures
            record_views(r@) == old(self)@.records,
            final(self)@ == (State { records: Seq::empty(), ..old(self)@ }),
            final(self).lex() == old(self).lex(),
            final(self).wf() == old(self).wf(),
    {
        let mut r: Vec<Vec<(String, String)>> = Vec::new();
        std::mem::swap(&mut r, &mut self.history_records);
        proof {
            assert(self@.records =~= Seq::empty());
        }
        r
    }

    fn reset_state(&mut self)
        ensures
            final(self)@ == old(self)@.idle(),
            final(self).same_sources(old(self)),
    {
        self.comp = None;
        self.idle_submode = Submode::Japanese;
    }

    /// Records a choice among the candidates of `paths`.
    fn record_history(&mut self, paths: &Vec<Vec<ConvertedSegment>>, reading: &str, surface: &str)
        ensures
            final(self)@ == (State {
                records: if old(self).lex().history is Some {
                    model::with_choice(
                        old(self)@.records,
                        postprocess::segment_lists(paths@),
                        reading@,
                        surface@,
                    )
                } else {
                    old(self)@.records
                },
                ..old(self)@
            }),
            final(self).same_sources(old(self)),
    {
        if self.history.is_none() {
            return ;
        }
        let ghost before = self@.records;
        let ghost pv = postprocess::segment_lists(paths@);
        let ghost f = model::reads_as(surface@);
        let mut pair: Vec<(String, String)> = Vec::new();
        pair.push((reading.to_owned(), surface.to_owned()));
        proof {
            assert(user_history::pair_views(pair@) =~= seq![(reading@, surface@)]);
        }
        self.history_records.push(pair);
        let ghost whole = before.push(seq![(reading@, surface@)]);
        proof {
            assert(self@.records =~= whole);
        }
        let mut i: usize = 0;
        while i < paths.len()
            invariant
                i <= paths@.len(),
                pv == postprocess::segment_lists(paths@),
                f == model::reads_as(surface@),
                seqs::first_place(pv, f) == seqs::first_from(pv, f, i as int),
                self@ == (State { records: whole, ..old(self)@ }),
                self.same_sources(old(self)),
                old(self).lex().history is Some,
                whole == old(self)@.records.push(seq![(reading@, surface@)]),
            decreases paths@.len() - i,
        {
            let joined = joined_surface(&paths[i]);
            proof {
                assert(pv[i as int] == text::views(paths@[i as int]@));
            }
            if same_text(joined.as_str(), surface) {
                if paths[i].len() > 1 {
                    let pairs = clone_paths(&paths[i], paths[i].len());
                    proof {
                        assert(pv[i as int].take(pv[i as int].len() as int) =~= pv[i as int]);
                    }
                    self.history_records.push(pairs);
                    proof {
                        assert(self@.records =~= whole.push(model::path_pairs(pv[i as int])));
                    }
                }
                return ;
            }
            i = i + 1;
        }
    }

    /// Commits prefix and kana as they are.
    fn commit_composed(&mut self) -> (r: KeyResponse)
        requires
            old(self)@.comp is Some,
        ensures
            (final(self)@, r@) == old(self)@.commit_composed(),
            final(self).same_sources(old(self)),
    {
        let mut resp = KeyResponse::consumed();
        if let Some(c) = self.comp.take() {
            let text = joined(c.prefix.as_str(), c.kana.as_str());
            if !text.as_str().is_empty() {
                resp.commit = Some(text);
            } else {
                resp.marked = marked_text(text, false);
                proof {
                    assert(text@ =~= Seq::empty());
                }
            }
        }
        self.reset_state();
        resp
    }

    /// Commits what is composed: the selected candidate, or the kana.
    pub fn commit(&mut self) -> (r: KeyResponse)
        ensures
            (final(self)@, r@) == old(self)@.commit(old(self).lex()),
            final(self).same_sources(old(self)),
            final(self).lex() == old(self).lex(),
            final(self).wf() == old(self).wf(),
    {
        let mut resp = KeyResponse::consumed();
        if let Some(c0) = self.comp.take() {
            let mut c = c0;
            c.drain_pending(true);
            resp.candidates = CandidateAction::Hide;
            if c.selected < c.surfaces.len() {
                let surface = c.surfaces[c.selected].clone();
                self.record_history(&c.paths, c.kana.as_str(), surface.as_str());
                resp.side_effects = SideEffects { switch_to_abc: false, save_history: true };
                resp.commit = Some(joined(c.prefix.as_str(), surface.as_str()));
            } else if !c.kana.as_str().is_empty() || !c.prefix.as_str().is_empty() {
                resp.commit = Some(joined(c.prefix.as_str(), c.kana.as_str()));
            } else {
                let empty = String::new();
                proof {
                    assert(empty@ =~= Seq::empty());
                }
                resp.marked = marked_text(empty, false);
            }
            if self.conversion_mode == ConversionMode::GhostText {
                let context: Option<String> = match &resp.commit {
                    Some(t) => Some(t.clone()),
                    None => None,
                };
                if let Some(context) = context {
                    self.ghost_generation = next_generation(self.ghost_generation);
                    resp.ghost_request = Some(
                        AsyncGhostRequest { context, generation: self.ghost_generation },
                    );
                }
            }
            self.reset_state();
        }
        resp
    }
}

fn next_generation(g: u64) -> (r: u64)
    ensures
        r == model::next_generation(g),
{
    if g == u64::MAX {
        0
    } else {
        g + 1
    }
}

/// The surfaces of the segments from `from` to `to`, one behind the other.
fn surface_between(path: &Vec<ConvertedSegment>, from: usize, to: usize) -> (r: String)
    requires
        from <= to <= path@.len(),
    ensures
        r@ == candidates::surface_of(text::views(path@).subrange(from as int, to as int)),
{
    let ghost p = text::views(path@).subrange(from as int, to as int);
    let mut r = String::new();
    let mut i: usize = from;
    proof {
        assert(r@ =~= candidates::surface_of(p.take(0)));
    }
    while i < to
        invariant
            from <= i <= to <= path@.len(),
            p == text::views(path@).subrange(from as int, to as int),
            r@ == candidates::surface_of(p.take(i - from)),
        decreases to - i,
    {
        proof {
            assert(p.take(i - from + 1).drop_last() =~= p.take(i - from));
            assert(p.take(i - from + 1).last() == path@[i as int]@);
        }
        push_text(&mut r, path[i].surface.as_str());
        i = i + 1;
    }
    proof {
        assert(p.take(p.len() as int) =~= p);
    }
    r
}

/// The readings of the first `n` segments, one behind the other.
fn reading_upto(path: &Vec<ConvertedSegment>, n: usize) -> (r: String)
    requires
        n <= path@.len(),
    ensures
        r@ == model::reading_of(text::views(path@).take(n as int)),
{
    let ghost p = text::views(path@);
    let mut r = String::new();
    let mut i: usize = 0;
    proof {
        assert(r@ =~= model::reading_of(p.take(0)));
    }
    while i < n
        invariant
            i <= n <= path@.len(),
            p == text::views(path@),
            r@ == model::reading_of(p.take(i as int)),
        decreases n - i,
    {
        proof {
            assert(p.take(i as int + 1).drop_last() =~= p.take(i as int));
            assert(p.take(i as int + 1).last() == path@[i as int]@);
        }
        push_text(&mut r, path[i].reading.as_str());
        i = i + 1;
    }
    r
}

/// What follows `head` in `s`; `None` if `s` does not start with it.
fn strip_head(s: &str, head: &str) -> (r: Option<String>)
    ensures
        r is Some <==> head@.is_prefix_of(s@),
        r is Some ==> r->0@ == s@.skip(head@.len() as int),
{
    let a = chars_of(s);
    let b = chars_of(head);
    if b.len() > a.len() {
        return None;
    }
    let mut i: usize = 0;
    while i < b.len()
        invariant
            a@ == s@,
            b@ == head@,
            i <= b@.len() <= a@.len(),
            forall|j: int| 0 <= j < i ==> a@[j] == b@[j],
        decreases b@.len() - i,
    {
        if a[i] != b[i] {
            proof {
                assert(s@.subrange(0, head@.len() as int)[i as int] == a@[i as int]);
            }
            return None;
        }
        i = i + 1;
    }
    proof {
        assert(s@.subrange(0, head@.len() as int) =~= head@);
        assert(a@.subrange(b@.len() as int, a@.len() as int) =~= s@.skip(head@.len() as int));
    }
    Some(text_between(&a, b.len(), a.len()))
}

/// How many segments are committed together.
fn commit_count(path: &Vec<ConvertedSegment>) -> (n: usize)
    requires
        path@.len() >= 2,
    ensures
        n == model::commit_count(text::views(path@)),
        1 <= n < path@.len(),
{
    let ghost p = text::views(path@);
    proof {
        assert(p[0] == path@[0]@);
    }
    if !is_ascii(path[0].surface.as_str()) {
        return 1;
    }
    let mut n: usize = 1;
    while n < path.len() - 1
        invariant_except_break
            model::ascii_run(p, 1) == model::ascii_run(p, n as int),
        invariant
            p == text::views(path@),
            path@.len() >= 2,
            1 <= n < path@.len(),
        ensures
            n == model::ascii_run(p, 1),
        decreases path@.len() - n,
    {
        proof {
            assert(p[n as int] == path@[n as int]@);
        }
        if !is_ascii(path[n].surface.as_str()) {
            break;
        }
        n = n + 1;
    }
    n
}

/// What the conversions leave behind their first `n` segments, and the kana
/// itself, each once.
fn provisional_surfaces(paths: &Vec<Vec<ConvertedSegment>>, n: usize, kana: &str) -> (r: Vec<
    String,
>)
    ensures
        text::views(r@) == seqs::distinct(
            model::remainders(postprocess::segment_lists(paths@), n as int).push(kana@),
        ),
        r@.len() > 0,
{
    let ghost pv = postprocess::segment_lists(paths@);
    let mut r: Vec<String> = Vec::new();
    proof {
        assert(text::views(r@) =~= seqs::distinct(model::remainders(pv.take(0), n as int)));
    }
    let mut i: usize = 0;
    while i < paths.len()
        invariant
            i <= paths@.len(),
            pv == postprocess::segment_lists(paths@),
            text::views(r@) == seqs::distinct(model::remainders(pv.take(i as int), n as int)),
        decreases paths@.len() - i,
    {
        let path = &paths[i];
        proof {
            assert(pv.take(i as int + 1).drop_last() =~= pv.take(i as int));
            assert(pv.take(i as int + 1).last() == text::views(path@));
        }
        if path.len() > n {
            let rest = surface_between(path, n, path.len());
            proof {
                let v = text::views(path@);
                assert(v.subrange(n as int, v.len() as int) =~= v.skip(n as int));
                lemma_distinct_push(model::remainders(pv.take(i as int), n as int), rest@);
            }
            if !rest.as_str().is_empty() {
                add_new(&mut r, rest.as_str());
            }
        }
        i = i + 1;
    }
    proof {
        assert(pv.take(pv.len() as int) =~= pv);
        lemma_distinct_push(model::remainders(pv, n as int), kana@);
    }
    add_new(&mut r, kana);
    proof {
        let all = model::remainders(pv, n as int);
        seqs::distinct_keeps_each_once(all.push(kana@));
        assert(all.push(kana@)[all.len() as int] == kana@);
        assert(all.push(kana@).contains(kana@));
        assert(text::views(r@).contains(kana@));
    }
    r
}

proof fn lemma_distinct_push(s: Seq<Seq<char>>, x: Seq<char>)
    ensures
        seqs::distinct(s.push(x)) == candidates::with_new(seqs::distinct(s), x),
{
    assert(s.push(x).drop_last() =~= s);
}

/// A first segment that is committed by itself.
struct StableHead {
    /// The kana behind it.
    rest: String,
    surface: String,
    /// How many segments it is.
    count: usize,
}

/// Adds to the committed text of an answer.
fn push_commit(resp: &mut KeyResponse, more: &str)
    ensures
        final(resp)@ == model::with_more(old(resp)@, more@),
{
    if more.is_empty() {
        return ;
    }
    let text: String = match &resp.commit {
        Some(t) => joined(t.as_str(), more),
        None => more.to_owned(),
    };
    resp.commit = Some(text);
}

impl<'a> InputSession<'a> {
    /// Generates candidates for the kana of a composition.
    fn update(&self, c: &mut Composition)
        requires
            self.wf(),
        ensures
            final(c)@ == old(c)@.updated(self.lex(), self@.mode),
    {
        if c.kana.as_str().is_empty() {
            c.clear_candidates();
            c.reset_stability();
            return ;
        }
        let found = match self.conversion_mode {
            ConversionMode::Predictive => generate_prediction_candidates(
                self.dict,
                self.conn,
                self.history,
                c.kana.as_str(),
                MAX_CANDIDATES,
            ),
            _ => generate_candidates(
                self.dict,
                self.conn,
                self.history,
                c.kana.as_str(),
                MAX_CANDIDATES,
            ),
        };
        c.set_candidates(found);
        c.track();
    }

    /// Generates candidates for the kana of a composition, if it has none.
    fn ensure(&self, c: &mut Composition)
        requires
            self.wf(),
        ensures
            final(c)@ == old(c)@.ensured(self.lex(), self@.mode),
    {
        if c.surfaces.len() == 0 && !c.kana.as_str().is_empty() {
            self.update(c);
        }
    }

    /// Shows what is composed.
    fn make_marked_text_response(&self) -> (r: KeyResponse)
        requires
            self@.comp is Some,
        ensures
            r@ == self@.shown(),
    {
        let mut resp = KeyResponse::consumed();
        if let Some(c) = &self.comp {
            resp.marked = marked_text(c.display(), c.submode == Submode::English);
        }
        resp
    }

    /// The panel with the candidates, if there are any.
    fn panel(&self) -> (r: CandidateAction)
        requires
            self@.comp is Some,
        ensures
            r@ == self@.panel(),
    {
        if let Some(c) = &self.comp {
            if c.surfaces.len() > 0 {
                return CandidateAction::Show {
                    surfaces: clone_texts(&c.surfaces),
                    selected: c.selected as u32,
                };
            }
        }
        CandidateAction::Keep
    }

    /// Shows what is composed with its candidates.
    fn show_panel(&self) -> (r: KeyResponse)
        requires
            self@.comp is Some,
        ensures
            r@ == (Response { candidates: self@.panel(), ..self@.shown() }),
    {
        let mut resp = self.make_marked_text_response();
        resp.candidates = self.panel();
        resp
    }

    /// Shows what is composed with its candidates, or commits what is stable.
    fn make_marked_text_and_candidates_response(&mut self) -> (r: KeyResponse)
        requires
            old(self).wf(),
            old(self)@.comp is Some,
        ensures
            (final(self)@, r@) == old(self)@.shown_with_candidates(old(self).lex()),
            final(self).same_sources(old(self)),
    {
        if !self.defer_candidates {
            if let Some(resp) = self.try_auto_commit() {
                return resp;
            }
        }
        self.show_panel()
    }

    /// Shows the selected candidate.
    fn make_candidate_selection_response(&self) -> (r: KeyResponse)
        requires
            self@.comp is Some,
        ensures
            r@ == self@.shown_selection(),
    {
        let mut resp = KeyResponse::consumed();
        if let Some(c) = &self.comp {
            resp.marked = marked_text(c.display(), false);
            resp.candidates = CandidateAction::Show {
                surfaces: clone_texts(&c.surfaces),
                selected: c.selected as u32,
            };
        }
        resp
    }

    /// Shows the best conversion and asks for the other candidates.
    fn make_deferred_candidates_response(&mut self) -> (r: KeyResponse)
        requires
            old(self).wf(),
            old(self)@.comp is Some,
        ensures
            (final(self)@, r@) == old(self)@.deferred(old(self).lex()),
            final(self).same_sources(old(self)),
    {
        let mut request: Option<AsyncCandidateRequest> = None;
        if let Some(c0) = self.comp.take() {
            let mut c = c0;
            if c.kana.as_str().is_empty() {
                c.clear_candidates();
            } else {
                let segments = convert(self.dict, self.conn, c.kana.as_str());
                let surface = joined_surface(&segments);
                let mut surfaces: Vec<String> = Vec::new();
                let mut paths: Vec<Vec<ConvertedSegment>> = Vec::new();
                let ghost best = text::views(segments@);
                surfaces.push(surface);
                paths.push(segments);
                proof {
                    assert(text::views(surfaces@) =~= seq![candidates::surface_of(best)]);
                    assert(postprocess::segment_lists(paths@) =~= seq![best]);
                }
                c.set_candidates(CandidateResponse { surfaces, paths });
                request = Some(
                    AsyncCandidateRequest {
                        reading: c.kana.clone(),
                        candidate_dispatch: self.conversion_mode.candidate_dispatch(),
                    },
                );
            }
            self.comp = Some(c);
        }
        let mut resp = self.make_marked_text_response();
        resp.async_request = request;
        resp
    }

    /// Commits the first segment if it has stayed for a while.
    fn try_auto_commit(&mut self) -> (r: Option<KeyResponse>)
        requires
            old(self).wf(),
            old(self)@.comp is Some,
        ensures
            r is Some <==> old(self)@.stable_enough(),
            r is Some ==> (final(self)@, r->0@) == old(self)@.auto_commit(old(self).lex()),
            r is None ==> final(self)@ == old(self)@,
            final(self).same_sources(old(self)),
    {
        let StableHead { rest: rest_kana, surface, count } = match self.stable_head() {
            Some(h) => h,
            None => {
                return None;
            },
        };
        let mut resp = KeyResponse::consumed();
        resp.side_effects = SideEffects { switch_to_abc: false, save_history: true };
        if let Some(c0) = self.comp.take() {
            let mut c = c0;
            let ghost cv = c@;
            let ghost head = cv.paths[0].take(count as int);
            proof {
                assert(cv.paths[0] == text::views(c.paths@[0]@));
            }
            self.record_head(&c.paths[0], count, surface.as_str());
            resp.commit = Some(joined(c.prefix.as_str(), surface.as_str()));
            c.kana = rest_kana;
            c.reset_stability();
            c.prefix = String::new();
            c.boundary_space = false;
            proof {
                assert(c@.prefix =~= Seq::empty());
            }
            let ghost rest = c@;
            if c.kana.as_str().is_empty() {
                c.clear_candidates();
                self.comp = Some(c);
                let empty = String::new();
                proof {
                    assert(empty@ =~= Seq::empty());
                }
                resp.candidates = CandidateAction::Hide;
                resp.marked = marked_text(empty, false);
            } else if self.defer_candidates {
                let provisional = provisional_surfaces(&c.paths, count, c.kana.as_str());
                c.clear_candidates();
                c.surfaces = clone_texts(&provisional);
                resp.marked = marked_text(provisional[0].clone(), false);
                resp.async_request = Some(
                    AsyncCandidateRequest {
                        reading: c.kana.clone(),
                        candidate_dispatch: self.conversion_mode.candidate_dispatch(),
                    },
                );
                resp.candidates = CandidateAction::Show { surfaces: provisional, selected: 0 };
                self.comp = Some(c);
            } else {
                let dashed: bool = c.submode == Submode::English;
                self.update(&mut c);
                let shown: String = if c.surfaces.len() > 0 {
                    c.surfaces[0].clone()
                } else {
                    c.kana.clone()
                };
                resp.marked = marked_text(shown, dashed);
                self.comp = Some(c);
                resp.candidates = self.panel();
            }
        }
        Some(resp)
    }

    /// The first segment, if it has stayed for long enough.
    fn stable_head(&self) -> (r: Option<StableHead>)
        requires
            self@.comp is Some,
        ensures
            r is Some <==> self@.stable_enough(),
            r is Some ==> ({
                let c = self@.comp->0;
                let n = model::commit_count(c.paths[0]);
                &&& r->0.count == n
                &&& 1 <= n < c.paths[0].len()
                &&& r->0.surface@ == candidates::surface_of(c.paths[0].take(n))
                &&& r->0.rest@ == c.kana.skip(
                    model::reading_of(c.paths[0].take(n)).len() as int,
                )
            }),
    {
        if !self.conversion_mode.auto_commit_enabled() {
            return None;
        }
        if let Some(c) = &self.comp {
            if c.stable < STABLE_COUNT || c.paths.len() == 0 || c.selected != 0
                || !c.pending.as_str().is_empty() {
                return None;
            }
            let best = &c.paths[0];
            proof {
                assert(c@.paths[0] == text::views(best@));
            }
            if best.len() < STABLE_SEGMENTS {
                return None;
            }
            let n: usize = commit_count(best);
            let reading = reading_upto(best, n);
            return match strip_head(c.kana.as_str(), reading.as_str()) {
                Some(rest) => {
                    let surface = surface_between(best, 0, n);
                    proof {
                        let v = text::views(best@);
                        assert(v.subrange(0, n as int) =~= v.take(n as int));
                    }
                    Some(StableHead { rest, surface, count: n })
                },
                None => None,
            };
        }
        None
    }

    /// Records the segments that are committed by themselves.
    fn record_head(&mut self, path: &Vec<ConvertedSegment>, n: usize, surface: &str)
        requires
            n <= path@.len(),
            surface@ == candidates::surface_of(text::views(path@).take(n as int)),
        ensures
            ({
                let head = text::views(path@).take(n as int);
                let reading = model::reading_of(head);
                let records1 = if surface@ != reading {
                    old(self)@.records.push(seq![(reading, surface@)])
                } else {
                    old(self)@.records
                };
                final(self)@ == (State {
                    records: if n > 1 {
                        records1.push(model::path_pairs(head))
                    } else {
                        records1
                    },
                    ..old(self)@
                })
            }),
            final(self).same_sources(old(self)),
    {
        let reading = reading_upto(path, n);
        let ghost before = self@.records;
        if !same_text(surface, reading.as_str()) {
            let mut pair: Vec<(String, String)> = Vec::new();
            pair.push((reading.clone(), surface.to_owned()));
            proof {
                assert(user_history::pair_views(pair@) =~= seq![(reading@, surface@)]);
            }
            self.history_records.push(pair);
            proof {
                assert(self@.records =~= before.push(seq![(reading@, surface@)]));
            }
        }
        let ghost mid = self@.records;
        if n > 1 {
            let pairs = clone_paths(path, n);
            self.history_records.push(pairs);
            proof {
                assert(self@.records =~= mid.push(
                    model::path_pairs(text::views(path@).take(n as int)),
                ));
            }
        }
    }

    /// Generates candidates unless romaji is pending, and shows them.
    fn refresh(&mut self) -> (r: KeyResponse)
        requires
            old(self).wf(),
            old(self)@.comp is Some,
        ensures
            (final(self)@, r@) == old(self)@.refreshed(old(self).lex()),
            final(self).same_sources(old(self)),
    {
        if let Some(c0) = self.comp.take() {
            let mut c = c0;
            if c.pending.as_str().is_empty() {
                self.update(&mut c);
            }
            self.comp = Some(c);
        }
        self.make_marked_text_and_candidates_response()
    }

    /// Adds romaji to what is composed.
    fn append_and_convert(&mut self, input: &str) -> (r: KeyResponse)
        requires
            old(self).wf(),
            old(self)@.comp is Some,
        ensures
            (final(self)@, r@) == old(self)@.append(old(self).lex(), input@),
            final(self).same_sources(old(self)),
    {
        let full: bool = match &self.comp {
            Some(c) => c.kana.as_str().as_bytes().len() >= MAX_COMPOSED_KANA_LENGTH,
            None => false,
        };
        if full {
            let resp = self.commit_composed();
            let mut c = Composition::new(Submode::Japanese);
            c.pending = input.to_owned();
            c.drain_pending(false);
            self.comp = Some(c);
            let shown = if self.defer_candidates {
                self.make_deferred_candidates_response()
            } else {
                self.refresh()
            };
            return resp.with_display_from(shown);
        }
        let mut resolved: bool = false;
        if let Some(c0) = self.comp.take() {
            let mut c = c0;
            c.boundary_space = false;
            push_text(&mut c.pending, input);
            c.drain_pending(false);
            resolved = c.pending.as_str().is_empty();
            self.comp = Some(c);
        }
        if !self.defer_candidates {
            self.refresh()
        } else if resolved {
            self.make_deferred_candidates_response()
        } else {
            self.make_marked_text_response()
        }
    }
}

impl<'a> InputSession<'a> {
    /// Takes a suggestion over.
    fn accept_ghost_text(&mut self) -> (r: KeyResponse)
        requires
            old(self)@.ghost_text is Some,
        ensures
            (final(self)@, r@) == old(self)@.accept_ghost(),
            final(self).same_sources(old(self)),
    {
        let mut resp = KeyResponse::consumed();
        if let Some(text) = self.ghost_text.take() {
            self.ghost_generation = next_generation(self.ghost_generation);
            resp.ghost_request = Some(
                AsyncGhostRequest { context: text.clone(), generation: self.ghost_generation },
            );
            resp.commit = Some(text);
        }
        resp
    }

    /// Switches between Japanese and English.
    fn toggle_submode(&mut self) -> (r: KeyResponse)
        ensures
            (final(self)@, r@) == old(self)@.toggle(old(self).lex()),
            final(self).same_sources(old(self)),
    {
        let from: Submode = match &self.comp {
            Some(c) => c.submode,
            None => self.idle_submode,
        };
        let to: Submode = match from {
            Submode::Japanese => Submode::English,
            Submode::English => Submode::Japanese,
        };
        let mut resp = KeyResponse::consumed();
        match self.comp.take() {
            None => {
                self.idle_submode = to;
            },
            Some(c0) => {
                let mut c = c0;
                if !c.pending.as_str().is_empty() {
                    c.drain_pending(true);
                }
                let mut prefix: String = c.crystallize();
                if from == Submode::Japanese && c.selected < c.surfaces.len() {
                    let surface = c.surfaces[c.selected].clone();
                    self.record_history(&c.paths, c.kana.as_str(), surface.as_str());
                }
                let spaced: bool = self.programmer_mode && wants_space(from, prefix.as_str());
                if spaced {
                    prefix.push(' ');
                }
                if !prefix.as_str().is_empty() {
                    resp.marked = marked_text(prefix.clone(), to == Submode::English);
                }
                let mut next = Composition::new(to);
                next.prefix = prefix;
                next.boundary_space = spaced;
                self.comp = Some(next);
                resp.candidates = CandidateAction::Hide;
                resp.side_effects = SideEffects {
                    switch_to_abc: false,
                    save_history: self.history_records.len() > 0,
                };
            },
        }
        resp
    }

    /// Takes the last character away.
    fn handle_backspace(&mut self) -> (r: KeyResponse)
        requires
            old(self).wf(),
            old(self)@.comp is Some,
        ensures
            (final(self)@, r@) == old(self)@.backspace(old(self).lex()),
            final(self).same_sources(old(self)),
    {
        let mut segment_empty: bool = true;
        let mut all_empty: bool = true;
        let mut english: bool = false;
        if let Some(c0) = self.comp.take() {
            let mut c = c0;
            if !c.pending.as_str().is_empty() {
                let _ = c.pending.pop();
            } else if !c.kana.as_str().is_empty() {
                let _ = c.kana.pop();
            } else if !c.prefix.as_str().is_empty() {
                let _ = c.prefix.pop();
            }
            segment_empty = c.kana.as_str().is_empty() && c.pending.as_str().is_empty();
            all_empty = segment_empty && c.prefix.as_str().is_empty();
            english = c.submode == Submode::English;
            if segment_empty && !all_empty {
                c.clear_candidates();
            }
            if !segment_empty && !english && !self.defer_candidates {
                self.update(&mut c);
            }
            self.comp = Some(c);
        }
        if all_empty {
            let mut resp = KeyResponse::consumed();
            let empty = String::new();
            proof {
                assert(empty@ =~= Seq::empty());
            }
            resp.candidates = CandidateAction::Hide;
            resp.marked = marked_text(empty, false);
            self.reset_state();
            resp
        } else if segment_empty {
            let mut resp = self.make_marked_text_response();
            resp.candidates = CandidateAction::Hide;
            resp
        } else if self.defer_candidates && !english {
            self.make_deferred_candidates_response()
        } else {
            self.make_marked_text_and_candidates_response()
        }
    }

    /// Adds text as it is.
    fn type_text(&mut self, text: &str) -> (r: KeyResponse)
        requires
            old(self)@.comp is Some,
        ensures
            (final(self)@, r@) == old(self)@.typed(text@),
            final(self).same_sources(old(self)),
    {
        if let Some(c0) = self.comp.take() {
            let mut c = c0;
            c.boundary_space = false;
            push_text(&mut c.kana, text);
            self.comp = Some(c);
        }
        self.make_marked_text_response()
    }

    /// A key while nothing is composed.
    fn handle_idle(&mut self, key_code: u16, text: &str) -> (r: KeyResponse)
        requires
            old(self).wf(),
            old(self)@.comp is None,
        ensures
            (final(self)@, r@) == old(self)@.idle_key(old(self).lex(), key_code, text@),
            final(self).same_sources(old(self)),
    {
        if key_code == TAB {
            if self.ghost_text.is_some() && self.conversion_mode == ConversionMode::GhostText {
                return self.accept_ghost_text();
            }
            return self.toggle_submode();
        }
        if self.idle_submode == Submode::English {
            if starts_printable(text) {
                self.comp = Some(Composition::new(Submode::English));
                return self.type_text(text);
            }
            return KeyResponse::not_consumed();
        }
        if is_romaji_input(text) {
            self.comp = Some(Composition::new(Submode::Japanese));
            let input = to_lower(text);
            proof {
                assert(input@ =~= model::lowered(text@));
            }
            return self.append_and_convert(input.as_str());
        }
        if is_sequence(text) {
            self.comp = Some(Composition::new(Submode::Japanese));
            return self.append_and_convert(text);
        }
        KeyResponse::not_consumed()
    }

    /// Generates candidates, if there are none yet; returns how many there are,
    /// and which is selected.
    fn ensure_candidates(&mut self) -> (r: (usize, usize))
        requires
            old(self).wf(),
            old(self)@.comp is Some,
        ensures
            ({
                let c = old(self)@.comp->0.ensured(old(self).lex(), old(self)@.mode);
                final(self)@ == old(self)@.with_comp(c) && r.0 == c.surfaces.len() && r.1
                    == c.selected
            }),
            final(self).same_sources(old(self)),
    {
        let mut r: (usize, usize) = (0, 0);
        if let Some(c0) = self.comp.take() {
            let mut c = c0;
            self.ensure(&mut c);
            r = (c.surfaces.len(), c.selected);
            self.comp = Some(c);
        }
        r
    }

    /// Selects a candidate.
    fn select(&mut self, selected: usize) -> (r: KeyResponse)
        requires
            old(self)@.comp is Some,
        ensures
            (final(self)@, r@) == old(self)@.cycled(selected),
            final(self).same_sources(old(self)),
    {
        if let Some(c0) = self.comp.take() {
            let mut c = c0;
            c.selected = selected;
            self.comp = Some(c);
        }
        self.make_candidate_selection_response()
    }

    /// Leaves the kana, without candidates, to be committed by the caller.
    fn handle_escape(&mut self) -> (r: KeyResponse)
        requires
            old(self).wf(),
            old(self)@.comp is Some,
        ensures
            (final(self)@, r@) == old(self)@.composing_key(
                old(self).lex(),
                ESCAPE,
                Seq::empty(),
            ),
            final(self).same_sources(old(self)),
    {
        if let Some(c0) = self.comp.take() {
            let mut c = c0;
            c.drain_pending(true);
            if c.submode == Submode::Japanese && !c.kana.as_str().is_empty() {
                self.record_history(&c.paths, c.kana.as_str(), c.kana.as_str());
            }
            c.clear_candidates();
            self.comp = Some(c);
        }
        let mut resp = KeyResponse::consumed();
        resp.candidates = CandidateAction::Hide;
        resp.side_effects = SideEffects {
            switch_to_abc: false,
            save_history: self.history_records.len() > 0,
        };
        resp
    }

    /// A key while something is composed.
    fn handle_composing(&mut self, key_code: u16, text: &str) -> (r: KeyResponse)
        requires
            old(self).wf(),
            old(self)@.comp is Some,
        ensures
            (final(self)@, r@) == old(self)@.composing_key(old(self).lex(), key_code, text@),
            final(self).same_sources(old(self)),
    {
        let english: bool = match &self.comp {
            Some(c) => c.submode == Submode::English,
            None => false,
        };
        if key_code == ENTER {
            if english {
                let mut resp = self.commit_composed();
                resp.candidates = CandidateAction::Hide;
                return resp;
            }
            let _ = self.ensure_candidates();
            return self.commit();
        }
        if key_code == SPACE {
            if english {
                if let Some(c0) = self.comp.take() {
                    let mut c = c0;
                    c.kana.push(' ');
                    self.comp = Some(c);
                }
                return self.make_marked_text_response();
            }
            let (count, selected): (usize, usize) = self.ensure_candidates();
            if count == 0 {
                return KeyResponse::consumed();
            }
            if selected == 0 && count > 1 {
                return self.select(1);
            }
            return self.select(cyclic_index(selected, 1, count));
        }
        if key_code == DOWN {
            let (count, selected): (usize, usize) = self.ensure_candidates();
            if count == 0 {
                return KeyResponse::consumed();
            }
            return self.select(cyclic_index(selected, 1, count));
        }
        if key_code == UP {
            let (count, selected): (usize, usize) = self.ensure_candidates();
            if count == 0 {
                return KeyResponse::consumed();
            }
            return self.select(cyclic_index(selected, -1, count));
        }
        if key_code == TAB {
            return match self.conversion_mode.tab_action() {
                TabAction::ToggleSubmode => self.toggle_submode(),
                TabAction::Commit => {
                    let _ = self.ensure_candidates();
                    self.commit()
                },
            };
        }
        if key_code == BACKSPACE {
            return self.handle_backspace();
        }
        if key_code == ESCAPE {
            return self.handle_escape();
        }
        self.handle_composing_text(text)
    }

    /// Text while something is composed.
    fn handle_composing_text(&mut self, text: &str) -> (r: KeyResponse)
        requires
            old(self).wf(),
            old(self)@.comp is Some,
        ensures
            (final(self)@, r@) == old(self)@.composing_text(old(self).lex(), text@),
            final(self).same_sources(old(self)),
    {
        let mut english: bool = false;
        let mut continues: bool = false;
        let mut chosen: bool = false;
        if let Some(c) = &self.comp {
            english = c.submode == Submode::English;
            if !c.pending.as_str().is_empty() {
                let candidate = joined(c.pending.as_str(), text);
                let trie = RomajiTrie::global();
                continues = match trie.lookup(candidate.as_str()) {
                    TrieLookupResult::NoMatch => false,
                    _ => true,
                };
            }
            chosen = c.selected > 0 && c.selected < c.surfaces.len();
        }
        if english {
            if starts_printable(text) {
                return self.type_text(text);
            }
            return KeyResponse::consumed();
        }
        if continues {
            return self.append_and_convert(text);
        }
        if is_romaji_input(text) {
            let input = to_lower(text);
            proof {
                assert(input@ =~= model::lowered(text@));
            }
            if chosen {
                let committed = self.commit();
                self.comp = Some(Composition::new(Submode::Japanese));
                let appended = self.append_and_convert(input.as_str());
                return committed.with_display_from(appended);
            }
            return self.append_and_convert(input.as_str());
        }
        if is_sequence(text) {
            let mut resp = self.commit();
            proof {
                reveal_strlit("");
                assert(""@ =~= Seq::empty());
            }
            let result = convert_romaji("", text, true);
            push_commit(&mut resp, result.composed_kana.as_str());
            return resp;
        }
        if let Some(c0) = self.comp.take() {
            let mut c = c0;
            push_text(&mut c.kana, text);
            if !self.defer_candidates {
                self.update(&mut c);
            }
            self.comp = Some(c);
        }
        if self.defer_candidates {
            self.make_deferred_candidates_response()
        } else {
            self.make_marked_text_and_candidates_response()
        }
    }

    /// Processes a key. Bit 0 of `flags` is shift, bit 1 any other modifier.
    pub fn handle_key(&mut self, key_code: u16, text: &str, flags: u8) -> (r: KeyResponse)
        requires
            old(self).wf(),
        ensures
            (final(self)@, r@) == old(self)@.key(old(self).lex(), key_code, text@, flags),
            final(self).lex() == old(self).lex(),
            final(self).wf(),
    {
        let has_modifier: bool = flags & FLAG_HAS_MODIFIER != 0;
        let has_shift: bool = flags & FLAG_SHIFT != 0;
        let clears: bool = self.ghost_text.is_some() && key_code != TAB;
        if clears {
            self.ghost_text = None;
        }
        let mut resp = if key_code == EISU {
            let mut r = self.commit();
            r.side_effects = SideEffects {
                switch_to_abc: true,
                save_history: r.side_effects.save_history,
            };
            r
        } else if key_code == KANA {
            KeyResponse::consumed()
        } else if has_modifier {
            if self.is_composing() {
                let mut r = self.commit();
                r.consumed = false;
                r
            } else {
                KeyResponse::not_consumed()
            }
        } else if key_code == YEN && self.programmer_mode && !has_shift {
            let mut r = self.commit();
            proof {
                reveal_strlit("\\");
                assert("\\"@ =~= seq!['\\']);
            }
            push_commit(&mut r, "\\");
            r
        } else if self.is_composing() {
            self.handle_composing(key_code, text)
        } else {
            self.handle_idle(key_code, text)
        };
        if clears {
            let empty = String::new();
            proof {
                assert(empty@ =~= Seq::empty());
            }
            resp.ghost_text = Some(empty);
        }
        resp
    }

    /// Takes candidates that were asked for; `None` if `reading` is not what is
    /// composed any more.
    pub fn receive_candidates(
        &mut self,
        reading: &str,
        surfaces: Vec<String>,
        paths: Vec<Vec<ConvertedSegment>>,
    ) -> (r: Option<KeyResponse>)
        requires
            old(self).wf(),
        ensures
            r is Some <==> old(self)@.awaits(reading@),
            r is Some ==> (final(self)@, r->0@) == old(self)@.received(
                old(self).lex(),
                (CandidateResponse { surfaces, paths })@,
            ),
            r is None ==> final(self)@ == old(self)@,
            final(self).lex() == old(self).lex(),
            final(self).wf(),
    {
        let wanted: bool = match &self.comp {
            Some(c) => c.submode == Submode::Japanese && same_text(c.kana.as_str(), reading),
            None => false,
        };
        if !wanted {
            return None;
        }
        if let Some(c0) = self.comp.take() {
            let mut c = c0;
            c.set_candidates(CandidateResponse { surfaces, paths });
            c.track();
            self.comp = Some(c);
        }
        match self.try_auto_commit() {
            Some(resp) => Some(resp),
            None => Some(self.show_panel()),
        }
    }

    /// Takes a suggestion; `None` if it is not wanted any more.
    pub fn receive_ghost_text(&mut self, generation: u64, text: String) -> (r: Option<KeyResponse>)
        ensures
            r is Some <==> old(self)@.awaits_ghost(generation),
            r is Some ==> final(self)@ == (State { ghost_text: Some(text@), ..old(self)@ })
                && r->0@ == (Response { ghost_text: Some(text@), ..Response::consumed() }),
            r is None ==> final(self)@ == old(self)@,
            final(self).lex() == old(self).lex(),
            final(self).wf() == old(self).wf(),
    {
        if generation != self.ghost_generation || self.is_composing() || self.conversion_mode
            != ConversionMode::GhostText {
            return None;
        }
        self.ghost_text = Some(text.clone());
        let mut resp = KeyResponse::consumed();
        resp.ghost_text = Some(text);
        Some(resp)
    }
}

impl Composition {
    /// The language that is typed in.
    pub fn submode(&self) -> (r: Submode)
        ensures
            r == self@.submode,
    {
        self.submode
    }

    /// The kana, or in English the text, that is composed.
    pub fn kana(&self) -> (r: &str)
        ensures
            r@ == self@.kana,
    {
        self.kana.as_str()
    }

    /// The romaji that is not resolved yet.
    pub fn pending(&self) -> (r: &str)
        ensures
            r@ == self@.pending,
    {
        self.pending.as_str()
    }

    /// What stays as it is in front.
    pub fn prefix(&self) -> (r: &str)
        ensures
            r@ == self@.prefix,
    {
        self.prefix.as_str()
    }

    /// Whether the prefix ends in a space that a change of language put there.
    pub fn has_boundary_space(&self) -> (r: bool)
        ensures
            r == self@.boundary_space,
    {
        self.boundary_space
    }

    /// The candidates.
    pub fn surfaces(&self) -> (r: &Vec<String>)
        ensures
            text::views(r@) == self@.surfaces,
    {
        &self.surfaces
    }

    /// The conversions that the candidates come from.
    pub fn paths(&self) -> (r: &Vec<Vec<ConvertedSegment>>)
        ensures
            postprocess::segment_lists(r@) == self@.paths,
    {
        &self.paths
    }

    /// The place of the chosen candidate.
    pub fn selected(&self) -> (r: usize)
        ensures
            r == self@.selected,
    {
        self.selected
    }
}

impl<'a> InputSession<'a> {
    /// What is being composed.
    pub fn composition(&self) -> (r: Option<&Composition>)
        ensures
            r is Some <==> self@.comp is Some,
            r is Some ==> r->0@ == self@.comp->0,
    {
        match &self.comp {
            Some(c) => Some(c),
            None => None,
        }
    }

    /// The language that is typed in.
    pub fn submode(&self) -> (r: Submode)
        ensures
            r == match self@.comp {
                Some(c) => c.submode,
                None => self@.idle_submode,
            },
    {
        match &self.comp {
            Some(c) => c.submode,
            None => self.idle_submode,
        }
    }

    /// How candidates are made.
    pub fn conversion_mode(&self) -> (r: ConversionMode)
        ensures
            r == self@.mode,
    {
        self.conversion_mode
    }

    /// The suggestion that is shown.
    pub fn ghost_text(&self) -> (r: Option<&str>)
        ensures
            r is Some <==> self@.ghost_text is Some,
            r is Some ==> r->0@ == self@.ghost_text->0,
    {
        match &self.ghost_text {
            Some(t) => Some(t.as_str()),
            None => None,
        }
    }
}

} // verus!
