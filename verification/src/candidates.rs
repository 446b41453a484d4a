//! Conversion candidates for a reading.

use vstd::prelude::*;

use crate::arith::{self, count_of, sat_sub};
use crate::converter::convert::{self, convert_nbest, convert_nbest_from_lattice};
use crate::converter::cost;
use crate::converter::lattice::{self, Lattice, LatticeView};
use crate::converter::postprocess;
use crate::converter::viterbi::{ConvertedSegment, SegmentText};
use crate::dict::connection::{self, ConnView, ConnectionMatrix};
use crate::dict::trie_dict;
use crate::dict::{self, DictEntry, Dictionary, EntryView, TrieDictionary};
use crate::ordering::{self, stable_sort, Ranked, RankedItem};
use crate::seqs;
use crate::text::{self, contains_text, push_text, same_text};
use crate::user_history::{self, HistoryView, UserHistory};

verus! {

/// How many readings a prediction scans.
pub const SCAN_LIMIT: usize = 1000;

/// How many predictions are ranked by history, at least.
pub const FETCH_LIMIT: usize = 200;

/// How many conversions of the whole reading are offered.
pub const NBEST: usize = 5;

/// How many words a phrase is extended by, at most.
pub const MAX_CHAIN: usize = 5;

/// Candidates for a reading.
pub struct CandidateResponse {
    /// The surfaces to show, in order, each once.
    pub surfaces: Vec<String>,
    /// The conversions of the whole reading, as segments.
    pub paths: Vec<Vec<ConvertedSegment>>,
}

/// What a `CandidateResponse` holds.
pub struct CandidateView {
    pub surfaces: Seq<Seq<char>>,
    pub paths: Seq<Seq<SegmentText>>,
}

impl View for CandidateResponse {
    type V = CandidateView;

    open spec fn view(&self) -> CandidateView {
        CandidateView {
            surfaces: text::views(self.surfaces@),
            paths: postprocess::segment_lists(self.paths@),
        }
    }
}

/// What candidates are made from.
pub struct Lexicon {
    /// The entries of each reading.
    pub words: Map<Seq<char>, Seq<EntryView>>,
    /// The readings that start with a prefix.
    pub completions: spec_fn(Seq<char>) -> Seq<Seq<char>>,
    pub conn: Option<ConnView>,
    pub history: Option<HistoryView>,
}

/// The lexicon of a dictionary, a matrix and a history.
pub open spec fn lexicon(
    dict: &TrieDictionary,
    conn: Option<&ConnectionMatrix>,
    history: Option<&UserHistory>,
) -> Lexicon {
    Lexicon {
        words: dict.words(),
        completions: |prefix: Seq<char>| dict.completions(prefix),
        conn: connection::conn_view(conn),
        history: user_history::history_view(history),
    }
}

/// Other forms of a punctuation mark.
pub open spec fn alternatives(reading: Seq<char>) -> Option<Seq<Seq<char>>> {
    if reading == "。"@ {
        Some(seq!["．"@, "."@])
    } else if reading == "、"@ {
        Some(seq!["，"@, ","@])
    } else if reading == "？"@ {
        Some(seq!["?"@])
    } else if reading == "！"@ {
        Some(seq!["!"@])
    } else if reading == "「"@ {
        Some(seq!["｢"@, "["@])
    } else if reading == "」"@ {
        Some(seq!["｣"@, "]"@])
    } else if reading == "・"@ {
        Some(seq!["／"@, "/"@])
    } else if reading == "〜"@ {
        Some(seq!["~"@])
    } else {
        None
    }
}

fn one(a: &str) -> (r: Vec<String>)
    ensures
        text::views(r@) == seq![a@],
{
    let mut r: Vec<String> = Vec::new();
    r.push(a.to_owned());
    proof {
        assert(text::views(r@) =~= seq![a@]);
    }
    r
}

fn two(a: &str, b: &str) -> (r: Vec<String>)
    ensures
        text::views(r@) == seq![a@, b@],
{
    let mut r: Vec<String> = Vec::new();
    r.push(a.to_owned());
    r.push(b.to_owned());
    proof {
        assert(text::views(r@) =~= seq![a@, b@]);
    }
    r
}

/// Other forms of a punctuation mark; `None` if `reading` is not one.
pub fn punctuation_alternatives(reading: &str) -> (r: Option<Vec<String>>)
    ensures
        r is Some <==> alternatives(reading@) is Some,
        r is Some ==> text::views(r->0@) == alternatives(reading@)->0,
{
    if same_text(reading, "。") {
        Some(two("．", "."))
    } else if same_text(reading, "、") {
        Some(two("，", ","))
    } else if same_text(reading, "？") {
        Some(one("?"))
    } else if same_text(reading, "！") {
        Some(one("!"))
    } else if same_text(reading, "「") {
        Some(two("｢", "["))
    } else if same_text(reading, "」") {
        Some(two("｣", "]"))
    } else if same_text(reading, "・") {
        Some(two("／", "/"))
    } else if same_text(reading, "〜") {
        Some(one("~"))
    } else {
        None
    }
}

/// The surfaces of a path, one behind the other.
pub open spec fn surface_of(path: Seq<SegmentText>) -> Seq<char>
    decreases path.len(),
{
    if path.len() == 0 {
        Seq::empty()
    } else {
        surface_of(path.drop_last()) + path.last().surface
    }
}

/// The surfaces of a path, one behind the other.
pub fn joined_surface(path: &Vec<ConvertedSegment>) -> (r: String)
    ensures
        r@ == surface_of(text::views(path@)),
{
    let ghost p = text::views(path@);
    let mut r = String::new();
    let mut i: usize = 0;
    proof {
        assert(r@ =~= surface_of(p.take(0)));
    }
    while i < path.len()
        invariant
            i <= path@.len(),
            p == text::views(path@),
            r@ == surface_of(p.take(i as int)),
        decreases path@.len() - i,
    {
        proof {
            assert(p.take(i as int + 1).drop_last() =~= p.take(i as int));
            assert(p[i as int] == path@[i as int]@);
        }
        push_text(&mut r, path[i].surface.as_str());
        i = i + 1;
    }
    proof {
        assert(p.take(p.len() as int) =~= p);
    }
    r
}

/// A list with one more item, unless it is there already.
pub open spec fn with_new(list: Seq<Seq<char>>, item: Seq<char>) -> Seq<Seq<char>> {
    if list.contains(item) {
        list
    } else {
        list.push(item)
    }
}

pub(crate) fn add_new(list: &mut Vec<String>, item: &str)
    ensures
        text::views(final(list)@) == with_new(text::views(old(list)@), item@),
{
    if !contains_text(list, item) {
        let ghost before = text::views(list@);
        list.push(item.to_owned());
        proof {
            assert(text::views(list@) =~= before.push(item@));
        }
    }
}

/// Adding new items one by one thins out the whole list.
proof fn lemma_distinct_push(s: Seq<Seq<char>>, x: Seq<char>)
    ensures
        seqs::distinct(s.push(x)) == with_new(seqs::distinct(s), x),
{
    assert(s.push(x).drop_last() =~= s);
}

/// The texts that are not empty.
pub open spec fn nonempty(s: Seq<Seq<char>>) -> Seq<Seq<char>>
    decreases s.len(),
{
    if s.len() == 0 {
        s
    } else if s.last().len() == 0 {
        nonempty(s.drop_last())
    } else {
        nonempty(s.drop_last()).push(s.last())
    }
}

/// The surfaces of entries.
pub open spec fn surfaces_of(s: Seq<(Seq<char>, EntryView)>) -> Seq<Seq<char>> {
    Seq::new(s.len(), |i: int| s[i].1.surface)
}

pub open spec fn entry_surfaces(s: Seq<EntryView>) -> Seq<Seq<char>> {
    Seq::new(s.len(), |i: int| s[i].surface)
}

pub open spec fn larger(a: nat, b: nat) -> nat {
    if a >= b {
        a
    } else {
        b
    }
}

/// The predictions for a reading: the cheapest ones, or those that the history
/// boosts most.
pub open spec fn predictions(
    lex: Lexicon,
    reading: Seq<char>,
    max_results: nat,
) -> Seq<(Seq<char>, EntryView)> {
    let completions = (lex.completions)(reading);
    match lex.history {
        Some(h) => dict::at_most(
            h.ranked(
                trie_dict::ranked_predictions(
                    lex.words,
                    completions,
                    larger(max_results, FETCH_LIMIT as nat),
                    SCAN_LIMIT as nat,
                ),
            ),
            max_results,
        ),
        None => trie_dict::ranked_predictions(
            lex.words,
            completions,
            max_results,
            SCAN_LIMIT as nat,
        ),
    }
}

fn ranked_predictions(
    dict: &TrieDictionary,
    history: Option<&UserHistory>,
    reading: &str,
    max_results: usize,
) -> (r: Vec<(String, DictEntry)>)
    requires
        dict.valid(),
    ensures
        forall|conn: Option<&ConnectionMatrix>|
            text::views(r@) == predictions(
                #[trigger] lexicon(dict, conn, history),
                reading@,
                max_results as nat,
            ),
{
    match history {
        Some(h) => {
            let fetch_limit: usize = if max_results >= FETCH_LIMIT {
                max_results
            } else {
                FETCH_LIMIT
            };
            let found = dict.predict_ranked(reading, fetch_limit, SCAN_LIMIT);
            let mut ranked = h.rank_entries(&found);
            let ghost all = text::views(ranked@);
            if ranked.len() > max_results {
                ranked.truncate(max_results);
                proof {
                    assert(text::views(ranked@) =~= all.take(max_results as int));
                }
            }
            ranked
        },
        None => dict.predict_ranked(reading, max_results, SCAN_LIMIT),
    }
}

/// Candidates for a punctuation mark: what the user chose, the mark itself and
/// its other forms.
pub open spec fn punctuation_candidates(
    lex: Lexicon,
    reading: Seq<char>,
    max_results: nat,
) -> CandidateView {
    let learned = if lex.history is Some {
        surfaces_of(predictions(lex, reading, max_results))
    } else {
        Seq::empty()
    };
    let others = match alternatives(reading) {
        Some(a) => a,
        None => Seq::empty(),
    };
    CandidateView {
        surfaces: seqs::distinct(learned + seq![reading] + others),
        paths: Seq::empty(),
    }
}

fn generate_punctuation_candidates(
    dict: &TrieDictionary,
    conn: Option<&ConnectionMatrix>,
    history: Option<&UserHistory>,
    reading: &str,
    max_results: usize,
) -> (r: CandidateResponse)
    requires
        dict.valid(),
    ensures
        r@ == punctuation_candidates(
            lexicon(dict, conn, history),
            reading@,
            max_results as nat,
        ),
{
    let ghost lex = lexicon(dict, conn, history);
    let mut surfaces: Vec<String> = Vec::new();
    let ghost mut done: Seq<Seq<char>> = Seq::empty();
    proof {
        assert(text::views(surfaces@) =~= seqs::distinct(done));
    }
    if history.is_some() {
        let ranked = ranked_predictions(dict, history, reading, max_results);
        let ghost want = surfaces_of(text::views(ranked@));
        proof {
            assert(done =~= want.take(0));
        }
        let mut i: usize = 0;
        while i < ranked.len()
            invariant
                i <= ranked@.len(),
                want == surfaces_of(text::views(ranked@)),
                done == want.take(i as int),
                text::views(surfaces@) == seqs::distinct(done),
            decreases ranked@.len() - i,
        {
            proof {
                assert(text::views(ranked@)[i as int] == ranked@[i as int]@);
                assert(want.take(i as int + 1) =~= done.push(want[i as int]));
                lemma_distinct_push(done, want[i as int]);
                done = want.take(i as int + 1);
            }
            add_new(&mut surfaces, ranked[i].1.surface.as_str());
            i = i + 1;
        }
        proof {
            assert(want.take(want.len() as int) =~= want);
        }
    }
    let ghost learned = if lex.history is Some {
        surfaces_of(predictions(lex, reading@, max_results as nat))
    } else {
        Seq::empty()
    };
    proof {
        assert(done == learned);
        lemma_distinct_push(done, reading@);
        assert(learned + seq![reading@] =~= done.push(reading@));
    }
    add_new(&mut surfaces, reading);
    let ghost base = learned + seq![reading@];
    let alts = match punctuation_alternatives(reading) {
        Some(a) => a,
        None => Vec::new(),
    };
    let ghost others = text::views(alts@);
    proof {
        assert(base + others.take(0) =~= base);
        assert(others =~= match alternatives(reading@) {
            Some(a) => a,
            None => Seq::empty(),
        });
    }
    let mut i: usize = 0;
    while i < alts.len()
        invariant
            i <= alts@.len(),
            others == text::views(alts@),
            text::views(surfaces@) == seqs::distinct(base + others.take(i as int)),
        decreases alts@.len() - i,
    {
        proof {
            assert(base + others.take(i as int + 1) =~= (base + others.take(i as int)).push(
                others[i as int],
            ));
            lemma_distinct_push(base + others.take(i as int), others[i as int]);
        }
        add_new(&mut surfaces, alts[i].as_str());
        i = i + 1;
    }
    proof {
        assert(others.take(others.len() as int) =~= others);
    }
    let paths: Vec<Vec<ConvertedSegment>> = Vec::new();
    proof {
        assert(postprocess::segment_lists(paths@) =~= Seq::empty());
    }
    CandidateResponse { surfaces, paths }
}

/// The surfaces of paths.
pub open spec fn path_surfaces(paths: Seq<Seq<SegmentText>>) -> Seq<Seq<char>> {
    Seq::new(paths.len(), |i: int| surface_of(paths[i]))
}

/// A list without an item.
pub open spec fn without(s: Seq<Seq<char>>, item: Seq<char>) -> Seq<Seq<char>>
    decreases s.len(),
{
    if s.len() == 0 {
        s
    } else if s.last() == item {
        without(s.drop_last(), item)
    } else {
        without(s.drop_last(), item).push(s.last())
    }
}

/// Conversions with the reading itself: at the top when the user has chosen it
/// before, behind them otherwise.
pub open spec fn with_kana(
    conversions: Seq<Seq<char>>,
    reading: Seq<char>,
    promoted: bool,
) -> Seq<Seq<char>> {
    if promoted {
        seq![reading] + without(conversions, reading)
    } else {
        with_new(conversions, reading)
    }
}

/// Whether the user has chosen the reading itself before.
pub open spec fn kana_promoted(lex: Lexicon, reading: Seq<char>) -> bool {
    match lex.history {
        Some(h) => h.unigram_boost(reading, reading) > 0,
        None => false,
    }
}

/// The entries of a reading; the ones that the user chose first.
pub open spec fn looked_up(lex: Lexicon, reading: Seq<char>) -> Seq<EntryView> {
    if lex.words.contains_key(reading) {
        match lex.history {
            Some(h) => h.reordered(reading, lex.words[reading]),
            None => lex.words[reading],
        }
    } else {
        Seq::empty()
    }
}

/// Candidates for a reading: conversions of the whole of it, the reading itself,
/// predictions, and its entries.
pub open spec fn candidates_around(
    lex: Lexicon,
    reading: Seq<char>,
    paths: Seq<Seq<SegmentText>>,
    max_results: nat,
) -> CandidateView {
    let conversions = seqs::distinct(nonempty(path_surfaces(paths)));
    let head = with_kana(conversions, reading, kana_promoted(lex, reading));
    let predicted = nonempty(surfaces_of(predictions(lex, reading, max_results)));
    CandidateView {
        surfaces: seqs::distinct(head + predicted + entry_surfaces(looked_up(lex, reading))),
        paths,
    }
}

/// The conversions of a lattice that are offered.
pub open spec fn conversions_in(lex: Lexicon, l: LatticeView, reading: Seq<char>) -> Seq<
    Seq<SegmentText>,
> {
    convert::nbest_in(l, cost::default_model(lex.conn), lex.conn, reading, NBEST as nat)
}

/// Candidates for a reading with its conversions.
pub open spec fn normal_candidates(
    lex: Lexicon,
    reading: Seq<char>,
    max_results: nat,
) -> CandidateView {
    candidates_around(
        lex,
        reading,
        conversions_in(lex, lattice::lattice_of(lex.words, reading), reading),
        max_results,
    )
}

proof fn lemma_without(s: Seq<Seq<char>>, item: Seq<char>)
    ensures
        !without(s, item).contains(item),
        forall|x: Seq<char>|
            x != item ==> (#[trigger] without(s, item).contains(x) <==> s.contains(x)),
        s.no_duplicates() ==> without(s, item).no_duplicates(),
        !s.contains(item) ==> without(s, item) == s,
    decreases s.len(),
{
    if s.len() > 0 {
        let p = s.drop_last();
        let w = without(p, item);
        lemma_without(p, item);
        let r = without(s, item);
        assert forall|x: Seq<char>| x != item implies (#[trigger] r.contains(x) <==> s.contains(
            x,
        )) by {
            if s.contains(x) {
                let i = choose|i: int| 0 <= i < s.len() && s[i] == x;
                if i < p.len() {
                    assert(p[i] == x);
                    assert(w.contains(x));
                    let j = choose|j: int| 0 <= j < w.len() && w[j] == x;
                    assert(r[j] == x);
                } else {
                    assert(r[w.len() as int] == x);
                }
            }
            if r.contains(x) {
                let j = choose|j: int| 0 <= j < r.len() && r[j] == x;
                if j < w.len() {
                    assert(w[j] == x);
                    assert(w.contains(x));
                    assert(p.contains(x));
                    let i = choose|i: int| 0 <= i < p.len() && p[i] == x;
                    assert(s[i] == x);
                } else {
                    assert(s[s.len() - 1] == x);
                }
            }
        }
        if r.contains(item) {
            let j = choose|j: int| 0 <= j < r.len() && r[j] == item;
            if j < w.len() {
                assert(w[j] == item);
                assert(w.contains(item));
            }
        }
        if s.no_duplicates() {
            assert(p.no_duplicates());
            if s.last() != item {
                assert(!w.contains(s.last())) by {
                    if w.contains(s.last()) {
                        assert(p.contains(s.last()));
                        let i = choose|i: int| 0 <= i < p.len() && p[i] == s.last();
                        assert(s[i] == s[s.len() - 1]);
                    }
                }
                assert forall|i: int, j: int|
                    0 <= i < r.len() && 0 <= j < r.len() && i != j implies r[i] != r[j] by {
                    if i < w.len() && j < w.len() {
                        assert(w[i] != w[j]);
                    } else if i < w.len() {
                        assert(w.contains(w[i]));
                    } else {
                        assert(w.contains(w[j]));
                    }
                }
            }
        }
        if !s.contains(item) {
            assert(!p.contains(item)) by {
                if p.contains(item) {
                    let i = choose|i: int| 0 <= i < p.len() && p[i] == item;
                    assert(s[i] == item);
                }
            }
            assert(s[s.len() - 1] != item);
            assert(r =~= s);
        }
    }
}

/// Removing the one place at which an item stands is leaving it out.
proof fn lemma_without_is_remove(s: Seq<Seq<char>>, pos: int)
    requires
        s.no_duplicates(),
        0 <= pos < s.len(),
    ensures
        without(s, s[pos]) == s.remove(pos),
    decreases s.len(),
{
    let item = s[pos];
    let p = s.drop_last();
    if pos == s.len() - 1 {
        assert(!p.contains(item)) by {
            if p.contains(item) {
                let i = choose|i: int| 0 <= i < p.len() && p[i] == item;
                assert(s[i] == s[pos]);
            }
        }
        lemma_without(p, item);
        assert(s.remove(pos) =~= p);
    } else {
        assert(p.no_duplicates());
        assert(p[pos] == item);
        lemma_without_is_remove(p, pos);
        assert(s.last() != item);
        assert(s.remove(pos) =~= p.remove(pos).push(s.last()));
    }
}

proof fn lemma_distinct_id(s: Seq<Seq<char>>)
    requires
        s.no_duplicates(),
    ensures
        seqs::distinct(s) == s,
    decreases s.len(),
{
    if s.len() > 0 {
        let p = s.drop_last();
        assert(p.no_duplicates());
        lemma_distinct_id(p);
        assert(!p.contains(s.last())) by {
            if p.contains(s.last()) {
                let i = choose|i: int| 0 <= i < p.len() && p[i] == s.last();
                assert(s[i] == s[s.len() - 1]);
            }
        }
        assert(seqs::distinct(s) =~= s);
    }
}

/// Puts the reading among the conversions.
fn place_kana(surfaces: &mut Vec<String>, reading: &str, promoted: bool)
    requires
        text::views(old(surfaces)@).no_duplicates(),
    ensures
        text::views(final(surfaces)@) == with_kana(
            text::views(old(surfaces)@),
            reading@,
            promoted,
        ),
        text::views(final(surfaces)@).no_duplicates(),
{
    let ghost before = text::views(surfaces@);
    let mut pos: usize = 0;
    while pos < surfaces.len() && !same_text(surfaces[pos].as_str(), reading)
        invariant
            pos <= surfaces@.len(),
            before == text::views(surfaces@),
            forall|j: int| 0 <= j < pos ==> #[trigger] before[j] != reading@,
        decreases surfaces@.len() - pos,
    {
        pos = pos + 1;
    }
    proof {
        lemma_without(before, reading@);
        if pos < surfaces@.len() {
            assert(before[pos as int] == reading@);
            lemma_without_is_remove(before, pos as int);
        } else {
            assert(!before.contains(reading@));
        }
    }
    if promoted {
        if pos < surfaces.len() {
            let kana = surfaces.remove(pos);
            proof {
                assert(text::views(surfaces@) =~= before.remove(pos as int));
            }
            let ghost mid = text::views(surfaces@);
            surfaces.insert(0, kana);
            proof {
                assert(text::views(surfaces@) =~= seq![reading@] + mid);
            }
        } else {
            surfaces.insert(0, reading.to_owned());
            proof {
                assert(text::views(surfaces@) =~= seq![reading@] + before);
            }
        }
        proof {
            let w = without(before, reading@);
            let r = seq![reading@] + w;
            assert forall|i: int, j: int|
                0 <= i < r.len() && 0 <= j < r.len() && i != j implies r[i] != r[j] by {
                if i == 0 {
                    assert(r[j] == w[j - 1]);
                    assert(w.contains(w[j - 1]));
                } else if j == 0 {
                    assert(r[i] == w[i - 1]);
                    assert(w.contains(w[i - 1]));
                } else {
                    assert(r[i] == w[i - 1] && r[j] == w[j - 1]);
                }
            }
        }
    } else if pos >= surfaces.len() {
        surfaces.push(reading.to_owned());
        proof {
            assert(text::views(surfaces@) =~= before.push(reading@));
            let r = before.push(reading@);
            assert forall|i: int, j: int|
                0 <= i < r.len() && 0 <= j < r.len() && i != j implies r[i] != r[j] by {
                if i < before.len() && j < before.len() {
                    assert(before[i] != before[j]);
                } else if i < before.len() {
                    assert(before.contains(before[i]));
                } else {
                    assert(before.contains(before[j]));
                }
            }
        }
    } else {
        proof {
            assert(before.contains(reading@));
        }
    }
}

fn generate_normal_candidates(
    dict: &TrieDictionary,
    conn: Option<&ConnectionMatrix>,
    history: Option<&UserHistory>,
    reading: &str,
    max_results: usize,
) -> (r: CandidateResponse)
    requires
        dict.valid(),
    ensures
        r@ == normal_candidates(lexicon(dict, conn, history), reading@, max_results as nat),
{
    let paths = convert_nbest(dict, conn, reading, NBEST);
    surround(dict, conn, history, reading, paths, max_results)
}

/// Puts conversions of a reading together with the other candidates for it. The
/// matrix has no part in it.
fn surround(
    dict: &TrieDictionary,
    conn: Option<&ConnectionMatrix>,
    history: Option<&UserHistory>,
    reading: &str,
    paths: Vec<Vec<ConvertedSegment>>,
    max_results: usize,
) -> (r: CandidateResponse)
    requires
        dict.valid(),
    ensures
        r@ == candidates_around(
            lexicon(dict, conn, history),
            reading@,
            postprocess::segment_lists(paths@),
            max_results as nat,
        ),
{
    let ghost lex = lexicon(dict, conn, history);
    let ghost pv = postprocess::segment_lists(paths@);
    let ghost ps = path_surfaces(pv);
    let mut surfaces: Vec<String> = Vec::new();
    proof {
        assert(ps.take(0) =~= Seq::empty());
        assert(text::views(surfaces@) =~= seqs::distinct(nonempty(ps.take(0))));
    }
    let mut i: usize = 0;
    while i < paths.len()
        invariant
            i <= paths@.len(),
            pv == postprocess::segment_lists(paths@),
            ps == path_surfaces(pv),
            text::views(surfaces@) == seqs::distinct(nonempty(ps.take(i as int))),
        decreases paths@.len() - i,
    {
        let joined = joined_surface(&paths[i]);
        proof {
            assert(pv[i as int] == text::views(paths@[i as int]@));
            assert(ps.take(i as int + 1).drop_last() =~= ps.take(i as int));
            assert(ps.take(i as int + 1).last() == joined@);
            lemma_distinct_push(nonempty(ps.take(i as int)), joined@);
        }
        if !joined.as_str().is_empty() {
            add_new(&mut surfaces, joined.as_str());
        }
        i = i + 1;
    }
    proof {
        assert(ps.take(ps.len() as int) =~= ps);
        seqs::distinct_keeps_each_once(nonempty(ps));
    }
    let promoted: bool = match history {
        Some(h) => h.unigram_boost(reading, reading) > 0,
        None => false,
    };
    place_kana(&mut surfaces, reading, promoted);
    let ghost head = text::views(surfaces@);
    proof {
        lemma_distinct_id(head);
    }
    let ranked = ranked_predictions(dict, history, reading, max_results);
    let ghost rs = surfaces_of(text::views(ranked@));
    proof {
        assert(rs.take(0) =~= Seq::empty());
        assert(head + nonempty(rs.take(0)) =~= head);
    }
    let mut i: usize = 0;
    while i < ranked.len()
        invariant
            i <= ranked@.len(),
            rs == surfaces_of(text::views(ranked@)),
            text::views(surfaces@) == seqs::distinct(head + nonempty(rs.take(i as int))),
        decreases ranked@.len() - i,
    {
        proof {
            assert(text::views(ranked@)[i as int] == ranked@[i as int]@);
            let x = rs[i as int];
            assert(rs.take(i as int + 1).drop_last() =~= rs.take(i as int));
            let a = head + nonempty(rs.take(i as int));
            assert(head + nonempty(rs.take(i as int)).push(x) =~= a.push(x));
            lemma_distinct_push(a, x);
        }
        if !ranked[i].1.surface.as_str().is_empty() {
            add_new(&mut surfaces, ranked[i].1.surface.as_str());
        }
        i = i + 1;
    }
    proof {
        assert(rs.take(rs.len() as int) =~= rs);
    }
    let ghost base = head + nonempty(rs);
    let entries: Vec<DictEntry> = match dict.lookup(reading) {
        Some(found) => match history {
            Some(h) => h.reorder_candidates(reading, found),
            None => dict::clone_entries(found),
        },
        None => Vec::new(),
    };
    let ghost es = entry_surfaces(text::views(entries@));
    proof {
        assert(text::views(entries@) =~= looked_up(lex, reading@));
        assert(base + es.take(0) =~= base);
    }
    let mut i: usize = 0;
    while i < entries.len()
        invariant
            i <= entries@.len(),
            es == entry_surfaces(text::views(entries@)),
            text::views(surfaces@) == seqs::distinct(base + es.take(i as int)),
        decreases entries@.len() - i,
    {
        proof {
            assert(text::views(entries@)[i as int] == entries@[i as int]@);
            let x = es[i as int];
            assert(base + es.take(i as int + 1) =~= (base + es.take(i as int)).push(x));
            lemma_distinct_push(base + es.take(i as int), x);
        }
        add_new(&mut surfaces, entries[i].surface.as_str());
        i = i + 1;
    }
    proof {
        assert(es.take(es.len() as int) =~= es);
    }
    CandidateResponse { surfaces, paths }
}

/// Candidates for a reading.
pub open spec fn candidates(lex: Lexicon, reading: Seq<char>, max_results: nat) -> CandidateView {
    if reading.len() == 0 {
        CandidateView { surfaces: Seq::empty(), paths: Seq::empty() }
    } else if alternatives(reading) is Some {
        punctuation_candidates(lex, reading, max_results)
    } else {
        normal_candidates(lex, reading, max_results)
    }
}

/// An answer without candidates.
fn no_candidates() -> (r: CandidateResponse)
    ensures
        r@ == (CandidateView { surfaces: Seq::empty(), paths: Seq::empty() }),
{
    let r = CandidateResponse { surfaces: Vec::new(), paths: Vec::new() };
    proof {
        assert(r@.surfaces =~= Seq::empty());
        assert(r@.paths =~= Seq::empty());
    }
    r
}

/// Generates the candidates for a reading.
pub fn generate_candidates(
    dict: &TrieDictionary,
    conn: Option<&ConnectionMatrix>,
    history: Option<&UserHistory>,
    reading: &str,
    max_results: usize,
) -> (r: CandidateResponse)
    requires
        dict.valid(),
    ensures
        r@ == candidates(lexicon(dict, conn, history), reading@, max_results as nat),
{
    if reading.is_empty() {
        return no_candidates();
    }
    if punctuation_alternatives(reading).is_some() {
        generate_punctuation_candidates(dict, conn, history, reading, max_results)
    } else {
        generate_normal_candidates(dict, conn, history, reading, max_results)
    }
}

/// The word that most often came behind `surface`, if any did.
pub open spec fn successor(h: HistoryView, surface: Seq<char>) -> Option<Seq<char>> {
    let s = h.successors(surface);
    if s.len() == 0 {
        None
    } else {
        Some(s[0].surface)
    }
}

/// What follows `current`, word by word, without coming back to a word of
/// `visited`, and at most `n` words.
pub open spec fn chain(
    h: HistoryView,
    current: Seq<char>,
    visited: Seq<Seq<char>>,
    n: nat,
) -> Seq<char>
    decreases n,
{
    match successor(h, current) {
        Some(next) if n > 0 && !visited.contains(next) => next + chain(
            h,
            next,
            visited.push(next),
            (n - 1) as nat,
        ),
        _ => Seq::empty(),
    }
}

/// Whether a word follows `start`.
pub open spec fn is_extended(h: HistoryView, start: Seq<char>, n: nat) -> bool {
    n > 0 && successor(h, start) is Some && successor(h, start)->0 != start
}

/// What follows a word.
pub open spec fn continuation(h: HistoryView, start: Seq<char>, n: nat) -> Seq<char> {
    chain(h, start, seq![start], n)
}

/// Extends a word by the words that followed it; `None` if none did.
pub fn chain_bigram_phrase(history: &UserHistory, start_surface: &str, max_chain: usize) -> (r:
    Option<String>)
    ensures
        r is Some <==> is_extended(history@, start_surface@, max_chain as nat),
        r is Some ==> r->0@ == start_surface@ + continuation(
            history@,
            start_surface@,
            max_chain as nat,
        ),
{
    let ghost h = history@;
    let mut result: String = start_surface.to_owned();
    let mut current: String = start_surface.to_owned();
    let mut visited: Vec<String> = Vec::new();
    visited.push(start_surface.to_owned());
    let mut extended: bool = false;
    let mut left: usize = max_chain;
    let ghost whole = start_surface@ + continuation(h, start_surface@, max_chain as nat);
    proof {
        assert(text::views(visited@) =~= seq![start_surface@]);
    }
    while left > 0
        invariant_except_break
            result@ + chain(h, current@, text::views(visited@), left as nat) == whole,
        invariant
            h == history@,
            left <= max_chain,
            !extended ==> left == max_chain && current@ == start_surface@ && text::views(visited@)
                == seq![start_surface@],
            extended ==> is_extended(h, start_surface@, max_chain as nat),
        ensures
            result@ == whole,
            !extended ==> !is_extended(h, start_surface@, max_chain as nat),
        decreases left,
    {
        let successors = history.bigram_successors(current.as_str());
        proof {
            assert(text::views(successors@) == h.successors(current@));
            if successors@.len() > 0 {
                assert(h.successors(current@)[0] == successors@[0]@);
            }
        }
        if successors.len() == 0 || contains_text(&visited, successors[0].surface.as_str()) {
            proof {
                assert(chain(h, current@, text::views(visited@), left as nat) == Seq::<
                    char,
                >::empty());
                assert(result@ + Seq::<char>::empty() =~= result@);
                if !extended && successors@.len() > 0 {
                    let i = choose|i: int|
                        0 <= i < seq![start_surface@].len() && seq![start_surface@][i]
                            == successors@[0].surface@;
                    assert(seq![start_surface@][i] == start_surface@);
                }
            }
            break;
        }
        let next = &successors[0].surface;
        let ghost before = result@;
        let ghost seen = text::views(visited@);
        proof {
            if !extended {
                assert(seq![start_surface@][0] == start_surface@);
                assert(next@ != start_surface@);
            }
        }
        push_text(&mut result, next.as_str());
        visited.push(next.clone());
        current = next.clone();
        extended = true;
        proof {
            assert(text::views(visited@) =~= seen.push(next@));
            let rest = chain(h, next@, seen.push(next@), (left - 1) as nat);
            assert(before + (next@ + rest) =~= before + next@ + rest);
        }
        left = left - 1;
        proof {
            if left == 0 {
                assert(chain(h, current@, text::views(visited@), 0) == Seq::<char>::empty());
                assert(result@ + Seq::<char>::empty() =~= result@);
            }
        }
    }
    if extended {
        Some(result)
    } else {
        None
    }
}

/// A phrase with its number of characters.
struct Phrase {
    text: String,
    length: usize,
}

/// What a `Phrase` holds.
pub struct PhraseView {
    pub text: Seq<char>,
}

impl View for Phrase {
    type V = PhraseView;

    closed spec fn view(&self) -> PhraseView {
        PhraseView { text: self.text@ }
    }
}

impl Ranked for PhraseView {
    /// The longest phrase first.
    open spec fn rank(&self) -> int {
        arith::minus(0, arith::count(self.text.len())) as int
    }
}

impl Ranked for Phrase {
    closed spec fn rank(&self) -> int {
        arith::minus(0, arith::count(self.length as nat)) as int
    }
}

impl RankedItem for Phrase {
    fn rank_of(&self) -> (r: i64) {
        sat_sub(0, count_of(self.length))
    }
}

/// The phrases that continue conversions, behind their last words.
pub open spec fn continued_paths(
    h: HistoryView,
    paths: Seq<Seq<SegmentText>>,
) -> Seq<PhraseView>
    decreases paths.len(),
{
    if paths.len() == 0 {
        Seq::empty()
    } else {
        let rest = continued_paths(h, paths.drop_last());
        let path = paths.last();
        if path.len() == 0 {
            rest
        } else {
            let more = continuation(h, path.last().surface, MAX_CHAIN as nat);
            if is_extended(h, path.last().surface, MAX_CHAIN as nat) && more.len() > 0 {
                rest.push(PhraseView { text: surface_of(path) + more })
            } else {
                rest
            }
        }
    }
}

/// Whether a path reads as `surface`.
pub open spec fn is_path_surface(paths: Seq<Seq<SegmentText>>, surface: Seq<char>) -> bool {
    exists|i: int| 0 <= i < paths.len() && (#[trigger] paths[i]).len() > 0 && surface_of(paths[i]) == surface
}

/// The phrases that continue candidates other than conversions.
pub open spec fn continued_surfaces(
    h: HistoryView,
    paths: Seq<Seq<SegmentText>>,
    surfaces: Seq<Seq<char>>,
) -> Seq<PhraseView>
    decreases surfaces.len(),
{
    if surfaces.len() == 0 {
        Seq::empty()
    } else {
        let rest = continued_surfaces(h, paths, surfaces.drop_last());
        let s = surfaces.last();
        if !is_path_surface(paths, s) && is_extended(h, s, MAX_CHAIN as nat) {
            rest.push(PhraseView { text: s + continuation(h, s, MAX_CHAIN as nat) })
        } else {
            rest
        }
    }
}

/// The texts of phrases.
pub open spec fn phrase_texts(s: Seq<PhraseView>) -> Seq<Seq<char>> {
    Seq::new(s.len(), |i: int| s[i].text)
}

/// Candidates continued by the words that followed them, the longest first, and
/// then the candidates themselves.
pub open spec fn continued(h: HistoryView, base: CandidateView, max_results: nat) -> CandidateView {
    let phrases = ordering::ranked_order(
        continued_paths(h, base.paths) + continued_surfaces(h, base.paths, base.surfaces),
    );
    CandidateView {
        surfaces: dict::at_most(
            seqs::distinct(phrase_texts(phrases) + base.surfaces),
            max_results,
        ),
        paths: base.paths,
    }
}

/// Candidates that run ahead of the reading.
pub open spec fn prediction_candidates(
    lex: Lexicon,
    reading: Seq<char>,
    max_results: nat,
) -> CandidateView {
    if reading.len() == 0 || alternatives(reading) is Some {
        candidates(lex, reading, max_results)
    } else {
        let base = normal_candidates(lex, reading, max_results);
        match lex.history {
            Some(h) => continued(h, base, max_results),
            None => base,
        }
    }
}

fn continue_paths(h: &UserHistory, paths: &Vec<Vec<ConvertedSegment>>) -> (r: Vec<Phrase>)
    ensures
        text::views(r@) == continued_paths(h@, postprocess::segment_lists(paths@)),
        forall|i: int| 0 <= i < r@.len() ==> (#[trigger] r@[i]).length == r@[i].text@.len(),
{
    let ghost pv = postprocess::segment_lists(paths@);
    let mut phrases: Vec<Phrase> = Vec::new();
    proof {
        assert(text::views(phrases@) =~= continued_paths(h@, pv.take(0)));
    }
    let mut i: usize = 0;
    while i < paths.len()
        invariant
            i <= paths@.len(),
            pv == postprocess::segment_lists(paths@),
            text::views(phrases@) == continued_paths(h@, pv.take(i as int)),
            forall|i: int|
                0 <= i < phrases@.len() ==> (#[trigger] phrases@[i]).length
                    == phrases@[i].text@.len(),
        decreases paths@.len() - i,
    {
        let path = &paths[i];
        let ghost before = text::views(phrases@);
        proof {
            assert(pv.take(i as int + 1).drop_last() =~= pv.take(i as int));
            assert(pv.take(i as int + 1).last() == text::views(path@));
        }
        if path.len() > 0 {
            let last = &path[path.len() - 1].surface;
            let joined = joined_surface(path);
            proof {
                assert(text::views(path@).last() == path@[path@.len() - 1]@);
            }
            if let Some(chained) = chain_bigram_phrase(h, last.as_str(), MAX_CHAIN) {
                let ghost more = continuation(h@, last@, MAX_CHAIN as nat);
                let whole = text::chars_of(chained.as_str());
                let head: usize = last.as_str().unicode_len();
                let tail = text::text_between(&whole, head, whole.len());
                proof {
                    assert(whole@.subrange(head as int, whole@.len() as int) =~= more);
                }
                if !tail.as_str().is_empty() {
                    let mut full: String = joined;
                    push_text(&mut full, tail.as_str());
                    let length: usize = full.as_str().unicode_len();
                    phrases.push(Phrase { text: full, length });
                    proof {
                        assert(text::views(phrases@) =~= before.push(PhraseView { text: full@ }));
                    }
                }
            }
        }
        i = i + 1;
    }
    proof {
        assert(pv.take(pv.len() as int) =~= pv);
    }
    phrases
}

fn reads_as_path(paths: &Vec<Vec<ConvertedSegment>>, surface: &str) -> (r: bool)
    ensures
        r == is_path_surface(postprocess::segment_lists(paths@), surface@),
{
    let ghost pv = postprocess::segment_lists(paths@);
    let mut i: usize = 0;
    while i < paths.len()
        invariant
            i <= paths@.len(),
            pv == postprocess::segment_lists(paths@),
            forall|j: int|
                0 <= j < i ==> !((#[trigger] pv[j]).len() > 0 && surface_of(pv[j]) == surface@),
        decreases paths@.len() - i,
    {
        let joined = joined_surface(&paths[i]);
        proof {
            assert(pv[i as int] == text::views(paths@[i as int]@));
        }
        if paths[i].len() > 0 && same_text(joined.as_str(), surface) {
            return true;
        }
        i = i + 1;
    }
    false
}

/// Continues candidates by the words that followed them.
pub fn continue_candidates(
    h: &UserHistory,
    base: CandidateResponse,
    max_results: usize,
) -> (r: CandidateResponse)
    ensures
        r@ == continued(h@, base@, max_results as nat),
{
    let ghost bs = text::views(base.surfaces@);
    let ghost pv = postprocess::segment_lists(base.paths@);
    let mut phrases = continue_paths(h, &base.paths);
    let ghost cp = continued_paths(h@, pv);
    proof {
        assert(cp + continued_surfaces(h@, pv, bs.take(0)) =~= cp);
    }
    let mut i: usize = 0;
    while i < base.surfaces.len()
        invariant
            i <= base.surfaces@.len(),
            bs == text::views(base.surfaces@),
            pv == postprocess::segment_lists(base.paths@),
            text::views(phrases@) == cp + continued_surfaces(h@, pv, bs.take(i as int)),
            forall|i: int|
                0 <= i < phrases@.len() ==> (#[trigger] phrases@[i]).length
                    == phrases@[i].text@.len(),
        decreases base.surfaces@.len() - i,
    {
        let surface = &base.surfaces[i];
        let ghost before = text::views(phrases@);
        proof {
            assert(bs.take(i as int + 1).drop_last() =~= bs.take(i as int));
            assert(bs.take(i as int + 1).last() == surface@);
        }
        if !reads_as_path(&base.paths, surface.as_str()) {
            if let Some(chained) = chain_bigram_phrase(h, surface.as_str(), MAX_CHAIN) {
                let length: usize = chained.as_str().unicode_len();
                phrases.push(Phrase { text: chained, length });
                proof {
                    assert(text::views(phrases@) =~= before.push(PhraseView { text: chained@ }));
                    assert(text::views(phrases@) =~= cp + continued_surfaces(
                        h@,
                        pv,
                        bs.take(i as int + 1),
                    ));
                }
            }
        }
        i = i + 1;
    }
    proof {
        assert(bs.take(bs.len() as int) =~= bs);
    }
    let ghost all = text::views(phrases@);
    sort_phrases(&mut phrases);
    let ghost texts = phrase_texts(text::views(phrases@));
    let mut surfaces: Vec<String> = Vec::new();
    proof {
        assert(text::views(surfaces@) =~= seqs::distinct(texts.take(0)));
    }
    let mut i: usize = 0;
    while i < phrases.len()
        invariant
            i <= phrases@.len(),
            texts == phrase_texts(text::views(phrases@)),
            text::views(surfaces@) == seqs::distinct(texts.take(i as int)),
        decreases phrases@.len() - i,
    {
        proof {
            assert(text::views(phrases@)[i as int] == phrases@[i as int]@);
            assert(texts.take(i as int + 1) =~= texts.take(i as int).push(texts[i as int]));
            lemma_distinct_push(texts.take(i as int), texts[i as int]);
        }
        add_new(&mut surfaces, phrases[i].text.as_str());
        i = i + 1;
    }
    proof {
        assert(texts.take(texts.len() as int) =~= texts);
        assert(texts + bs.take(0) =~= texts);
    }
    let mut i: usize = 0;
    while i < base.surfaces.len()
        invariant
            i <= base.surfaces@.len(),
            bs == text::views(base.surfaces@),
            text::views(surfaces@) == seqs::distinct(texts + bs.take(i as int)),
        decreases base.surfaces@.len() - i,
    {
        proof {
            assert(texts + bs.take(i as int + 1) =~= (texts + bs.take(i as int)).push(
                bs[i as int],
            ));
            lemma_distinct_push(texts + bs.take(i as int), bs[i as int]);
        }
        add_new(&mut surfaces, base.surfaces[i].as_str());
        i = i + 1;
    }
    let ghost whole = text::views(surfaces@);
    if surfaces.len() > max_results {
        surfaces.truncate(max_results);
        proof {
            assert(text::views(surfaces@) =~= whole.take(max_results as int));
        }
    }
    CandidateResponse { surfaces, paths: base.paths }
}

/// Sorts phrases, the longest first.
fn sort_phrases(phrases: &mut Vec<Phrase>)
    requires
        forall|i: int|
            0 <= i < old(phrases)@.len() ==> (#[trigger] old(phrases)@[i]).length == old(
                phrases,
            )@[i].text@.len(),
    ensures
        text::views(final(phrases)@) == ordering::ranked_order(text::views(old(phrases)@)),
{
    proof {
        lemma_phrase_order(phrases@);
    }
    stable_sort(phrases);
}

proof fn lemma_phrase_order(s: Seq<Phrase>)
    requires
        forall|i: int| 0 <= i < s.len() ==> (#[trigger] s[i]).length == s[i].text@.len(),
    ensures
        text::views(ordering::ranked_order(s)) == ordering::ranked_order(text::views(s)),
        forall|i: int|
            0 <= i < ordering::ranked_order(s).len() ==> (#[trigger] ordering::ranked_order(
                s,
            )[i]).length == ordering::ranked_order(s)[i].text@.len(),
    decreases s.len(),
{
    if s.len() > 0 {
        let p = s.drop_last();
        assert forall|i: int| 0 <= i < p.len() implies (#[trigger] p[i]).length
            == p[i].text@.len() by {
            assert(p[i] == s[i]);
        }
        lemma_phrase_order(p);
        assert(s[s.len() - 1].length == s[s.len() - 1].text@.len());
        lemma_insert_phrase(ordering::ranked_order(p), s.last());
        assert(text::views(s).drop_last() =~= text::views(p));
    } else {
        assert(text::views(s) =~= Seq::empty());
        assert(text::views(ordering::ranked_order(s)) =~= ordering::ranked_order(text::views(s)));
    }
}

proof fn lemma_insert_phrase(s: Seq<Phrase>, x: Phrase)
    requires
        forall|i: int| 0 <= i < s.len() ==> (#[trigger] s[i]).length == s[i].text@.len(),
        x.length == x.text@.len(),
    ensures
        text::views(ordering::insert_ranked(s, x)) == ordering::insert_ranked(text::views(s), x@),
        forall|i: int|
            0 <= i < ordering::insert_ranked(s, x).len() ==> (#[trigger] ordering::insert_ranked(
                s,
                x,
            )[i]).length == ordering::insert_ranked(s, x)[i].text@.len(),
    decreases s.len(),
{
    if s.len() > 0 {
        let p = s.drop_last();
        assert forall|i: int| 0 <= i < p.len() implies (#[trigger] p[i]).length
            == p[i].text@.len() by {
            assert(p[i] == s[i]);
        }
        lemma_insert_phrase(p, x);
        assert(s[s.len() - 1].length == s[s.len() - 1].text@.len());
        assert(text::views(s).drop_last() =~= text::views(p));
        assert(text::views(s).last() == s.last()@);
    }
    assert(text::views(ordering::insert_ranked(s, x)) =~= ordering::insert_ranked(
        text::views(s),
        x@,
    ));
}

/// Generates candidates that run ahead of the reading: conversions continued by
/// the words that followed them before.
pub fn generate_prediction_candidates(
    dict: &TrieDictionary,
    conn: Option<&ConnectionMatrix>,
    history: Option<&UserHistory>,
    reading: &str,
    max_results: usize,
) -> (r: CandidateResponse)
    requires
        dict.valid(),
    ensures
        r@ == prediction_candidates(lexicon(dict, conn, history), reading@, max_results as nat),
{
    if reading.is_empty() {
        return no_candidates();
    }
    if punctuation_alternatives(reading).is_some() {
        return generate_punctuation_candidates(dict, conn, history, reading, max_results);
    }
    let base = generate_normal_candidates(dict, conn, history, reading, max_results);
    match history {
        Some(h) => continue_candidates(h, base, max_results),
        None => base,
    }
}

/// Candidates for the reading of a lattice.
pub open spec fn candidates_in(
    lex: Lexicon,
    l: LatticeView,
    reading: Seq<char>,
    max_results: nat,
) -> CandidateView {
    if reading.len() == 0 || alternatives(reading) is Some {
        candidates(lex, reading, max_results)
    } else {
        candidates_around(lex, reading, conversions_in(lex, l, reading), max_results)
    }
}

/// Candidates that run ahead of the reading of a lattice.
pub open spec fn prediction_candidates_in(
    lex: Lexicon,
    l: LatticeView,
    reading: Seq<char>,
    max_results: nat,
) -> CandidateView {
    let base = candidates_in(lex, l, reading, max_results);
    if reading.len() == 0 || alternatives(reading) is Some {
        base
    } else {
        match lex.history {
            Some(h) => continued(h, base, max_results),
            None => base,
        }
    }
}

/// Generates the candidates for the reading of a lattice that is built already.
pub fn generate_candidates_from_lattice(
    lattice: &Lattice,
    dict: &TrieDictionary,
    conn: Option<&ConnectionMatrix>,
    history: Option<&UserHistory>,
    max_results: usize,
) -> (r: CandidateResponse)
    requires
        lattice@.wf(),
        dict.valid(),
    ensures
        r@ == candidates_in(
            lexicon(dict, conn, history),
            lattice@,
            lattice.input@,
            max_results as nat,
        ),
{
    let reading = lattice.input.as_str();
    if reading.is_empty() {
        return no_candidates();
    }
    if punctuation_alternatives(reading).is_some() {
        return generate_punctuation_candidates(dict, conn, history, reading, max_results);
    }
    let paths = convert_nbest_from_lattice(lattice, conn, NBEST);
    surround(dict, conn, history, reading, paths, max_results)
}

/// Generates candidates that run ahead of the reading of a lattice that is built
/// already.
pub fn generate_prediction_candidates_from_lattice(
    lattice: &Lattice,
    dict: &TrieDictionary,
    conn: Option<&ConnectionMatrix>,
    history: Option<&UserHistory>,
    max_results: usize,
) -> (r: CandidateResponse)
    requires
        lattice@.wf(),
        dict.valid(),
    ensures
        r@ == prediction_candidates_in(
            lexicon(dict, conn, history),
            lattice@,
            lattice.input@,
            max_results as nat,
        ),
{
    let reading = lattice.input.as_str();
    let base = generate_candidates_from_lattice(lattice, dict, conn, history, max_results);
    if reading.is_empty() || punctuation_alternatives(reading).is_some() {
        return base;
    }
    match history {
        Some(h) => continue_candidates(h, base, max_results),
        None => base,
    }
}

/// A lattice that is built already gives the candidates that its reading gives.
pub proof fn prepared_lattices_change_nothing(lex: Lexicon, reading: Seq<char>, max_results: nat)
    ensures
        ({
            let l = lattice::lattice_of(lex.words, reading);
            &&& candidates_in(lex, l, reading, max_results) == candidates(
                lex,
                reading,
                max_results,
            )
            &&& prediction_candidates_in(lex, l, reading, max_results) == prediction_candidates(
                lex,
                reading,
                max_results,
            )
        }),
{
}

/// No surface is offered twice.
pub proof fn candidates_are_distinct(lex: Lexicon, reading: Seq<char>, max_results: nat)
    ensures
        candidates(lex, reading, max_results).surfaces.no_duplicates(),
        prediction_candidates(lex, reading, max_results).surfaces.no_duplicates(),
{
    let p = punctuation_candidates(lex, reading, max_results);
    let n = normal_candidates(lex, reading, max_results);
    lemma_surfaces_distinct(p.surfaces);
    lemma_surfaces_distinct(n.surfaces);
    let learned = if lex.history is Some {
        surfaces_of(predictions(lex, reading, max_results))
    } else {
        Seq::empty()
    };
    let others = match alternatives(reading) {
        Some(a) => a,
        None => Seq::empty(),
    };
    seqs::distinct_keeps_each_once(learned + seq![reading] + others);
    let conversions = seqs::distinct(nonempty(path_surfaces(n.paths)));
    let head = with_kana(conversions, reading, kana_promoted(lex, reading));
    let predicted = nonempty(surfaces_of(predictions(lex, reading, max_results)));
    seqs::distinct_keeps_each_once(
        head + predicted + entry_surfaces(looked_up(lex, reading)),
    );
    if let Some(h) = lex.history {
        let phrases = ordering::ranked_order(
            continued_paths(h, n.paths) + continued_surfaces(h, n.paths, n.surfaces),
        );
        seqs::distinct_keeps_each_once(phrase_texts(phrases) + n.surfaces);
    }
}

proof fn lemma_surfaces_distinct(s: Seq<Seq<char>>)
    ensures
        s.no_duplicates() ==> forall|n: int| 0 <= n <= s.len() ==> (#[trigger] s.take(n)).no_duplicates(),
{
}

/// A reading that the user has chosen as it is comes first among its candidates,
/// and a reading that has candidates is always one of them.
pub proof fn kana_is_a_candidate(lex: Lexicon, reading: Seq<char>, max_results: nat)
    requires
        reading.len() > 0,
    ensures
        candidates(lex, reading, max_results).surfaces.contains(reading),
        alternatives(reading) is None && kana_promoted(lex, reading) ==> candidates(
            lex,
            reading,
            max_results,
        ).surfaces[0] == reading,
{
    let n = normal_candidates(lex, reading, max_results);
    let learned = if lex.history is Some {
        surfaces_of(predictions(lex, reading, max_results))
    } else {
        Seq::empty()
    };
    let others = match alternatives(reading) {
        Some(a) => a,
        None => Seq::empty(),
    };
    let all = learned + seq![reading] + others;
    seqs::distinct_keeps_each_once(all);
    assert(all[learned.len() as int] == reading);
    assert(all.contains(reading));
    let conversions = seqs::distinct(nonempty(path_surfaces(n.paths)));
    let head = with_kana(conversions, reading, kana_promoted(lex, reading));
    let predicted = nonempty(surfaces_of(predictions(lex, reading, max_results)));
    let list = head + predicted + entry_surfaces(looked_up(lex, reading));
    seqs::distinct_keeps_each_once(list);
    assert(head.contains(reading)) by {
        if kana_promoted(lex, reading) {
            assert(head[0] == reading);
        } else if !conversions.contains(reading) {
            assert(head[conversions.len() as int] == reading);
        }
    }
    let i = choose|i: int| 0 <= i < head.len() && head[i] == reading;
    assert(list[i] == reading);
    assert(list.contains(reading));
    if kana_promoted(lex, reading) {
        lemma_distinct_first(list);
        assert(list[0] == reading);
    }
}

proof fn lemma_distinct_first(s: Seq<Seq<char>>)
    requires
        s.len() > 0,
    ensures
        seqs::distinct(s).len() > 0,
        seqs::distinct(s)[0] == s[0],
    decreases s.len(),
{
    if s.len() > 1 {
        lemma_distinct_first(s.drop_last());
    } else {
        assert(s.drop_last() =~= Seq::empty());
        assert(seqs::distinct(s.drop_last()) =~= Seq::empty());
    }
}

} // verus!
