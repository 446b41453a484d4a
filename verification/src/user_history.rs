//! What the user has committed before, and how much it counts.

use vstd::prelude::*;

use crate::arith::{self, sat_mul, sat_sub};
use crate::dict::{DictEntry, EntryView};
use crate::ordering::{self, stable_sort, Ranked, RankedItem};
use crate::seqs;
use crate::text::{self, same_text};

verus! {

/// What one use of a word, or of a pair of words, takes off the cost of a path.
pub const BOOST_PER_USE: i64 = 3000;

/// How often a surface was chosen for a reading.
#[derive(Debug)]
pub struct Unigram {
    pub reading: String,
    pub surface: String,
    pub frequency: u32,
}

pub struct UnigramView {
    pub reading: Seq<char>,
    pub surface: Seq<char>,
    pub frequency: u32,
}

impl View for Unigram {
    type V = UnigramView;

    open spec fn view(&self) -> UnigramView {
        UnigramView {
            reading: self.reading@,
            surface: self.surface@,
            frequency: self.frequency,
        }
    }
}

/// How often a word was chosen right behind a surface.
#[derive(Debug)]
pub struct Bigram {
    pub prev: String,
    pub reading: String,
    pub surface: String,
    pub frequency: u32,
}

pub struct BigramView {
    pub prev: Seq<char>,
    pub reading: Seq<char>,
    pub surface: Seq<char>,
    pub frequency: u32,
}

impl View for Bigram {
    type V = BigramView;

    open spec fn view(&self) -> BigramView {
        BigramView {
            prev: self.prev@,
            reading: self.reading@,
            surface: self.surface@,
            frequency: self.frequency,
        }
    }
}

/// A word that was chosen behind another, with its boost.
#[derive(Debug)]
pub struct Successor {
    pub reading: String,
    pub surface: String,
    pub boost: i64,
}

pub struct SuccessorView {
    pub reading: Seq<char>,
    pub surface: Seq<char>,
    pub boost: i64,
}

impl View for Successor {
    type V = SuccessorView;

    open spec fn view(&self) -> SuccessorView {
        SuccessorView { reading: self.reading@, surface: self.surface@, boost: self.boost }
    }
}

impl Ranked for Successor {
    open spec fn rank(&self) -> int {
        arith::minus(0, self.boost) as int
    }
}

impl RankedItem for Successor {
    fn rank_of(&self) -> (r: i64) {
        sat_sub(0, self.boost)
    }
}

impl Ranked for SuccessorView {
    open spec fn rank(&self) -> int {
        arith::minus(0, self.boost) as int
    }
}

/// The boost of something used `frequency` times.
pub open spec fn boost_of(frequency: u32) -> i64 {
    arith::times(frequency as i64, BOOST_PER_USE)
}

fn boost_for(frequency: u32) -> (r: i64)
    ensures
        r == boost_of(frequency),
        frequency > 0 ==> r > 0,
        frequency == 0 ==> r == 0,
{
    sat_mul(frequency as i64, BOOST_PER_USE)
}

/// A user's history: words and pairs of words with their frequencies.
pub struct UserHistory {
    unigrams: Vec<Unigram>,
    bigrams: Vec<Bigram>,
}

/// What a `UserHistory` holds, in the order of first use.
pub struct HistoryView {
    pub unigrams: Seq<UnigramView>,
    pub bigrams: Seq<BigramView>,
}

/// The view of an optional history.
pub open spec fn history_view(history: Option<&UserHistory>) -> Option<HistoryView> {
    match history {
        Some(h) => Some(h@),
        None => None,
    }
}

impl View for UserHistory {
    type V = HistoryView;

    closed spec fn view(&self) -> HistoryView {
        HistoryView {
            unigrams: text::views(self.unigrams@),
            bigrams: text::views(self.bigrams@),
        }
    }
}

pub open spec fn is_unigram(reading: Seq<char>, surface: Seq<char>) -> spec_fn(
    UnigramView,
) -> bool {
    |u: UnigramView| u.reading == reading && u.surface == surface
}

pub open spec fn is_bigram(prev: Seq<char>, reading: Seq<char>, surface: Seq<char>) -> spec_fn(
    BigramView,
) -> bool {
    |b: BigramView| b.prev == prev && b.reading == reading && b.surface == surface
}

/// One more use; the largest frequency stays.
pub open spec fn one_more(frequency: u32) -> u32 {
    if frequency == u32::MAX {
        frequency
    } else {
        (frequency + 1) as u32
    }
}

impl HistoryView {
    pub open spec fn empty() -> HistoryView {
        HistoryView { unigrams: Seq::empty(), bigrams: Seq::empty() }
    }

    /// The boost of choosing `surface` for `reading`.
    pub open spec fn unigram_boost(self, reading: Seq<char>, surface: Seq<char>) -> i64 {
        let i = seqs::first_place(self.unigrams, is_unigram(reading, surface));
        if i < self.unigrams.len() {
            boost_of(self.unigrams[i].frequency)
        } else {
            0
        }
    }

    /// The boost of choosing `surface` for `reading` right behind `prev`.
    pub open spec fn bigram_boost(
        self,
        prev: Seq<char>,
        reading: Seq<char>,
        surface: Seq<char>,
    ) -> i64 {
        let i = seqs::first_place(self.bigrams, is_bigram(prev, reading, surface));
        if i < self.bigrams.len() {
            boost_of(self.bigrams[i].frequency)
        } else {
            0
        }
    }

    /// The words used behind `prev` among the first `i` pairs.
    pub open spec fn found_behind(self, prev: Seq<char>, i: nat) -> Seq<SuccessorView>
        decreases i,
    {
        if i == 0 {
            Seq::empty()
        } else {
            let found = self.found_behind(prev, (i - 1) as nat);
            let b = self.bigrams[i - 1];
            if b.prev == prev {
                found.push(
                    SuccessorView {
                        reading: b.reading,
                        surface: b.surface,
                        boost: boost_of(b.frequency),
                    },
                )
            } else {
                found
            }
        }
    }

    /// The words used behind `prev`, the most boosted first.
    pub open spec fn successors(self, prev: Seq<char>) -> Seq<SuccessorView> {
        ordering::ranked_order(self.found_behind(prev, self.bigrams.len()))
    }

    pub open spec fn with_unigram(self, reading: Seq<char>, surface: Seq<char>) -> HistoryView {
        let i = seqs::first_place(self.unigrams, is_unigram(reading, surface));
        HistoryView {
            unigrams: if i < self.unigrams.len() {
                self.unigrams.update(
                    i,
                    UnigramView {
                        frequency: one_more(self.unigrams[i].frequency),
                        ..self.unigrams[i]
                    },
                )
            } else {
                self.unigrams.push(UnigramView { reading, surface, frequency: 1 })
            },
            bigrams: self.bigrams,
        }
    }

    pub open spec fn with_bigram(
        self,
        prev: Seq<char>,
        reading: Seq<char>,
        surface: Seq<char>,
    ) -> HistoryView {
        let i = seqs::first_place(self.bigrams, is_bigram(prev, reading, surface));
        HistoryView {
            unigrams: self.unigrams,
            bigrams: if i < self.bigrams.len() {
                self.bigrams.update(
                    i,
                    BigramView {
                        frequency: one_more(self.bigrams[i].frequency),
                        ..self.bigrams[i]
                    },
                )
            } else {
                self.bigrams.push(BigramView { prev, reading, surface, frequency: 1 })
            },
        }
    }

    /// The history after the first `i` words of a commit: each word, and each
    /// pair of neighbours, counts once more.
    pub open spec fn after_words(
        self,
        words: Seq<(Seq<char>, Seq<char>)>,
        i: nat,
    ) -> HistoryView
        decreases i,
    {
        if i == 0 {
            self
        } else {
            let h = self.after_words(words, (i - 1) as nat);
            let w = words[i - 1];
            let h1 = h.with_unigram(w.0, w.1);
            if i >= 2 {
                h1.with_bigram(words[i - 2].1, w.0, w.1)
            } else {
                h1
            }
        }
    }

    pub open spec fn recorded(self, words: Seq<(Seq<char>, Seq<char>)>) -> HistoryView {
        self.after_words(words, words.len())
    }
}

/// The texts of (reading, surface) pairs.
pub open spec fn pair_views(s: Seq<(String, String)>) -> Seq<(Seq<char>, Seq<char>)> {
    Seq::new(s.len(), |i: int| (s[i].0@, s[i].1@))
}

impl UserHistory {
    /// An empty history.
    pub fn new() -> (r: Self)
        ensures
            r@ == HistoryView::empty(),
    {
        let r = UserHistory { unigrams: Vec::new(), bigrams: Vec::new() };
        proof {
            assert(r@.unigrams =~= Seq::empty());
            assert(r@.bigrams =~= Seq::empty());
        }
        r
    }

    fn find_unigram(&self, reading: &str, surface: &str) -> (i: usize)
        ensures
            i as int == seqs::first_place(self@.unigrams, is_unigram(reading@, surface@)),
    {
        let ghost f = is_unigram(reading@, surface@);
        let mut i: usize = 0;
        while i < self.unigrams.len()
            invariant
                i <= self.unigrams@.len(),
                f == is_unigram(reading@, surface@),
                seqs::first_place(self@.unigrams, f) == seqs::first_from(
                    self@.unigrams,
                    f,
                    i as int,
                ),
            decreases self.unigrams.len() - i,
        {
            let u = &self.unigrams[i];
            proof {
                assert(self@.unigrams[i as int] == u@);
            }
            if same_text(u.reading.as_str(), reading) && same_text(u.surface.as_str(), surface) {
                return i;
            }
            i = i + 1;
        }
        i
    }

    fn find_bigram(&self, prev: &str, reading: &str, surface: &str) -> (i: usize)
        ensures
            i as int == seqs::first_place(self@.bigrams, is_bigram(prev@, reading@, surface@)),
    {
        let ghost f = is_bigram(prev@, reading@, surface@);
        let mut i: usize = 0;
        while i < self.bigrams.len()
            invariant
                i <= self.bigrams@.len(),
                f == is_bigram(prev@, reading@, surface@),
                seqs::first_place(self@.bigrams, f) == seqs::first_from(
                    self@.bigrams,
                    f,
                    i as int,
                ),
            decreases self.bigrams.len() - i,
        {
            let b = &self.bigrams[i];
            proof {
                assert(self@.bigrams[i as int] == b@);
            }
            if same_text(b.prev.as_str(), prev) && same_text(b.reading.as_str(), reading)
                && same_text(b.surface.as_str(), surface) {
                return i;
            }
            i = i + 1;
        }
        i
    }

    /// The boost of choosing `surface` for `reading`; 0 if it never was.
    pub fn unigram_boost(&self, reading: &str, surface: &str) -> (r: i64)
        ensures
            r == self@.unigram_boost(reading@, surface@),
    {
        let i: usize = self.find_unigram(reading, surface);
        if i < self.unigrams.len() {
            proof {
                assert(self@.unigrams[i as int] == self.unigrams@[i as int]@);
            }
            boost_for(self.unigrams[i].frequency)
        } else {
            0
        }
    }

    /// The boost of choosing `surface` for `reading` right behind `prev`; 0 if
    /// it never was.
    pub fn bigram_boost(&self, prev: &str, reading: &str, surface: &str) -> (r: i64)
        ensures
            r == self@.bigram_boost(prev@, reading@, surface@),
    {
        let i: usize = self.find_bigram(prev, reading, surface);
        if i < self.bigrams.len() {
            proof {
                assert(self@.bigrams[i as int] == self.bigrams@[i as int]@);
            }
            boost_for(self.bigrams[i].frequency)
        } else {
            0
        }
    }

    /// The words that were chosen right behind `prev`, the most boosted first.
    pub fn bigram_successors(&self, prev: &str) -> (r: Vec<Successor>)
        ensures
            text::views(r@) == self@.successors(prev@),
    {
        let mut out: Vec<Successor> = Vec::new();
        let mut i: usize = 0;
        proof {
            assert(text::views(out@) =~= Seq::empty());
        }
        while i < self.bigrams.len()
            invariant
                i <= self.bigrams@.len(),
                text::views(out@) == self@.found_behind(prev@, i as nat),
            decreases self.bigrams.len() - i,
        {
            let b = &self.bigrams[i];
            proof {
                assert(self@.bigrams[i as int] == b@);
            }
            if same_text(b.prev.as_str(), prev) {
                let ghost before = out@;
                out.push(
                    Successor {
                        reading: b.reading.clone(),
                        surface: b.surface.clone(),
                        boost: boost_for(b.frequency),
                    },
                );
                proof {
                    assert(text::views(out@) =~= text::views(before).push(out@.last()@));
                }
            }
            i = i + 1;
        }
        proof {
            ordering::lemma_ranked_order_views(out@);
        }
        stable_sort(&mut out);
        out
    }

    fn use_unigram(&mut self, reading: &str, surface: &str)
        ensures
            final(self)@ == old(self)@.with_unigram(reading@, surface@),
    {
        let ghost before = *self;
        let i: usize = self.find_unigram(reading, surface);
        if i < self.unigrams.len() {
            let frequency: u32 = self.unigrams[i].frequency;
            let next: u32 = if frequency == u32::MAX {
                frequency
            } else {
                frequency + 1
            };
            let item = Unigram {
                reading: self.unigrams[i].reading.clone(),
                surface: self.unigrams[i].surface.clone(),
                frequency: next,
            };
            self.unigrams.set(i, item);
            proof {
                assert(before@.unigrams[i as int] == before.unigrams@[i as int]@);
                assert(self@.unigrams =~= before@.with_unigram(reading@, surface@).unigrams);
            }
        } else {
            self.unigrams.push(
                Unigram { reading: reading.to_owned(), surface: surface.to_owned(), frequency: 1 },
            );
            proof {
                assert(self@.unigrams =~= before@.with_unigram(reading@, surface@).unigrams);
            }
        }
    }

    fn use_bigram(&mut self, prev: &str, reading: &str, surface: &str)
        ensures
            final(self)@ == old(self)@.with_bigram(prev@, reading@, surface@),
    {
        let ghost before = *self;
        let i: usize = self.find_bigram(prev, reading, surface);
        if i < self.bigrams.len() {
            let frequency: u32 = self.bigrams[i].frequency;
            let next: u32 = if frequency == u32::MAX {
                frequency
            } else {
                frequency + 1
            };
            let item = Bigram {
                prev: self.bigrams[i].prev.clone(),
                reading: self.bigrams[i].reading.clone(),
                surface: self.bigrams[i].surface.clone(),
                frequency: next,
            };
            self.bigrams.set(i, item);
            proof {
                assert(before@.bigrams[i as int] == before.bigrams@[i as int]@);
                assert(self@.bigrams =~= before@.with_bigram(prev@, reading@, surface@).bigrams);
            }
        } else {
            self.bigrams.push(
                Bigram {
                    prev: prev.to_owned(),
                    reading: reading.to_owned(),
                    surface: surface.to_owned(),
                    frequency: 1,
                },
            );
            proof {
                assert(self@.bigrams =~= before@.with_bigram(prev@, reading@, surface@).bigrams);
            }
        }
    }

    /// Records a commit of (reading, surface) pairs: each word, and each pair of
    /// neighbours, counts once more.
    pub fn record(&mut self, segments: &[(String, String)])
        ensures
            final(self)@ == old(self)@.recorded(pair_views(segments@)),
    {
        let ghost words = pair_views(segments@);
        let mut i: usize = 0;
        while i < segments.len()
            invariant
                i <= segments@.len(),
                words == pair_views(segments@),
                self@ == old(self)@.after_words(words, i as nat),
            decreases segments.len() - i,
        {
            let seg = &segments[i];
            proof {
                assert(words[i as int] == (seg.0@, seg.1@));
            }
            self.use_unigram(seg.0.as_str(), seg.1.as_str());
            if i >= 1 {
                let prev = &segments[i - 1];
                proof {
                    assert(words[i - 1] == (prev.0@, prev.1@));
                }
                self.use_bigram(prev.1.as_str(), seg.0.as_str(), seg.1.as_str());
            }
            i = i + 1;
        }
    }
}

/// An entry of a reading, with the boost of choosing it.
pub struct Weighted {
    reading: String,
    entry: DictEntry,
    boost: i64,
}

/// What a `Weighted` holds.
pub struct WeightedView {
    pub reading: Seq<char>,
    pub entry: EntryView,
    pub boost: i64,
}

impl View for Weighted {
    type V = WeightedView;

    closed spec fn view(&self) -> WeightedView {
        WeightedView { reading: self.reading@, entry: self.entry@, boost: self.boost }
    }
}

impl Ranked for WeightedView {
    /// The boost goes before the cost: costs differ by less than this factor.
    open spec fn rank(&self) -> int {
        arith::minus(self.entry.cost as i64, arith::times(self.boost, 65536)) as int
    }
}

impl Ranked for Weighted {
    closed spec fn rank(&self) -> int {
        self@.rank()
    }
}

impl RankedItem for Weighted {
    fn rank_of(&self) -> (r: i64) {
        sat_sub(self.entry.cost as i64, sat_mul(self.boost, 65536))
    }
}

/// Entries with the boosts that a history gives them.
pub open spec fn weighted(h: HistoryView, s: Seq<(Seq<char>, EntryView)>) -> Seq<WeightedView> {
    Seq::new(
        s.len(),
        |i: int|
            WeightedView {
                reading: s[i].0,
                entry: s[i].1,
                boost: h.unigram_boost(s[i].0, s[i].1.surface),
            },
    )
}

/// Entries without their boosts.
pub open spec fn unweighted(s: Seq<WeightedView>) -> Seq<(Seq<char>, EntryView)> {
    Seq::new(s.len(), |i: int| (s[i].reading, s[i].entry))
}

impl HistoryView {
    /// Entries, the most boosted first; those with the same boost, cheapest
    /// first.
    pub open spec fn ranked(self, s: Seq<(Seq<char>, EntryView)>) -> Seq<(Seq<char>, EntryView)> {
        unweighted(ordering::ranked_order(weighted(self, s)))
    }

    /// The entries of a reading, the most boosted first.
    pub open spec fn reordered(self, reading: Seq<char>, entries: Seq<EntryView>) -> Seq<EntryView> {
        let pairs = Seq::new(entries.len(), |i: int| (reading, entries[i]));
        let r = self.ranked(pairs);
        Seq::new(r.len(), |i: int| r[i].1)
    }
}

/// Of two entries, the one with the larger boost ranks first; with the same boost
/// it is the cheaper one.
pub proof fn boost_goes_before_cost(a: WeightedView, fa: u32, b: WeightedView, fb: u32)
    requires
        a.boost == boost_of(fa),
        b.boost == boost_of(fb),
    ensures
        a.boost > b.boost ==> a.rank() < b.rank(),
        a.boost == b.boost ==> (a.rank() < b.rank() <==> a.entry.cost < b.entry.cost),
{
    assert(0 <= a.boost <= 0x1_0000_0000 * 3000) by (nonlinear_arith)
        requires
            a.boost == fa * 3000,
            0 <= fa < 0x1_0000_0000,
    ;
    assert(0 <= b.boost <= 0x1_0000_0000 * 3000) by (nonlinear_arith)
        requires
            b.boost == fb * 3000,
            0 <= fb < 0x1_0000_0000,
    ;
}

impl UserHistory {
    /// Entries, the most boosted first; those with the same boost, cheapest
    /// first.
    pub fn rank_entries(&self, v: &Vec<(String, DictEntry)>) -> (r: Vec<(String, DictEntry)>)
        ensures
            text::views(r@) == self@.ranked(text::views(v@)),
    {
        let ghost s = text::views(v@);
        let mut all: Vec<Weighted> = Vec::new();
        let mut i: usize = 0;
        while i < v.len()
            invariant
                i <= v@.len(),
                s == text::views(v@),
                text::views(all@) == weighted(self@, s).take(i as int),
            decreases v@.len() - i,
        {
            let boost: i64 = self.unigram_boost(v[i].0.as_str(), v[i].1.surface.as_str());
            let ghost before = text::views(all@);
            all.push(Weighted { reading: v[i].0.clone(), entry: v[i].1.clone(), boost });
            proof {
                let w = weighted(self@, s);
                assert(s[i as int] == v@[i as int]@);
                assert(text::views(all@) =~= before.push(w[i as int]));
                assert(w.take(i as int + 1) =~= w.take(i as int).push(w[i as int]));
            }
            i = i + 1;
        }
        proof {
            let w = weighted(self@, s);
            assert(w.take(w.len() as int) =~= w);
            ordering::lemma_ranked_order_views(all@);
        }
        stable_sort(&mut all);
        let ghost sorted = text::views(all@);
        let mut r: Vec<(String, DictEntry)> = Vec::new();
        let mut i: usize = 0;
        while i < all.len()
            invariant
                i <= all@.len(),
                sorted == text::views(all@),
                text::views(r@) == unweighted(sorted).take(i as int),
            decreases all@.len() - i,
        {
            let ghost before = text::views(r@);
            r.push((all[i].reading.clone(), all[i].entry.clone()));
            proof {
                let u = unweighted(sorted);
                assert(sorted[i as int] == all@[i as int]@);
                assert(text::views(r@) =~= before.push(u[i as int]));
                assert(u.take(i as int + 1) =~= u.take(i as int).push(u[i as int]));
            }
            i = i + 1;
        }
        proof {
            let u = unweighted(sorted);
            assert(u.take(u.len() as int) =~= u);
        }
        r
    }

    /// The entries of a reading, the most boosted first; those with the same
    /// boost, cheapest first.
    pub fn reorder_candidates(&self, reading: &str, entries: &[DictEntry]) -> (r: Vec<DictEntry>)
        ensures
            text::views(r@) == self@.reordered(reading@, text::views(entries@)),
    {
        let ghost pairs = Seq::new(
            entries@.len(),
            |i: int| (reading@, text::views(entries@)[i]),
        );
        let mut v: Vec<(String, DictEntry)> = Vec::new();
        let mut i: usize = 0;
        while i < entries.len()
            invariant
                i <= entries@.len(),
                pairs == Seq::new(
                    entries@.len(),
                    |i: int| (reading@, text::views(entries@)[i]),
                ),
                text::views(v@) == pairs.take(i as int),
            decreases entries@.len() - i,
        {
            let ghost before = text::views(v@);
            v.push((reading.to_owned(), entries[i].clone()));
            proof {
                assert(text::views(v@) =~= before.push(pairs[i as int]));
                assert(pairs.take(i as int + 1) =~= pairs.take(i as int).push(pairs[i as int]));
            }
            i = i + 1;
        }
        proof {
            assert(pairs.take(pairs.len() as int) =~= pairs);
            assert(pairs =~= Seq::new(
                text::views(entries@).len(),
                |i: int| (reading@, text::views(entries@)[i]),
            ));
        }
        let ranked = self.rank_entries(&v);
        let ghost rv = text::views(ranked@);
        let mut r: Vec<DictEntry> = Vec::new();
        let mut i: usize = 0;
        while i < ranked.len()
            invariant
                i <= ranked@.len(),
                rv == text::views(ranked@),
                r@.len() == i,
                forall|j: int| 0 <= j < i ==> (#[trigger] r@[j])@ == rv[j].1,
            decreases ranked@.len() - i,
        {
            r.push(ranked[i].1.clone());
            i = i + 1;
        }
        proof {
            assert(text::views(r@) =~= self@.reordered(reading@, text::views(entries@)));
        }
        r
    }
}

/// A word that is used counts once more, and no other word counts for less.
proof fn lemma_unigrams_grow(
    h: HistoryView,
    reading: Seq<char>,
    surface: Seq<char>,
    r: Seq<char>,
    s: Seq<char>,
)
    ensures
        h.with_unigram(reading, surface).unigram_boost(reading, surface) >= BOOST_PER_USE,
        h.with_unigram(reading, surface).unigram_boost(r, s) >= h.unigram_boost(r, s),
{
    let next = h.with_unigram(reading, surface);
    let f = is_unigram(reading, surface);
    let g = is_unigram(r, s);
    seqs::lemma_first_from(h.unigrams, f, 0);
    seqs::lemma_first_from(next.unigrams, f, 0);
    seqs::lemma_first_from(h.unigrams, g, 0);
    seqs::lemma_first_from(next.unigrams, g, 0);
    let i = seqs::first_place(h.unigrams, f);
    let i2 = seqs::first_place(next.unigrams, f);
    let j = seqs::first_place(h.unigrams, g);
    let j2 = seqs::first_place(next.unigrams, g);
    assert(f(next.unigrams[i]));
    assert(i2 == i) by {
        if i2 < i {
            assert(f(next.unigrams[i2]) && next.unigrams[i2] == h.unigrams[i2]);
        }
    }
    if j < h.unigrams.len() {
        assert(g(next.unigrams[j]));
        if j2 < j {
            assert(g(next.unigrams[j2]));
            assert(g(h.unigrams[j2]));
        }
        assert(j2 == j);
    }
}

/// Behind a word, what follows it counts once more, and no other pair for less.
proof fn lemma_bigrams_grow(
    h: HistoryView,
    prev: Seq<char>,
    reading: Seq<char>,
    surface: Seq<char>,
    p: Seq<char>,
    r: Seq<char>,
    s: Seq<char>,
)
    ensures
        h.with_bigram(prev, reading, surface).bigram_boost(prev, reading, surface)
            >= BOOST_PER_USE,
        h.with_bigram(prev, reading, surface).bigram_boost(p, r, s) >= h.bigram_boost(p, r, s),
{
    let next = h.with_bigram(prev, reading, surface);
    let f = is_bigram(prev, reading, surface);
    let g = is_bigram(p, r, s);
    seqs::lemma_first_from(h.bigrams, f, 0);
    seqs::lemma_first_from(next.bigrams, f, 0);
    seqs::lemma_first_from(h.bigrams, g, 0);
    seqs::lemma_first_from(next.bigrams, g, 0);
    let i = seqs::first_place(h.bigrams, f);
    let i2 = seqs::first_place(next.bigrams, f);
    let j = seqs::first_place(h.bigrams, g);
    let j2 = seqs::first_place(next.bigrams, g);
    assert(f(next.bigrams[i]));
    assert(i2 == i) by {
        if i2 < i {
            assert(f(next.bigrams[i2]) && next.bigrams[i2] == h.bigrams[i2]);
        }
    }
    if j < h.bigrams.len() {
        assert(g(next.bigrams[j]));
        if j2 < j {
            assert(g(next.bigrams[j2]));
            assert(g(h.bigrams[j2]));
        }
        assert(j2 == j);
    }
}

/// Boosts never fall while words are recorded.
proof fn lemma_boosts_grow(
    h: HistoryView,
    words: Seq<(Seq<char>, Seq<char>)>,
    i: nat,
    n: nat,
    prev: Seq<char>,
    reading: Seq<char>,
    surface: Seq<char>,
)
    requires
        i <= n <= words.len(),
    ensures
        h.after_words(words, n).unigram_boost(reading, surface) >= h.after_words(
            words,
            i,
        ).unigram_boost(reading, surface),
        h.after_words(words, n).bigram_boost(prev, reading, surface) >= h.after_words(
            words,
            i,
        ).bigram_boost(prev, reading, surface),
    decreases n,
{
    if i < n {
        lemma_boosts_grow(h, words, i, (n - 1) as nat, prev, reading, surface);
        let before = h.after_words(words, (n - 1) as nat);
        let w = words[n - 1];
        lemma_unigrams_grow(before, w.0, w.1, reading, surface);
        if n >= 2 {
            let h1 = before.with_unigram(w.0, w.1);
            lemma_bigrams_grow(h1, words[n - 2].1, w.0, w.1, prev, reading, surface);
        }
    }
}

/// What is recorded is preferred from then on: each word has the boost of a use at
/// least, by itself and behind the word before it.
pub proof fn recorded_words_are_boosted(
    h: HistoryView,
    words: Seq<(Seq<char>, Seq<char>)>,
    i: int,
)
    requires
        0 <= i < words.len(),
    ensures
        h.recorded(words).unigram_boost(words[i].0, words[i].1) >= BOOST_PER_USE,
        i > 0 ==> h.recorded(words).bigram_boost(words[i - 1].1, words[i].0, words[i].1)
            >= BOOST_PER_USE,
{
    let w = words[i];
    let k = (i + 1) as nat;
    let before = h.after_words(words, i as nat);
    let prev = if i > 0 {
        words[i - 1].1
    } else {
        w.1
    };
    lemma_unigrams_grow(before, w.0, w.1, w.0, w.1);
    if i > 0 {
        let h1 = before.with_unigram(w.0, w.1);
        lemma_bigrams_grow(h1, prev, w.0, w.1, prev, w.0, w.1);
    }
    lemma_boosts_grow(h, words, k, words.len(), prev, w.0, w.1);
}

/// Recording takes no boost away.
pub proof fn recording_takes_no_boost_away(
    h: HistoryView,
    words: Seq<(Seq<char>, Seq<char>)>,
    prev: Seq<char>,
    reading: Seq<char>,
    surface: Seq<char>,
)
    ensures
        h.recorded(words).unigram_boost(reading, surface) >= h.unigram_boost(reading, surface),
        h.recorded(words).bigram_boost(prev, reading, surface) >= h.bigram_boost(
            prev,
            reading,
            surface,
        ),
{
    lemma_boosts_grow(h, words, 0, words.len(), prev, reading, surface);
}

/// Words that are none of the pairs.
pub open spec fn spared_unigram(pairs: Seq<(Seq<char>, Seq<char>)>) -> spec_fn(
    UnigramView,
) -> bool {
    |u: UnigramView| !pairs.contains((u.reading, u.surface))
}

/// Pairs of words of which the second is none of the pairs.
pub open spec fn spared_bigram(pairs: Seq<(Seq<char>, Seq<char>)>) -> spec_fn(BigramView) -> bool {
    |b: BigramView| !pairs.contains((b.reading, b.surface))
}

impl HistoryView {
    /// The history without the pairs, by themselves and behind other words.
    pub open spec fn forgotten(self, pairs: Seq<(Seq<char>, Seq<char>)>) -> HistoryView {
        HistoryView {
            unigrams: self.unigrams.filter(spared_unigram(pairs)),
            bigrams: self.bigrams.filter(spared_bigram(pairs)),
        }
    }

    /// Whether one of the pairs was chosen.
    pub open spec fn knows_any(self, pairs: Seq<(Seq<char>, Seq<char>)>) -> bool {
        ||| exists|i: int|
            0 <= i < self.unigrams.len() && !spared_unigram(pairs)(#[trigger] self.unigrams[i])
        ||| exists|i: int|
            0 <= i < self.bigrams.len() && !spared_bigram(pairs)(#[trigger] self.bigrams[i])
    }
}

/// Whether `pairs` holds a pair.
pub fn has_pair(pairs: &[(String, String)], reading: &str, surface: &str) -> (r: bool)
    ensures
        r == pair_views(pairs@).contains((reading@, surface@)),
{
    let ghost pv = pair_views(pairs@);
    let mut i: usize = 0;
    while i < pairs.len()
        invariant
            i <= pairs@.len(),
            pv == pair_views(pairs@),
            forall|j: int| 0 <= j < i ==> #[trigger] pv[j] != (reading@, surface@),
        decreases pairs@.len() - i,
    {
        proof {
            assert(pv[i as int] == (pairs@[i as int].0@, pairs@[i as int].1@));
        }
        if same_text(pairs[i].0.as_str(), reading) && same_text(pairs[i].1.as_str(), surface) {
            return true;
        }
        i = i + 1;
    }
    false
}

impl UserHistory {
    /// A history of given words and pairs of words.
    pub fn of(unigrams: Vec<Unigram>, bigrams: Vec<Bigram>) -> (r: Self)
        ensures
            r@.unigrams == text::views(unigrams@),
            r@.bigrams == text::views(bigrams@),
    {
        UserHistory { unigrams, bigrams }
    }

    /// The words, with how often each was chosen.
    pub fn unigrams(&self) -> (r: &Vec<Unigram>)
        ensures
            text::views(r@) == self@.unigrams,
    {
        &self.unigrams
    }

    /// The pairs of words, with how often each was chosen.
    pub fn bigrams(&self) -> (r: &Vec<Bigram>)
        ensures
            text::views(r@) == self@.bigrams,
    {
        &self.bigrams
    }

    /// Forgets pairs, by themselves and behind other words.
    pub fn forget(&mut self, pairs: &[(String, String)])
        ensures
            final(self)@ == old(self)@.forgotten(pair_views(pairs@)),
    {
        let ghost ps = pair_views(pairs@);
        let ghost us = self@.unigrams;
        let ghost bs = self@.bigrams;
        let mut unigrams: Vec<Unigram> = Vec::new();
        let mut i: usize = 0;
        proof {
            reveal(Seq::filter);
            assert(text::views(unigrams@) =~= us.take(0).filter(spared_unigram(ps)));
        }
        while i < self.unigrams.len()
            invariant
                i <= self.unigrams@.len(),
                us == text::views(self.unigrams@),
                ps == pair_views(pairs@),
                *self == *old(self),
                text::views(unigrams@) == us.take(i as int).filter(spared_unigram(ps)),
            decreases self.unigrams@.len() - i,
        {
            let u = &self.unigrams[i];
            let ghost before = text::views(unigrams@);
            proof {
                reveal(Seq::filter);
                assert(us[i as int] == u@);
                assert(us.take(i + 1).drop_last() =~= us.take(i as int));
            }
            if !has_pair(pairs, u.reading.as_str(), u.surface.as_str()) {
                unigrams.push(
                    Unigram {
                        reading: u.reading.clone(),
                        surface: u.surface.clone(),
                        frequency: u.frequency,
                    },
                );
                proof {
                    assert(text::views(unigrams@) =~= before.push(u@));
                }
            }
            i = i + 1;
        }
        let mut bigrams: Vec<Bigram> = Vec::new();
        let mut i: usize = 0;
        proof {
            reveal(Seq::filter);
            assert(text::views(bigrams@) =~= bs.take(0).filter(spared_bigram(ps)));
            assert(us.take(us.len() as int) =~= us);
        }
        while i < self.bigrams.len()
            invariant
                i <= self.bigrams@.len(),
                bs == text::views(self.bigrams@),
                ps == pair_views(pairs@),
                *self == *old(self),
                text::views(bigrams@) == bs.take(i as int).filter(spared_bigram(ps)),
            decreases self.bigrams@.len() - i,
        {
            let b = &self.bigrams[i];
            let ghost before = text::views(bigrams@);
            proof {
                reveal(Seq::filter);
                assert(bs[i as int] == b@);
                assert(bs.take(i + 1).drop_last() =~= bs.take(i as int));
            }
            if !has_pair(pairs, b.reading.as_str(), b.surface.as_str()) {
                bigrams.push(
                    Bigram {
                        prev: b.prev.clone(),
                        reading: b.reading.clone(),
                        surface: b.surface.clone(),
                        frequency: b.frequency,
                    },
                );
                proof {
                    assert(text::views(bigrams@) =~= before.push(b@));
                }
            }
            i = i + 1;
        }
        proof {
            assert(bs.take(bs.len() as int) =~= bs);
        }
        self.unigrams = unigrams;
        self.bigrams = bigrams;
    }

    /// Whether one of the pairs was chosen.
    pub fn knows_any(&self, pairs: &[(String, String)]) -> (r: bool)
        ensures
            r == self@.knows_any(pair_views(pairs@)),
    {
        let ghost ps = pair_views(pairs@);
        let mut i: usize = 0;
        while i < self.unigrams.len()
            invariant
                i <= self.unigrams@.len(),
                ps == pair_views(pairs@),
                forall|j: int| 0 <= j < i ==> spared_unigram(ps)(#[trigger] self@.unigrams[j]),
            decreases self.unigrams@.len() - i,
        {
            let u = &self.unigrams[i];
            proof {
                assert(self@.unigrams[i as int] == u@);
            }
            if has_pair(pairs, u.reading.as_str(), u.surface.as_str()) {
                proof {
                    assert(!spared_unigram(ps)(self@.unigrams[i as int]));
                }
                return true;
            }
            i = i + 1;
        }
        let mut i: usize = 0;
        while i < self.bigrams.len()
            invariant
                i <= self.bigrams@.len(),
                ps == pair_views(pairs@),
                forall|j: int|
                    0 <= j < self.unigrams@.len() ==> spared_unigram(ps)(
                        #[trigger] self@.unigrams[j],
                    ),
                forall|j: int| 0 <= j < i ==> spared_bigram(ps)(#[trigger] self@.bigrams[j]),
            decreases self.bigrams@.len() - i,
        {
            let b = &self.bigrams[i];
            proof {
                assert(self@.bigrams[i as int] == b@);
            }
            if has_pair(pairs, b.reading.as_str(), b.surface.as_str()) {
                proof {
                    assert(!spared_bigram(ps)(self@.bigrams[i as int]));
                }
                return true;
            }
            i = i + 1;
        }
        false
    }
}

/// Dropping what is not looked for changes nothing of what is found.
proof fn lemma_filter_keeps_first<T>(s: Seq<T>, f: spec_fn(T) -> bool, keep: spec_fn(T) -> bool)
    requires
        forall|x: T| #[trigger] f(x) ==> keep(x),
    ensures
        ({
            let t = s.filter(keep);
            let i = seqs::first_place(s, f);
            let j = seqs::first_place(t, f);
            &&& (i < s.len() <==> j < t.len())
            &&& i < s.len() ==> t[j] == s[i]
        }),
    decreases s.len(),
{
    reveal(Seq::filter);
    let t = s.filter(keep);
    seqs::lemma_first_from(s, f, 0);
    seqs::lemma_first_from(t, f, 0);
    if s.len() > 0 {
        let s1 = s.drop_last();
        let t1 = s1.filter(keep);
        lemma_filter_keeps_first(s1, f, keep);
        seqs::lemma_first_from(s1, f, 0);
        seqs::lemma_first_from(t1, f, 0);
        let i = seqs::first_place(s, f);
        let j = seqs::first_place(t, f);
        let i1 = seqs::first_place(s1, f);
        let j1 = seqs::first_place(t1, f);
        assert forall|x: int| 0 <= x < t1.len() implies #[trigger] t[x] == t1[x] by {}
        assert forall|x: int| 0 <= x < s1.len() implies #[trigger] s[x] == s1[x] by {}
        if i1 < s1.len() {
            assert(f(s[i1]));
            assert(f(t[j1]));
            if i < i1 {
                assert(f(s1[i]));
            }
            if j < j1 {
                assert(f(t1[j]));
            }
        } else {
            if i < s1.len() {
                assert(f(s1[i]));
            }
            if j < t1.len() {
                assert(f(t1[j]));
            }
            if f(s.last()) {
                assert(t == t1.push(s.last()));
                assert(f(s[s.len() - 1]));
                assert(f(t[t1.len() as int]));
            }
        }
    }
}

/// Where nothing is found, nothing is.
proof fn lemma_none_found<T>(s: Seq<T>, f: spec_fn(T) -> bool, keep: spec_fn(T) -> bool)
    requires
        forall|x: T| #[trigger] f(x) ==> !keep(x),
    ensures
        seqs::first_place(s.filter(keep), f) == s.filter(keep).len(),
{
    let t = s.filter(keep);
    seqs::lemma_first_from(t, f, 0);
    let j = seqs::first_place(t, f);
    if j < t.len() {
        s.lemma_filter_pred(keep, j);
        assert(keep(t[j]) && f(t[j]));
    }
}

/// What follows a word comes from the pairs of words.
proof fn lemma_found_behind(h: HistoryView, prev: Seq<char>, i: nat, x: SuccessorView)
    requires
        i <= h.bigrams.len(),
        h.found_behind(prev, i).contains(x),
    ensures
        exists|j: int|
            0 <= j < i && (#[trigger] h.bigrams[j]).prev == prev && h.bigrams[j].reading == x.reading
                && h.bigrams[j].surface == x.surface,
    decreases i,
{
    if i > 0 {
        let before = h.found_behind(prev, (i - 1) as nat);
        let b = h.bigrams[i - 1];
        if before.contains(x) {
            lemma_found_behind(h, prev, (i - 1) as nat, x);
        } else {
            let s = h.found_behind(prev, i);
            let k = choose|k: int| 0 <= k < s.len() && s[k] == x;
            if k < before.len() {
                assert(before[k] == x);
            }
            assert(b.prev == prev);
        }
    }
}

/// A pair that is forgotten counts for nothing: it has no boost, by itself or behind
/// another word, and follows no word.
pub proof fn forgotten_pairs_count_for_nothing(
    h: HistoryView,
    pairs: Seq<(Seq<char>, Seq<char>)>,
    i: int,
)
    requires
        0 <= i < pairs.len(),
    ensures
        h.forgotten(pairs).unigram_boost(pairs[i].0, pairs[i].1) == 0,
        forall|prev: Seq<char>| #[trigger]
            h.forgotten(pairs).bigram_boost(prev, pairs[i].0, pairs[i].1) == 0,
        forall|prev: Seq<char>, k: int|
            0 <= k < h.forgotten(pairs).successors(prev).len() ==> {
                let x = #[trigger] h.forgotten(pairs).successors(prev)[k];
                (x.reading, x.surface) != pairs[i]
            },
{
    let (r, s) = pairs[i];
    let g = h.forgotten(pairs);
    assert(pairs.contains((r, s)));
    lemma_none_found(h.unigrams, is_unigram(r, s), spared_unigram(pairs));
    assert forall|prev: Seq<char>| #[trigger] g.bigram_boost(prev, r, s) == 0 by {
        lemma_none_found(h.bigrams, is_bigram(prev, r, s), spared_bigram(pairs));
    }
    assert forall|prev: Seq<char>, k: int| 0 <= k < g.successors(prev).len() implies {
        let x = #[trigger] g.successors(prev)[k];
        (x.reading, x.surface) != (r, s)
    } by {
        let found = g.found_behind(prev, g.bigrams.len());
        let x = g.successors(prev)[k];
        ordering::ranked_order_sorts(found);
        broadcast use vstd::seq_lib::group_to_multiset_ensures;
        assert(g.successors(prev).contains(x));
        assert(found.to_multiset().count(x) > 0);
        assert(found.contains(x));
        lemma_found_behind(g, prev, g.bigrams.len(), x);
        let j = choose|j: int|
            0 <= j < g.bigrams.len() && (#[trigger] g.bigrams[j]).prev == prev
                && g.bigrams[j].reading == x.reading && g.bigrams[j].surface == x.surface;
        h.bigrams.lemma_filter_pred(spared_bigram(pairs), j);
    }
}

/// Forgetting takes nothing from words that are none of the pairs.
pub proof fn forgetting_spares_the_rest(
    h: HistoryView,
    pairs: Seq<(Seq<char>, Seq<char>)>,
    prev: Seq<char>,
    reading: Seq<char>,
    surface: Seq<char>,
)
    requires
        !pairs.contains((reading, surface)),
    ensures
        h.forgotten(pairs).unigram_boost(reading, surface) == h.unigram_boost(reading, surface),
        h.forgotten(pairs).bigram_boost(prev, reading, surface) == h.bigram_boost(
            prev,
            reading,
            surface,
        ),
{
    lemma_filter_keeps_first(h.unigrams, is_unigram(reading, surface), spared_unigram(pairs));
    lemma_filter_keeps_first(h.bigrams, is_bigram(prev, reading, surface), spared_bigram(pairs));
}

} // verus!
