//! What a history counts, and how it orders words.

use vstd::prelude::*;

use crate::dict::EntryView;
use crate::ordering::{self, Ranked};
use crate::seqs;
use crate::user_history::{self, HistoryView};

verus! {

proof fn lemma_first<T>(s: Seq<T>, f: spec_fn(T) -> bool, k: int)
    requires
        0 <= k <= s.len(),
        k < s.len() ==> f(s[k]),
        forall|j: int| 0 <= j < k ==> !f(#[trigger] s[j]),
    ensures
        seqs::first_place(s, f) == k,
{
    seqs::lemma_first_from(s, f, 0);
    let r = seqs::first_place(s, f);
    if r < k {
        assert(!f(s[r]));
    } else if k < r {
        assert(!f(s[k]));
    }
}

/// The boost of a word is 3000 for each of its uses, and none for a word that was
/// never used.
pub proof fn uses_of_a_word_count(h: HistoryView, reading: Seq<char>, surface: Seq<char>, k: int)
    requires
        0 <= k <= h.unigrams.len(),
        k < h.unigrams.len() ==> h.unigrams[k].reading == reading && h.unigrams[k].surface
            == surface,
        forall|j: int|
            0 <= j < k ==> (#[trigger] h.unigrams[j]).reading != reading || h.unigrams[j].surface
                != surface,
    ensures
        k < h.unigrams.len() ==> h.unigram_boost(reading, surface) == 3000
            * h.unigrams[k].frequency,
        k == h.unigrams.len() ==> h.unigram_boost(reading, surface) == 0,
{
    lemma_first(h.unigrams, user_history::is_unigram(reading, surface), k);
}

/// The boost of a pair of words is 3000 for each time that the second came right
/// behind the first.
pub proof fn uses_of_a_pair_count(
    h: HistoryView,
    prev: Seq<char>,
    reading: Seq<char>,
    surface: Seq<char>,
    k: int,
)
    requires
        0 <= k <= h.bigrams.len(),
        k < h.bigrams.len() ==> h.bigrams[k].prev == prev && h.bigrams[k].reading == reading
            && h.bigrams[k].surface == surface,
        forall|j: int|
            0 <= j < k ==> (#[trigger] h.bigrams[j]).prev != prev || h.bigrams[j].reading != reading
                || h.bigrams[j].surface != surface,
    ensures
        k < h.bigrams.len() ==> h.bigram_boost(prev, reading, surface) == 3000
            * h.bigrams[k].frequency,
        k == h.bigrams.len() ==> h.bigram_boost(prev, reading, surface) == 0,
{
    lemma_first(h.bigrams, user_history::is_bigram(prev, reading, surface), k);
}

/// How often a word stands among the first `n` of some words.
pub open spec fn word_count(
    words: Seq<(Seq<char>, Seq<char>)>,
    reading: Seq<char>,
    surface: Seq<char>,
    n: nat,
) -> nat
    decreases n,
{
    if n == 0 {
        0
    } else {
        word_count(words, reading, surface, (n - 1) as nat) + if words[n - 1] == (reading, surface) {
            1nat
        } else {
            0
        }
    }
}

/// How often a word stands right behind the surface `prev` among the first `n` of
/// some words.
pub open spec fn pair_count(
    words: Seq<(Seq<char>, Seq<char>)>,
    prev: Seq<char>,
    reading: Seq<char>,
    surface: Seq<char>,
    n: nat,
) -> nat
    decreases n,
{
    if n <= 1 {
        0
    } else {
        pair_count(words, prev, reading, surface, (n - 1) as nat) + if words[n - 2].1 == prev
            && words[n - 1] == (reading, surface) {
            1nat
        } else {
            0
        }
    }
}

proof fn lemma_one_use(
    h: HistoryView,
    r0: Seq<char>,
    s0: Seq<char>,
    reading: Seq<char>,
    surface: Seq<char>,
)
    ensures
        ({
            let before = h.unigram_boost(reading, surface);
            let after = h.with_unigram(r0, s0).unigram_boost(reading, surface);
            &&& 0 <= before
            &&& (r0, s0) != (reading, surface) ==> after == before
            &&& (r0, s0) == (reading, surface) && before < 3000 * u32::MAX ==> after == before
                + 3000
        }),
{
    let f = user_history::is_unigram(reading, surface);
    let g = user_history::is_unigram(r0, s0);
    let a = h.unigrams;
    let b = h.with_unigram(r0, s0).unigrams;
    seqs::lemma_first_from(a, f, 0);
    seqs::lemma_first_from(a, g, 0);
    let i = seqs::first_place(a, f);
    let k = seqs::first_place(a, g);
    assert forall|j: int| 0 <= j < a.len() implies f(#[trigger] b[j]) == f(a[j]) by {}
    if i < a.len() {
        assert forall|j: int| 0 <= j < i implies !f(#[trigger] b[j]) by {
            assert(!f(a[j]));
        }
        assert(f(b[i]));
        lemma_first(b, f, i);
        if (r0, s0) == (reading, surface) {
            assert(f == g);
            assert(i == k);
        } else if k < a.len() {
            assert(g(a[k]));
            assert(i != k);
        }
    } else {
        assert forall|j: int| 0 <= j < a.len() implies !f(#[trigger] b[j]) by {
            assert(!f(a[j]));
        }
        if (r0, s0) == (reading, surface) {
            assert(f == g);
            assert(f(b[a.len() as int]));
            lemma_first(b, f, a.len() as int);
        } else {
            if k >= a.len() {
                assert(!f(b[a.len() as int]));
            }
            lemma_first(b, f, b.len() as int);
        }
    }
}

proof fn lemma_one_pair(
    h: HistoryView,
    p0: Seq<char>,
    r0: Seq<char>,
    s0: Seq<char>,
    prev: Seq<char>,
    reading: Seq<char>,
    surface: Seq<char>,
)
    ensures
        ({
            let before = h.bigram_boost(prev, reading, surface);
            let after = h.with_bigram(p0, r0, s0).bigram_boost(prev, reading, surface);
            &&& 0 <= before
            &&& (p0, r0, s0) != (prev, reading, surface) ==> after == before
            &&& (p0, r0, s0) == (prev, reading, surface) && before < 3000 * u32::MAX ==> after
                == before + 3000
        }),
{
    let f = user_history::is_bigram(prev, reading, surface);
    let g = user_history::is_bigram(p0, r0, s0);
    let a = h.bigrams;
    let b = h.with_bigram(p0, r0, s0).bigrams;
    seqs::lemma_first_from(a, f, 0);
    seqs::lemma_first_from(a, g, 0);
    let i = seqs::first_place(a, f);
    let k = seqs::first_place(a, g);
    assert forall|j: int| 0 <= j < a.len() implies f(#[trigger] b[j]) == f(a[j]) by {}
    if i < a.len() {
        assert forall|j: int| 0 <= j < i implies !f(#[trigger] b[j]) by {
            assert(!f(a[j]));
        }
        assert(f(b[i]));
        lemma_first(b, f, i);
        if (p0, r0, s0) == (prev, reading, surface) {
            assert(f == g);
            assert(i == k);
        } else if k < a.len() {
            assert(g(a[k]));
            assert(i != k);
        }
    } else {
        assert forall|j: int| 0 <= j < a.len() implies !f(#[trigger] b[j]) by {
            assert(!f(a[j]));
        }
        if (p0, r0, s0) == (prev, reading, surface) {
            assert(f == g);
            assert(f(b[a.len() as int]));
            lemma_first(b, f, a.len() as int);
        } else {
            if k >= a.len() {
                assert(!f(b[a.len() as int]));
            }
            lemma_first(b, f, b.len() as int);
        }
    }
}

proof fn lemma_uses(
    h: HistoryView,
    words: Seq<(Seq<char>, Seq<char>)>,
    n: nat,
    prev: Seq<char>,
    reading: Seq<char>,
    surface: Seq<char>,
)
    requires
        n <= words.len(),
    ensures
        h.unigram_boost(reading, surface) + 3000 * word_count(words, reading, surface, n) <= 3000
            * u32::MAX ==> h.after_words(words, n).unigram_boost(reading, surface)
            == h.unigram_boost(reading, surface) + 3000 * word_count(words, reading, surface, n),
        h.bigram_boost(prev, reading, surface) + 3000 * pair_count(
            words,
            prev,
            reading,
            surface,
            n,
        ) <= 3000 * u32::MAX ==> h.after_words(words, n).bigram_boost(prev, reading, surface)
            == h.bigram_boost(prev, reading, surface) + 3000 * pair_count(
            words,
            prev,
            reading,
            surface,
            n,
        ),
    decreases n,
{
    if n > 0 {
        let m = (n - 1) as nat;
        lemma_uses(h, words, m, prev, reading, surface);
        let before = h.after_words(words, m);
        let w = words[n - 1];
        lemma_one_use(before, w.0, w.1, reading, surface);
        let mid = before.with_unigram(w.0, w.1);
        assert(mid.bigram_boost(prev, reading, surface) == before.bigram_boost(
            prev,
            reading,
            surface,
        ));
        if n >= 2 {
            let p = words[n - 2].1;
            lemma_one_pair(mid, p, w.0, w.1, prev, reading, surface);
            let after = mid.with_bigram(p, w.0, w.1);
            assert(after.unigram_boost(reading, surface) == mid.unigram_boost(reading, surface));
        }
    }
}

/// Each use counts once: recording some words adds 3000 to the boost of a word for
/// each time that it is among them, and 3000 to the boost of a pair for each time
/// that it stands among them, until the count is full.
pub proof fn recording_counts_each_use(
    h: HistoryView,
    words: Seq<(Seq<char>, Seq<char>)>,
    prev: Seq<char>,
    reading: Seq<char>,
    surface: Seq<char>,
)
    ensures
        ({
            let n = word_count(words, reading, surface, words.len());
            let old_boost = h.unigram_boost(reading, surface);
            old_boost + 3000 * n <= 3000 * u32::MAX ==> h.recorded(words).unigram_boost(
                reading,
                surface,
            ) == old_boost + 3000 * n
        }),
        ({
            let n = pair_count(words, prev, reading, surface, words.len());
            let old_boost = h.bigram_boost(prev, reading, surface);
            old_boost + 3000 * n <= 3000 * u32::MAX ==> h.recorded(words).bigram_boost(
                prev,
                reading,
                surface,
            ) == old_boost + 3000 * n
        }),
{
    lemma_uses(h, words, words.len(), prev, reading, surface);
}

/// The word at place `b` of the pairs was used behind `prev`, and none was used
/// behind it more often.
pub open spec fn is_most_used(h: HistoryView, prev: Seq<char>, b: int) -> bool {
    &&& 0 <= b < h.bigrams.len()
    &&& h.bigrams[b].prev == prev
    &&& forall|j: int|
        0 <= j < h.bigrams.len() && (#[trigger] h.bigrams[j]).prev == prev
            ==> h.bigrams[j].frequency <= h.bigrams[b].frequency
}

proof fn lemma_source(h: HistoryView, prev: Seq<char>, n: nat, k: int) -> (b: int)
    requires
        n <= h.bigrams.len(),
        0 <= k < h.found_behind(prev, n).len(),
    ensures
        0 <= b < n,
        h.bigrams[b].prev == prev,
        h.bigrams[b].reading == h.found_behind(prev, n)[k].reading,
        h.bigrams[b].surface == h.found_behind(prev, n)[k].surface,
        h.found_behind(prev, n)[k].boost == 3000 * h.bigrams[b].frequency,
    decreases n,
{
    let before = h.found_behind(prev, (n - 1) as nat);
    if k < before.len() {
        lemma_source(h, prev, (n - 1) as nat, k)
    } else {
        n - 1
    }
}

proof fn lemma_target(h: HistoryView, prev: Seq<char>, n: nat, b: int) -> (k: int)
    requires
        0 <= b < n <= h.bigrams.len(),
        h.bigrams[b].prev == prev,
    ensures
        0 <= k < h.found_behind(prev, n).len(),
        h.bigrams[b].reading == h.found_behind(prev, n)[k].reading,
        h.bigrams[b].surface == h.found_behind(prev, n)[k].surface,
        h.found_behind(prev, n)[k].boost == 3000 * h.bigrams[b].frequency,
    decreases n,
{
    let before = h.found_behind(prev, (n - 1) as nat);
    if b < n - 1 {
        lemma_target(h, prev, (n - 1) as nat, b)
    } else {
        before.len() as int
    }
}

proof fn lemma_reordered<T: Ranked>(s: Seq<T>, x: T)
    ensures
        s.contains(x) <==> ordering::ranked_order(s).contains(x),
{
    broadcast use vstd::seq_lib::group_to_multiset_ensures;

    ordering::ranked_order_sorts(s);
    assert(s.to_multiset().contains(x) == ordering::ranked_order(s).to_multiset().contains(x));
}

/// A word used behind another is one that a pair of the history names, with the boost
/// of its uses.
pub proof fn successors_are_pairs(h: HistoryView, prev: Seq<char>, i: int) -> (b: int)
    requires
        0 <= i < h.successors(prev).len(),
    ensures
        0 <= b < h.bigrams.len(),
        h.bigrams[b].prev == prev,
        h.bigrams[b].reading == h.successors(prev)[i].reading,
        h.bigrams[b].surface == h.successors(prev)[i].surface,
        h.successors(prev)[i].boost == 3000 * h.bigrams[b].frequency,
{
    let n = h.bigrams.len();
    let found = h.found_behind(prev, n);
    let x = h.successors(prev)[i];
    lemma_reordered(found, x);
    assert(h.successors(prev).contains(x));
    let k = choose|k: int| 0 <= k < found.len() && found[k] == x;
    lemma_source(h, prev, n, k)
}

/// Each pair of the history names a word used behind its first word.
pub proof fn pairs_are_successors(h: HistoryView, prev: Seq<char>, b: int) -> (i: int)
    requires
        0 <= b < h.bigrams.len(),
        h.bigrams[b].prev == prev,
    ensures
        0 <= i < h.successors(prev).len(),
        h.bigrams[b].reading == h.successors(prev)[i].reading,
        h.bigrams[b].surface == h.successors(prev)[i].surface,
        h.successors(prev)[i].boost == 3000 * h.bigrams[b].frequency,
{
    let n = h.bigrams.len();
    let found = h.found_behind(prev, n);
    let k = lemma_target(h, prev, n, b);
    lemma_reordered(found, found[k]);
    assert(found.contains(found[k]));
    let s = h.successors(prev);
    let i = choose|i: int| 0 <= i < s.len() && s[i] == found[k];
    i
}

/// The words used behind another come with the most used first.
pub proof fn successors_are_ordered_by_use(h: HistoryView, prev: Seq<char>, i: int, j: int)
    requires
        0 <= i < j < h.successors(prev).len(),
    ensures
        h.successors(prev)[i].boost >= h.successors(prev)[j].boost,
{
    let s = h.successors(prev);
    ordering::ranked_order_sorts(h.found_behind(prev, h.bigrams.len()));
    assert(s[i].rank() <= s[j].rank());
    let a = successors_are_pairs(h, prev, i);
    let b = successors_are_pairs(h, prev, j);
}

/// The first of the words used behind another is one of those used most.
pub proof fn first_successor_is_most_used(h: HistoryView, prev: Seq<char>) -> (b: int)
    requires
        h.successors(prev).len() > 0,
    ensures
        is_most_used(h, prev, b),
        h.bigrams[b].surface == h.successors(prev)[0].surface,
        h.bigrams[b].reading == h.successors(prev)[0].reading,
{
    let b = successors_are_pairs(h, prev, 0);
    assert forall|j: int|
        0 <= j < h.bigrams.len() && (#[trigger] h.bigrams[j]).prev
            == prev implies h.bigrams[j].frequency <= h.bigrams[b].frequency by {
        let i = pairs_are_successors(h, prev, j);
        if i > 0 {
            successors_are_ordered_by_use(h, prev, 0, i);
        }
    }
    b
}

/// Ranking by history keeps the entries, puts those with the larger boost first, and
/// of those with the same boost the cheaper ones.
pub proof fn ranking_goes_by_boost(h: HistoryView, s: Seq<(Seq<char>, EntryView)>)
    ensures
        h.ranked(s).len() == s.len(),
        forall|x: (Seq<char>, EntryView)| #[trigger] h.ranked(s).contains(x) <==> s.contains(x),
        forall|i: int, j: int|
            0 <= i < j < s.len() ==> {
                let a = #[trigger] h.ranked(s)[i];
                let b = #[trigger] h.ranked(s)[j];
                &&& h.unigram_boost(a.0, a.1.surface) >= h.unigram_boost(b.0, b.1.surface)
                &&& h.unigram_boost(a.0, a.1.surface) == h.unigram_boost(b.0, b.1.surface)
                    ==> a.1.cost <= b.1.cost
            },
{
    let w = user_history::weighted(h, s);
    let o = ordering::ranked_order(w);
    let r = h.ranked(s);
    ordering::ranked_order_sorts(w);
    assert forall|k: int| 0 <= k < o.len() implies (#[trigger] o[k]).boost == h.unigram_boost(
        o[k].reading,
        o[k].entry.surface,
    ) && s.contains((o[k].reading, o[k].entry)) by {
        lemma_reordered(w, o[k]);
        assert(o.contains(o[k]));
        let m = choose|m: int| 0 <= m < w.len() && w[m] == o[k];
        assert(s[m] == (o[k].reading, o[k].entry));
    }
    assert forall|x: (Seq<char>, EntryView)| #[trigger] r.contains(x) <==> s.contains(x) by {
        if s.contains(x) {
            let m = choose|m: int| 0 <= m < s.len() && s[m] == x;
            lemma_reordered(w, w[m]);
            assert(w.contains(w[m]));
            let k = choose|k: int| 0 <= k < o.len() && o[k] == w[m];
            assert(r[k] == x);
        }
        if r.contains(x) {
            let k = choose|k: int| 0 <= k < r.len() && r[k] == x;
            assert(s.contains((o[k].reading, o[k].entry)));
        }
    }
    assert forall|i: int, j: int| 0 <= i < j < s.len() implies ({
        let a = #[trigger] h.ranked(s)[i];
        let b = #[trigger] h.ranked(s)[j];
        &&& h.unigram_boost(a.0, a.1.surface) >= h.unigram_boost(b.0, b.1.surface)
        &&& h.unigram_boost(a.0, a.1.surface) == h.unigram_boost(b.0, b.1.surface) ==> a.1.cost
            <= b.1.cost
    }) by {
        let a = o[i];
        let b = o[j];
        assert(a.rank() <= b.rank());
        let fa = lemma_frequency(h, a.reading, a.entry.surface);
        let fb = lemma_frequency(h, b.reading, b.entry.surface);
        user_history::boost_goes_before_cost(a, fa, b, fb);
        user_history::boost_goes_before_cost(b, fb, a, fa);
    }
}

proof fn lemma_frequency(h: HistoryView, reading: Seq<char>, surface: Seq<char>) -> (f: u32)
    ensures
        h.unigram_boost(reading, surface) == user_history::boost_of(f),
{
    let i = seqs::first_place(h.unigrams, user_history::is_unigram(reading, surface));
    if i < h.unigrams.len() {
        h.unigrams[i].frequency
    } else {
        0
    }
}

/// The entries of a reading are all kept, those with the larger boost first, and of
/// those with the same boost the cheaper ones.
pub proof fn reordering_goes_by_boost(h: HistoryView, reading: Seq<char>, s: Seq<EntryView>)
    ensures
        h.reordered(reading, s).len() == s.len(),
        forall|x: EntryView| #[trigger] h.reordered(reading, s).contains(x) <==> s.contains(x),
        forall|i: int, j: int|
            0 <= i < j < s.len() ==> {
                let a = #[trigger] h.reordered(reading, s)[i];
                let b = #[trigger] h.reordered(reading, s)[j];
                &&& h.unigram_boost(reading, a.surface) >= h.unigram_boost(reading, b.surface)
                &&& h.unigram_boost(reading, a.surface) == h.unigram_boost(reading, b.surface)
                    ==> a.cost <= b.cost
            },
{
    let pairs = Seq::new(s.len(), |i: int| (reading, s[i]));
    let r = h.ranked(pairs);
    let t = h.reordered(reading, s);
    ranking_goes_by_boost(h, pairs);
    assert forall|k: int| 0 <= k < r.len() implies (#[trigger] r[k]).0 == reading && s.contains(
        r[k].1,
    ) by {
        assert(r.contains(r[k]));
        let m = choose|m: int| 0 <= m < pairs.len() && pairs[m] == r[k];
        assert(s[m] == r[k].1);
    }
    assert forall|x: EntryView| #[trigger] t.contains(x) <==> s.contains(x) by {
        if s.contains(x) {
            let m = choose|m: int| 0 <= m < s.len() && s[m] == x;
            assert(pairs[m] == (reading, x));
            assert(pairs.contains((reading, x)));
            assert(r.contains((reading, x)));
            let k = choose|k: int| 0 <= k < r.len() && r[k] == (reading, x);
            assert(t[k] == x);
        }
        if t.contains(x) {
            let k = choose|k: int| 0 <= k < t.len() && t[k] == x;
            assert(s.contains(r[k].1));
        }
    }
    assert forall|i: int, j: int| 0 <= i < j < s.len() implies ({
        let a = #[trigger] h.reordered(reading, s)[i];
        let b = #[trigger] h.reordered(reading, s)[j];
        &&& h.unigram_boost(reading, a.surface) >= h.unigram_boost(reading, b.surface)
        &&& h.unigram_boost(reading, a.surface) == h.unigram_boost(reading, b.surface) ==> a.cost
            <= b.cost
    }) by {
        assert(t[i] == r[i].1 && t[j] == r[j].1);
        assert(r[i].0 == reading && r[j].0 == reading);
    }
}

/// What is forgotten was known: some word that was used, by itself or behind another,
/// is one of the pairs.
pub proof fn known_pairs_were_used(h: HistoryView, pairs: Seq<(Seq<char>, Seq<char>)>)
    ensures
        h.knows_any(pairs) <==> {
            ||| exists|i: int|
                0 <= i < h.unigrams.len() && pairs.contains(
                    ((#[trigger] h.unigrams[i]).reading, h.unigrams[i].surface),
                )
            ||| exists|i: int|
                0 <= i < h.bigrams.len() && pairs.contains(
                    ((#[trigger] h.bigrams[i]).reading, h.bigrams[i].surface),
                )
        },
{
    if exists|i: int|
        0 <= i < h.unigrams.len() && pairs.contains(
            ((#[trigger] h.unigrams[i]).reading, h.unigrams[i].surface),
        ) {
        let i = choose|i: int|
            0 <= i < h.unigrams.len() && pairs.contains(
                ((#[trigger] h.unigrams[i]).reading, h.unigrams[i].surface),
            );
        assert(!user_history::spared_unigram(pairs)(h.unigrams[i]));
    }
    if exists|i: int|
        0 <= i < h.bigrams.len() && pairs.contains(
            ((#[trigger] h.bigrams[i]).reading, h.bigrams[i].surface),
        ) {
        let i = choose|i: int|
            0 <= i < h.bigrams.len() && pairs.contains(
                ((#[trigger] h.bigrams[i]).reading, h.bigrams[i].surface),
            );
        assert(!user_history::spared_bigram(pairs)(h.bigrams[i]));
    }
}

} // verus!
