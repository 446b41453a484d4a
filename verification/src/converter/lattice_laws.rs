//! Which words a lattice holds.

use vstd::prelude::*;

use super::lattice::{self, NodeView};
use crate::dict::{self, EntryView, ResultView};

verus! {

/// A prefix of a query that is a reading is found, with its entries.
pub proof fn prefixes_are_found(
    words: Map<Seq<char>, Seq<EntryView>>,
    query: Seq<char>,
    n: int,
) -> (i: int)
    requires
        0 <= n <= query.len(),
        words.contains_key(query.take(n)),
    ensures
        0 <= i < dict::prefixes_of(words, query).len(),
        dict::prefixes_of(words, query)[i].reading == query.take(n),
        dict::prefixes_of(words, query)[i].entries == words[query.take(n)],
{
    lemma_prefix(words, query, n, query.len() + 1)
}

proof fn lemma_prefix(
    words: Map<Seq<char>, Seq<EntryView>>,
    query: Seq<char>,
    n: int,
    k: nat,
) -> (i: int)
    requires
        0 <= n < k,
        words.contains_key(query.take(n)),
    ensures
        0 <= i < dict::prefixes_below(words, query, k).len(),
        dict::prefixes_below(words, query, k)[i] == (ResultView {
            reading: query.take(n),
            entries: words[query.take(n)],
        }),
    decreases k,
{
    if n == k - 1 {
        dict::prefixes_below(words, query, (k - 1) as nat).len() as int
    } else {
        lemma_prefix(words, query, n, (k - 1) as nat)
    }
}

proof fn lemma_found_prefix(
    words: Map<Seq<char>, Seq<EntryView>>,
    query: Seq<char>,
    k: nat,
    i: int,
)
    requires
        k <= query.len() + 1,
        0 <= i < dict::prefixes_below(words, query, k).len(),
    ensures
        ({
            let r = dict::prefixes_below(words, query, k)[i];
            &&& r.reading.len() < k
            &&& r.reading == query.take(r.reading.len() as int)
            &&& words.contains_key(r.reading)
            &&& r.entries == words[r.reading]
        }),
    decreases k,
{
    if i < dict::prefixes_below(words, query, (k - 1) as nat).len() {
        lemma_found_prefix(words, query, (k - 1) as nat, i);
    }
}

proof fn lemma_prefixes_grow(
    words: Map<Seq<char>, Seq<EntryView>>,
    query: Seq<char>,
    k: nat,
    i: int,
    j: int,
)
    requires
        k <= query.len() + 1,
        0 <= i < j < dict::prefixes_below(words, query, k).len(),
    ensures
        dict::prefixes_below(words, query, k)[i].reading.len() < dict::prefixes_below(
            words,
            query,
            k,
        )[j].reading.len(),
    decreases k,
{
    let before = dict::prefixes_below(words, query, (k - 1) as nat);
    if j < before.len() {
        lemma_prefixes_grow(words, query, (k - 1) as nat, i, j);
    } else {
        lemma_found_prefix(words, query, (k - 1) as nat, i);
        assert(query.take(k - 1).len() == k - 1);
    }
}

/// What is found among the prefixes of a query is a prefix that is a reading, with its
/// entries, and the shorter ones come first.
pub proof fn found_prefixes_are_readings(
    words: Map<Seq<char>, Seq<EntryView>>,
    query: Seq<char>,
    i: int,
    j: int,
)
    requires
        0 <= i < dict::prefixes_of(words, query).len(),
    ensures
        ({
            let r = dict::prefixes_of(words, query)[i];
            &&& r.reading.len() <= query.len()
            &&& r.reading == query.take(r.reading.len() as int)
            &&& words.contains_key(r.reading)
            &&& r.entries == words[r.reading]
        }),
        i < j < dict::prefixes_of(words, query).len() ==> dict::prefixes_of(
            words,
            query,
        )[i].reading.len() < dict::prefixes_of(words, query)[j].reading.len(),
{
    lemma_found_prefix(words, query, query.len() + 1, i);
    if i < j < dict::prefixes_of(words, query).len() {
        lemma_prefixes_grow(words, query, query.len() + 1, i, j);
    }
}

/// The node of an entry whose reading stands at `start`.
pub open spec fn node_of(start: int, reading: Seq<char>, e: EntryView) -> NodeView {
    NodeView {
        start: start as usize,
        end: (start + reading.len()) as usize,
        reading,
        surface: e.surface,
        cost: e.cost,
        left_id: e.left_id,
        right_id: e.right_id,
    }
}

proof fn lemma_found_node(start: usize, rs: Seq<ResultView>, k: nat, i: int, j: int) -> (m: int)
    requires
        0 <= i < k <= rs.len(),
        rs[i].reading.len() > 0,
        0 <= j < rs[i].entries.len(),
    ensures
        0 <= m < lattice::found_nodes(start, rs, k).len(),
        lattice::found_nodes(start, rs, k)[m] == node_of(
            start as int,
            rs[i].reading,
            rs[i].entries[j],
        ),
    decreases k,
{
    let before = lattice::found_nodes(start, rs, (k - 1) as nat);
    if i == k - 1 {
        let m = before.len() + j;
        assert(lattice::found_nodes(start, rs, k)[m] == lattice::entry_nodes(start, rs[i])[j]);
        m
    } else {
        let m = lemma_found_node(start, rs, (k - 1) as nat, i, j);
        assert(lattice::found_nodes(start, rs, k)[m] == before[m]);
        m
    }
}

proof fn lemma_node_source(start: usize, rs: Seq<ResultView>, k: nat, m: int) -> (r: (int, int))
    requires
        k <= rs.len(),
        0 <= m < lattice::found_nodes(start, rs, k).len(),
    ensures
        0 <= r.0 < k,
        rs[r.0].reading.len() > 0,
        0 <= r.1 < rs[r.0].entries.len(),
        lattice::found_nodes(start, rs, k)[m] == node_of(
            start as int,
            rs[r.0].reading,
            rs[r.0].entries[r.1],
        ),
    decreases k,
{
    let before = lattice::found_nodes(start, rs, (k - 1) as nat);
    if m < before.len() {
        lemma_node_source(start, rs, (k - 1) as nat, m)
    } else {
        assert(rs[k - 1].reading.len() > 0);
        assert(lattice::found_nodes(start, rs, k)[m] == lattice::entry_nodes(start, rs[k - 1])[m
            - before.len()]);
        (k - 1, m - before.len())
    }
}

proof fn lemma_nodes_at_stay(
    words: Map<Seq<char>, Seq<EntryView>>,
    kana: Seq<char>,
    start: int,
    upto: nat,
    m: int,
) -> (x: int)
    requires
        0 <= start < upto,
        0 <= m < lattice::nodes_at(words, kana, start).len(),
    ensures
        0 <= x < lattice::nodes_before(words, kana, upto).len(),
        lattice::nodes_before(words, kana, upto)[x] == lattice::nodes_at(words, kana, start)[m],
    decreases upto,
{
    let before = lattice::nodes_before(words, kana, (upto - 1) as nat);
    if start == upto - 1 {
        before.len() + m
    } else {
        let x = lemma_nodes_at_stay(words, kana, start, (upto - 1) as nat, m);
        assert(lattice::nodes_before(words, kana, upto)[x] == before[x]);
        x
    }
}

proof fn lemma_node_place(
    words: Map<Seq<char>, Seq<EntryView>>,
    kana: Seq<char>,
    upto: nat,
    x: int,
) -> (r: (int, int))
    requires
        0 <= x < lattice::nodes_before(words, kana, upto).len(),
    ensures
        0 <= r.0 < upto,
        0 <= r.1 < lattice::nodes_at(words, kana, r.0).len(),
        lattice::nodes_before(words, kana, upto)[x] == lattice::nodes_at(words, kana, r.0)[r.1],
    decreases upto,
{
    let before = lattice::nodes_before(words, kana, (upto - 1) as nat);
    if x < before.len() {
        lemma_node_place(words, kana, (upto - 1) as nat, x)
    } else {
        (upto - 1, x - before.len())
    }
}

/// Every word of the dictionary that stands anywhere in the string is a node of its
/// lattice, with its own cost and ids.
pub proof fn every_word_is_a_node(
    words: Map<Seq<char>, Seq<EntryView>>,
    kana: Seq<char>,
    start: int,
    end: int,
    j: int,
) -> (x: int)
    requires
        0 <= start < end <= kana.len() <= usize::MAX,
        words.contains_key(kana.subrange(start, end)),
        0 <= j < words[kana.subrange(start, end)].len(),
    ensures
        0 <= x < lattice::lattice_of(words, kana).nodes.len(),
        lattice::lattice_of(words, kana).nodes[x] == node_of(
            start,
            kana.subrange(start, end),
            words[kana.subrange(start, end)][j],
        ),
{
    let query = kana.skip(start);
    let reading = kana.subrange(start, end);
    assert(query.take(end - start) =~= reading);
    let i = prefixes_are_found(words, query, end - start);
    let rs = dict::prefixes_of(words, query);
    let found = lattice::found_nodes(start as usize, rs, rs.len());
    let m = lemma_found_node(start as usize, rs, rs.len(), i, j);
    assert(lattice::nodes_at(words, kana, start)[m] == found[m]);
    lemma_nodes_at_stay(words, kana, start, kana.len(), m)
}

/// A character that no word of the dictionary covers alone is a node by itself, with
/// the cost 10000 and without ids.
pub proof fn every_unknown_character_is_a_node(
    words: Map<Seq<char>, Seq<EntryView>>,
    kana: Seq<char>,
    p: int,
) -> (x: int)
    requires
        0 <= p < kana.len() <= usize::MAX,
        !words.contains_key(seq![kana[p]]) || words[seq![kana[p]]].len() == 0,
    ensures
        0 <= x < lattice::lattice_of(words, kana).nodes.len(),
        lattice::lattice_of(words, kana).nodes[x] == node_of(
            p,
            seq![kana[p]],
            (EntryView { surface: seq![kana[p]], cost: 10000, left_id: 0, right_id: 0 }),
        ),
{
    let query = kana.skip(p);
    let rs = dict::prefixes_of(words, query);
    let found = lattice::found_nodes(p as usize, rs, rs.len());
    assert forall|i: int| 0 <= i < found.len() implies (#[trigger] found[i]).end != p + 1 by {
        let r = lemma_node_source(p as usize, rs, rs.len(), i);
        found_prefixes_are_readings(words, query, r.0, r.0);
        let reading = rs[r.0].reading;
        if found[i].end == p + 1 {
            assert(reading =~= seq![kana[p]]);
        }
    }
    let m = found.len() as int;
    assert(lattice::nodes_at(words, kana, p)[m] == lattice::unknown_node(p as usize, kana[p]));
    lemma_nodes_at_stay(words, kana, p, kana.len(), m)
}

/// Every node of a lattice is a word of the dictionary that stands there, or a
/// character that no word of the dictionary covers alone.
pub proof fn nodes_are_words_or_characters(
    words: Map<Seq<char>, Seq<EntryView>>,
    kana: Seq<char>,
    x: int,
)
    requires
        kana.len() <= usize::MAX,
        0 <= x < lattice::lattice_of(words, kana).nodes.len(),
    ensures
        ({
            let n = lattice::lattice_of(words, kana).nodes[x];
            let p = n.start as int;
            &&& p < kana.len()
            &&& ({
                ||| {
                    &&& words.contains_key(n.reading)
                    &&& n.reading.len() > 0
                    &&& p + n.reading.len() <= kana.len()
                    &&& n.reading == kana.subrange(p, p + n.reading.len())
                    &&& exists|j: int|
                        0 <= j < words[n.reading].len() && n == node_of(
                            p,
                            n.reading,
                            #[trigger] words[n.reading][j],
                        )
                }
                ||| {
                    &&& n == node_of(
                        p,
                        seq![kana[p]],
                        EntryView { surface: seq![kana[p]], cost: 10000, left_id: 0, right_id: 0 },
                    )
                    &&& !words.contains_key(seq![kana[p]]) || words[seq![kana[p]]].len() == 0
                }
            })
        }),
{
    let (p, m) = lemma_node_place(words, kana, kana.len(), x);
    let query = kana.skip(p);
    let rs = dict::prefixes_of(words, query);
    let found = lattice::found_nodes(p as usize, rs, rs.len());
    let n = lattice::lattice_of(words, kana).nodes[x];
    if m < found.len() {
        let r = lemma_node_source(p as usize, rs, rs.len(), m);
        found_prefixes_are_readings(words, query, r.0, r.0);
        let reading = rs[r.0].reading;
        assert(reading =~= kana.subrange(p, p + reading.len()));
        assert(n == node_of(p, reading, words[reading][r.1]));
    } else {
        let one = seq![kana[p]];
        if words.contains_key(one) && words[one].len() > 0 {
            assert(query.take(1) =~= one);
            let i = prefixes_are_found(words, query, 1);
            let k = lemma_found_node(p as usize, rs, rs.len(), i, 0);
            assert(found[k].end == p + 1);
        }
    }
}

} // verus!
