//! Putting two dictionaries together, and thinning one out.

use vstd::prelude::*;

use crate::dict::source::table::{self, EntryTable};
use crate::dict::{self, trie_dict, clone_entries, DictEntry, Dictionary, EntryView, TrieDictionary};
use crate::seqs;
use crate::text::{self, same_text};

verus! {

/// Whether an entry has this surface.
pub open spec fn of_surface(surface: Seq<char>) -> spec_fn(EntryView) -> bool {
    |e: EntryView| e.surface == surface
}

/// Entries with one more. Where there is one of the same surface, the cheaper of
/// the two stays, and the one that was there if they cost the same.
pub open spec fn absorbed(slot: Seq<EntryView>, e: EntryView) -> Seq<EntryView> {
    let i = seqs::first_place(slot, of_surface(e.surface));
    if i >= slot.len() {
        slot.push(e)
    } else if e.cost < slot[i].cost {
        slot.update(i, e)
    } else {
        slot
    }
}

/// Entries with others, one after the other.
pub open spec fn all_absorbed(slot: Seq<EntryView>, others: Seq<EntryView>) -> Seq<EntryView>
    decreases others.len(),
{
    if others.len() == 0 {
        slot
    } else {
        absorbed(all_absorbed(slot, others.drop_last()), others.last())
    }
}

/// The words of two dictionaries together.
pub open spec fn merged(
    a: Map<Seq<char>, Seq<EntryView>>,
    b: Map<Seq<char>, Seq<EntryView>>,
) -> Map<Seq<char>, Seq<EntryView>> {
    Map::new(
        |reading: Seq<char>| a.contains_key(reading) || b.contains_key(reading),
        |reading: Seq<char>|
            all_absorbed(table::entries_at(a, reading), table::entries_at(b, reading)),
    )
}

/// Adds an entry, if there is none of the same surface that costs no more.
fn absorb(slot: &mut Vec<DictEntry>, e: &DictEntry)
    ensures
        text::views(final(slot)@) == absorbed(text::views(old(slot)@), e@),
{
    let ghost before = text::views(slot@);
    let mut i: usize = 0;
    while i < slot.len() && !same_text(slot[i].surface.as_str(), e.surface.as_str())
        invariant
            i <= slot@.len(),
            before == text::views(slot@),
            seqs::first_place(before, of_surface(e@.surface)) == seqs::first_from(
                before,
                of_surface(e@.surface),
                i as int,
            ),
        decreases slot.len() - i,
    {
        proof {
            assert(before[i as int] == slot@[i as int]@);
        }
        i = i + 1;
    }
    if i >= slot.len() {
        slot.push(e.clone());
        proof {
            assert(text::views(slot@) =~= before.push(e@));
        }
    } else {
        proof {
            assert(before[i as int] == slot@[i as int]@);
            assert(of_surface(e@.surface)(before[i as int]));
        }
        if e.cost < slot[i].cost {
            slot.set(i, e.clone());
            proof {
                assert(text::views(slot@) =~= before.update(i as int, e@));
            }
        }
    }
}

/// What is known of the readings of a dictionary and their entries when they are
/// listed.
pub proof fn lemma_listed(d: &TrieDictionary, pairs: Seq<(String, &Vec<DictEntry>)>)
    requires
        trie_dict::pair_results(pairs) == dict::with_entries(d.words(), d.completions(Seq::empty())),
        dict::completes(d.words(), Seq::empty(), d.completions(Seq::empty())),
    ensures
        pairs.len() == d.completions(Seq::empty()).len(),
        forall|i: int|
            0 <= i < pairs.len() ==> (#[trigger] pairs[i]).0@ == d.completions(Seq::empty())[i]
                && d.words().contains_key(pairs[i].0@) && text::views(pairs[i].1@)
                == d.words()[pairs[i].0@],
        forall|r: Seq<char>| #[trigger]
            d.words().contains_key(r) ==> d.completions(Seq::empty()).contains(r),
        d.completions(Seq::empty()).no_duplicates(),
{
    let list = d.completions(Seq::empty());
    let results = dict::with_entries(d.words(), list);
    assert(trie_dict::pair_results(pairs).len() == pairs.len());
    assert(results.len() == list.len());
    assert forall|i: int| 0 <= i < pairs.len() implies (#[trigger] pairs[i]).0@ == list[i]
        && d.words().contains_key(pairs[i].0@) && text::views(pairs[i].1@)
        == d.words()[pairs[i].0@] by {
        assert(trie_dict::pair_results(pairs)[i] == results[i]);
    }
    assert forall|r: Seq<char>| #[trigger] d.words().contains_key(r) implies list.contains(r) by {
        assert(r.subrange(0, 0) =~= Seq::empty());
        assert(Seq::<char>::empty().is_prefix_of(r));
    }
}

/// Puts two dictionaries together: all entries of the first, and those of the
/// second of which the first has none, or none as cheap, under the same reading.
pub fn merge(dict_a: &TrieDictionary, dict_b: &TrieDictionary) -> (r: EntryTable)
    requires
        dict_a.valid(),
        dict_b.valid(),
    ensures
        r.words() == merged(dict_a.words(), dict_b.words()),
{
    let ghost a = dict_a.words();
    let ghost b = dict_b.words();
    let ghost list_a = dict_a.completions(Seq::empty());
    let ghost list_b = dict_b.completions(Seq::empty());
    let mut out = EntryTable::new();
    let rows_a = dict_a.iter();
    proof {
        lemma_listed(dict_a, rows_a@);
    }
    let mut i: usize = 0;
    while i < rows_a.len()
        invariant
            i <= rows_a@.len(),
            rows_a@.len() == list_a.len(),
            list_a.no_duplicates(),
            forall|k: int|
                0 <= k < rows_a@.len() ==> (#[trigger] rows_a@[k]).0@ == list_a[k]
                    && a.contains_key(rows_a@[k].0@) && text::views(rows_a@[k].1@)
                    == a[rows_a@[k].0@],
            forall|r: Seq<char>| #[trigger]
                out.words().contains_key(r) <==> list_a.take(i as int).contains(r),
            forall|r: Seq<char>| #[trigger]
                out.words().contains_key(r) ==> a.contains_key(r) && out.words()[r] == a[r],
        decreases rows_a.len() - i,
    {
        let ghost reading = list_a[i as int];
        out.insert(rows_a[i].0.clone(), clone_entries(rows_a[i].1.as_slice()));
        proof {
            assert(rows_a@[i as int].0@ == reading);
            lemma_take_contains(list_a, i as int);
        }
        i = i + 1;
    }
    proof {
        assert(list_a.take(i as int) =~= list_a);
        assert(out.words() =~= a);
    }
    let rows_b = dict_b.iter();
    proof {
        lemma_listed(dict_b, rows_b@);
    }
    let mut k: usize = 0;
    while k < rows_b.len()
        invariant
            k <= rows_b@.len(),
            rows_b@.len() == list_b.len(),
            list_b.no_duplicates(),
            forall|j: int|
                0 <= j < rows_b@.len() ==> (#[trigger] rows_b@[j]).0@ == list_b[j]
                    && b.contains_key(rows_b@[j].0@) && text::views(rows_b@[j].1@)
                    == b[rows_b@[j].0@],
            forall|r: Seq<char>| #[trigger]
                out.words().contains_key(r) <==> a.contains_key(r) || list_b.take(
                    k as int,
                ).contains(r),
            forall|r: Seq<char>| #[trigger]
                out.words().contains_key(r) ==> out.words()[r] == if list_b.take(
                    k as int,
                ).contains(r) {
                    merged(a, b)[r]
                } else {
                    a[r]
                },
        decreases rows_b.len() - k,
    {
        let ghost reading = list_b[k as int];
        let ghost before = out.words();
        proof {
            assert(rows_b@[k as int].0@ == reading);
            lemma_take_contains(list_b, k as int);
        }
        let others: &Vec<DictEntry> = rows_b[k].1;
        let mut slot: Vec<DictEntry> = match out.get(rows_b[k].0.as_str()) {
            Some(v) => clone_entries(v.as_slice()),
            None => Vec::new(),
        };
        let ghost start = text::views(slot@);
        let ghost extra = text::views(others@);
        proof {
            assert(start =~= table::entries_at(a, reading));
            assert(extra.take(0) =~= Seq::empty());
        }
        let mut j: usize = 0;
        while j < others.len()
            invariant
                j <= others@.len(),
                extra == text::views(others@),
                text::views(slot@) == all_absorbed(start, extra.take(j as int)),
            decreases others.len() - j,
        {
            proof {
                assert(extra.take(j + 1).drop_last() =~= extra.take(j as int));
                assert(extra.take(j + 1).last() == others@[j as int]@);
            }
            absorb(&mut slot, &others[j]);
            j = j + 1;
        }
        proof {
            assert(extra.take(j as int) =~= extra);
            assert(merged(a, b).contains_key(reading));
        }
        out.insert(rows_b[k].0.clone(), slot);
        k = k + 1;
    }
    proof {
        assert(list_b.take(k as int) =~= list_b);
        assert forall|r: Seq<char>| #[trigger] out.words().contains_key(r) implies out.words()[r]
            == merged(a, b)[r] by {
            if !list_b.contains(r) {
                assert(!b.contains_key(r));
                assert(all_absorbed(a[r], Seq::empty()) == a[r]);
            }
        }
        assert forall|r: Seq<char>| #[trigger] list_b.contains(r) implies b.contains_key(r) by {
            let j = choose|j: int| 0 <= j < list_b.len() && list_b[j] == r;
            assert(rows_b@[j].0@ == r);
        }
        assert(out.words() =~= merged(a, b));
    }
    out
}

/// One place more holds one item more.
pub proof fn lemma_take_contains<T>(s: Seq<T>, i: int)
    requires
        0 <= i < s.len(),
        s.no_duplicates(),
    ensures
        forall|x: T| #[trigger]
            s.take(i + 1).contains(x) <==> s.take(i).contains(x) || x == s[i],
        !s.take(i).contains(s[i]),
{
    let longer = s.take(i + 1);
    let shorter = s.take(i);
    assert forall|x: T| #[trigger] longer.contains(x) <==> shorter.contains(x) || x == s[i] by {
        if longer.contains(x) {
            let k = choose|k: int| 0 <= k < longer.len() && longer[k] == x;
            if k < i {
                assert(shorter[k] == x);
            }
        }
        if shorter.contains(x) {
            let k = choose|k: int| 0 <= k < shorter.len() && shorter[k] == x;
            assert(longer[k] == x);
        }
        if x == s[i] {
            assert(longer[i] == x);
        }
    }
}

/// Which entries a dictionary is to keep.
pub struct MergeOptions {
    /// The highest cost to keep.
    pub max_cost: Option<i16>,
    /// The length in characters of the longest reading to keep.
    pub max_reading_len: Option<usize>,
}

/// The entries that cost at most `max`.
pub open spec fn cheap(entries: Seq<EntryView>, max: i16) -> Seq<EntryView>
    decreases entries.len(),
{
    if entries.len() == 0 {
        entries
    } else {
        let before = cheap(entries.drop_last(), max);
        if entries.last().cost <= max {
            before.push(entries.last())
        } else {
            before
        }
    }
}

impl MergeOptions {
    /// The entries of a reading that are kept.
    pub open spec fn kept_entries(self, entries: Seq<EntryView>) -> Seq<EntryView> {
        match self.max_cost {
            Some(max) => cheap(entries, max),
            None => entries,
        }
    }

    /// Whether a reading is kept. With a highest cost, one without entries is not.
    pub open spec fn keeps(self, reading: Seq<char>, entries: Seq<EntryView>) -> bool {
        &&& self.max_reading_len matches Some(max) ==> reading.len() <= max
        &&& self.max_cost is Some ==> self.kept_entries(entries).len() > 0
    }

    /// The words that are kept.
    pub open spec fn kept(self, words: Map<Seq<char>, Seq<EntryView>>) -> Map<
        Seq<char>,
        Seq<EntryView>,
    > {
        Map::new(
            |reading: Seq<char>|
                words.contains_key(reading) && self.keeps(reading, words[reading]),
            |reading: Seq<char>| self.kept_entries(words[reading]),
        )
    }

    /// Whether anything can be dropped at all.
    pub fn drops(&self) -> (r: bool)
        ensures
            r == (self.max_cost is Some || self.max_reading_len is Some),
    {
        self.max_cost.is_some() || self.max_reading_len.is_some()
    }
}

fn keep_cheap(entries: &Vec<DictEntry>, max: i16) -> (r: Vec<DictEntry>)
    ensures
        text::views(r@) == cheap(text::views(entries@), max),
{
    let ghost all = text::views(entries@);
    let mut out: Vec<DictEntry> = Vec::new();
    let mut i: usize = 0;
    proof {
        assert(all.take(0) =~= Seq::empty());
        assert(text::views(out@) =~= Seq::empty());
    }
    while i < entries.len()
        invariant
            i <= entries@.len(),
            all == text::views(entries@),
            text::views(out@) == cheap(all.take(i as int), max),
        decreases entries.len() - i,
    {
        proof {
            assert(all.take(i + 1).drop_last() =~= all.take(i as int));
            assert(all.take(i + 1).last() == entries@[i as int]@);
        }
        if entries[i].cost <= max {
            let ghost before = text::views(out@);
            out.push(entries[i].clone());
            proof {
                assert(text::views(out@) =~= before.push(entries@[i as int]@));
            }
        }
        i = i + 1;
    }
    proof {
        assert(all.take(i as int) =~= all);
    }
    out
}

/// Whether a reading stands before place `i`.
spec fn stands_before(
    list: Seq<(Seq<char>, Seq<EntryView>)>,
    i: int,
    reading: Seq<char>,
) -> bool {
    exists|k: int| 0 <= k < i && (#[trigger] list[k]).0 == reading
}

/// Keeps the readings and entries that the options ask for.
pub fn filter_entries(entries: &EntryTable, opts: &MergeOptions) -> (r: EntryTable)
    ensures
        r.words() == opts.kept(entries.words()),
{
    let ghost list = entries.list();
    let ghost words = entries.words();
    let mut out = EntryTable::new();
    let n: usize = entries.len();
    let mut i: usize = 0;
    proof {
        table::lemma_gathered(list);
    }
    while i < n
        invariant
            i <= n,
            n == list.len(),
            list == entries.list(),
            words == entries.words(),
            table::distinct_readings(list),
            forall|k: int|
                0 <= k < list.len() ==> words.contains_key((#[trigger] list[k]).0)
                    && words[list[k].0] == list[k].1,
            forall|r: Seq<char>| #[trigger]
                out.words().contains_key(r) <==> opts.kept(words).contains_key(r) && stands_before(
                    list,
                    i as int,
                    r,
                ),
            forall|r: Seq<char>| #[trigger]
                out.words().contains_key(r) ==> out.words()[r] == opts.kept(words)[r],
        decreases n - i,
    {
        let (reading, row) = entries.row(i);
        let ghost key = list[i as int].0;
        let fits: bool = match opts.max_reading_len {
            Some(max) => reading.unicode_len() <= max,
            None => true,
        };
        proof {
            assert(words[key] == list[i as int].1);
        }
        if fits {
            match opts.max_cost {
                Some(max) => {
                    let kept: Vec<DictEntry> = keep_cheap(row, max);
                    proof {
                        assert(text::views(kept@).len() == kept@.len());
                    }
                    if kept.len() > 0 {
                        out.insert(reading.to_string(), kept);
                    }
                },
                None => {
                    out.insert(reading.to_string(), clone_entries(row.as_slice()));
                },
            }
        }
        proof {
            assert forall|r: Seq<char>| #[trigger] stands_before(list, i + 1, r) <==> stands_before(
                list,
                i as int,
                r,
            ) || r == key by {
                if r == key {
                    assert(list[i as int].0 == r);
                }
            }
        }
        i = i + 1;
    }
    proof {
        assert forall|r: Seq<char>| #[trigger] words.contains_key(r) implies stands_before(
            list,
            n as int,
            r,
        ) by {
            let k = choose|k: int| trie_dict::listed_at(list, r, k);
            assert(list[k].0 == r);
        }
        assert(out.words() =~= opts.kept(words));
    }
    out
}

/// Whether an entry of this surface that costs no more is among the entries.
pub open spec fn has_as_cheap(entries: Seq<EntryView>, e: EntryView) -> bool {
    exists|i: int|
        0 <= i < entries.len() && (#[trigger] entries[i]).surface == e.surface && entries[i].cost
            <= e.cost
}

proof fn lemma_absorbed(slot: Seq<EntryView>, e: EntryView)
    ensures
        has_as_cheap(absorbed(slot, e), e),
        forall|x: EntryView| #[trigger]
            has_as_cheap(slot, x) ==> has_as_cheap(absorbed(slot, e), x),
        forall|i: int|
            0 <= i < absorbed(slot, e).len() ==> slot.contains(#[trigger] absorbed(slot, e)[i])
                || absorbed(slot, e)[i] == e,
{
    let after = absorbed(slot, e);
    let f = of_surface(e.surface);
    seqs::lemma_first_from(slot, f, 0);
    let p = seqs::first_place(slot, f);
    if p < slot.len() {
        assert(f(slot[p]));
        assert(after[p].surface == e.surface && after[p].cost <= e.cost);
    } else {
        assert(after[slot.len() as int] == e);
    }
    assert forall|x: EntryView| #[trigger] has_as_cheap(slot, x) implies has_as_cheap(after, x) by {
        let i = choose|i: int|
            0 <= i < slot.len() && (#[trigger] slot[i]).surface == x.surface && slot[i].cost
                <= x.cost;
        assert(after[i].surface == x.surface && after[i].cost <= x.cost);
    }
    assert forall|i: int| 0 <= i < after.len() implies slot.contains(#[trigger] after[i])
        || after[i] == e by {
        if i < slot.len() && after[i] != e {
            assert(slot[i] == after[i]);
        }
    }
}

proof fn lemma_all_absorbed(slot: Seq<EntryView>, others: Seq<EntryView>)
    ensures
        forall|x: EntryView| #[trigger]
            has_as_cheap(slot, x) ==> has_as_cheap(all_absorbed(slot, others), x),
        forall|i: int|
            0 <= i < others.len() ==> has_as_cheap(
                all_absorbed(slot, others),
                #[trigger] others[i],
            ),
        forall|i: int|
            0 <= i < all_absorbed(slot, others).len() ==> slot.contains(
                #[trigger] all_absorbed(slot, others)[i],
            ) || others.contains(all_absorbed(slot, others)[i]),
    decreases others.len(),
{
    if others.len() == 0 {
        assert forall|i: int| 0 <= i < slot.len() implies slot.contains(#[trigger] slot[i]) by {}
    } else {
        let front = others.drop_last();
        let before = all_absorbed(slot, front);
        let after = all_absorbed(slot, others);
        lemma_all_absorbed(slot, front);
        lemma_absorbed(before, others.last());
        assert forall|i: int| 0 <= i < others.len() implies has_as_cheap(
            after,
            #[trigger] others[i],
        ) by {
            if i < front.len() {
                assert(front[i] == others[i]);
                assert(has_as_cheap(before, front[i]));
            }
        }
        assert forall|i: int| 0 <= i < after.len() implies slot.contains(#[trigger] after[i])
            || others.contains(after[i]) by {
            if before.contains(after[i]) {
                let k = choose|k: int| 0 <= k < before.len() && before[k] == after[i];
                if front.contains(before[k]) {
                    let j = choose|j: int| 0 <= j < front.len() && front[j] == before[k];
                    assert(others[j] == after[i]);
                }
            } else {
                assert(others[others.len() - 1] == after[i]);
            }
        }
    }
}

/// Merging loses no word and invents none: each entry of either dictionary has one
/// of its surface that costs no more under the same reading in the merged words,
/// and each merged entry is one of the two dictionaries.
pub proof fn merging_keeps_every_word(
    a: Map<Seq<char>, Seq<EntryView>>,
    b: Map<Seq<char>, Seq<EntryView>>,
    reading: Seq<char>,
)
    ensures
        a.contains_key(reading) ==> forall|i: int|
            0 <= i < a[reading].len() ==> has_as_cheap(
                merged(a, b)[reading],
                #[trigger] a[reading][i],
            ),
        b.contains_key(reading) ==> forall|i: int|
            0 <= i < b[reading].len() ==> has_as_cheap(
                merged(a, b)[reading],
                #[trigger] b[reading][i],
            ),
        merged(a, b).contains_key(reading) ==> forall|i: int|
            0 <= i < merged(a, b)[reading].len() ==> table::entries_at(a, reading).contains(
                #[trigger] merged(a, b)[reading][i],
            ) || table::entries_at(b, reading).contains(merged(a, b)[reading][i]),
{
    let ea = table::entries_at(a, reading);
    let eb = table::entries_at(b, reading);
    lemma_all_absorbed(ea, eb);
    if a.contains_key(reading) {
        assert forall|i: int| 0 <= i < ea.len() implies has_as_cheap(
            merged(a, b)[reading],
            #[trigger] ea[i],
        ) by {
            assert(ea[i].surface == ea[i].surface && ea[i].cost <= ea[i].cost);
            assert(has_as_cheap(ea, ea[i]));
        }
    }
}

} // verus!
