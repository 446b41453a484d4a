//! Entries gathered by reading.

use vstd::hash_map::StringHashMap;
use vstd::prelude::*;

use crate::dict::{trie_dict, DictEntry, EntryView};
use crate::text;

verus! {

/// Readings, each with its entries, in the order in which they first came.
pub struct EntryTable {
    index: StringHashMap<usize>,
    rows: Vec<(String, Vec<DictEntry>)>,
}

/// The entries of each reading of a list, as they are listed.
pub open spec fn gathered(
    list: Seq<(Seq<char>, Seq<EntryView>)>,
) -> Map<Seq<char>, Seq<EntryView>> {
    Map::new(
        |reading: Seq<char>| exists|i: int| trie_dict::listed_at(list, reading, i),
        |reading: Seq<char>| list[choose|i: int| trie_dict::listed_at(list, reading, i)].1,
    )
}

/// No reading is listed twice.
pub open spec fn distinct_readings(list: Seq<(Seq<char>, Seq<EntryView>)>) -> bool {
    forall|i: int, j: int|
        0 <= i < j < list.len() ==> (#[trigger] list[i]).0 != (#[trigger] list[j]).0
}

/// The entries of a reading, none where it is not there.
pub open spec fn entries_at(
    words: Map<Seq<char>, Seq<EntryView>>,
    reading: Seq<char>,
) -> Seq<EntryView> {
    if words.contains_key(reading) {
        words[reading]
    } else {
        Seq::empty()
    }
}

/// Words with an entry more.
pub open spec fn with_entry(
    words: Map<Seq<char>, Seq<EntryView>>,
    reading: Seq<char>,
    entry: EntryView,
) -> Map<Seq<char>, Seq<EntryView>> {
    words.insert(reading, entries_at(words, reading).push(entry))
}

pub proof fn lemma_gathered(list: Seq<(Seq<char>, Seq<EntryView>)>)
    requires
        distinct_readings(list),
    ensures
        forall|i: int|
            0 <= i < list.len() ==> gathered(list).contains_key((#[trigger] list[i]).0)
                && gathered(list)[list[i].0] == list[i].1,
        forall|reading: Seq<char>| #[trigger]
            gathered(list).contains_key(reading) ==> exists|i: int|
                trie_dict::listed_at(list, reading, i),
{
    assert forall|i: int| 0 <= i < list.len() implies gathered(list).contains_key(
        (#[trigger] list[i]).0,
    ) && gathered(list)[list[i].0] == list[i].1 by {
        assert(trie_dict::listed_at(list, list[i].0, i));
        let k = choose|k: int| trie_dict::listed_at(list, list[i].0, k);
        assert(trie_dict::listed_at(list, list[i].0, k));
        assert(k == i) by {
            if k < i {
                assert(list[k].0 != list[i].0);
            }
            if i < k {
                assert(list[i].0 != list[k].0);
            }
        }
    }
}

impl EntryTable {
    /// What the rows list.
    pub closed spec fn list(&self) -> Seq<(Seq<char>, Seq<EntryView>)> {
        trie_dict::listed(self.rows@)
    }

    /// The entries of each reading.
    pub open spec fn words(&self) -> Map<Seq<char>, Seq<EntryView>> {
        gathered(self.list())
    }

    #[verifier::type_invariant]
    spec fn consistent(&self) -> bool {
        &&& distinct_readings(self.list())
        &&& forall|reading: Seq<char>| #[trigger]
            self.index@.contains_key(reading) <==> self.words().contains_key(reading)
        &&& forall|reading: Seq<char>| #[trigger]
            self.index@.contains_key(reading) ==> trie_dict::listed_at(
                self.list(),
                reading,
                self.index@[reading] as int,
            )
    }

    /// A table without entries.
    pub fn new() -> (r: Self)
        ensures
            r.words() == Map::<Seq<char>, Seq<EntryView>>::empty(),
            r.list().len() == 0,
    {
        let rows: Vec<(String, Vec<DictEntry>)> = Vec::new();
        let ghost list = trie_dict::listed(rows@);
        proof {
            assert(gathered(list) =~= Map::empty());
        }
        EntryTable { index: StringHashMap::new(), rows }
    }

    /// The entries of `reading`.
    pub fn get(&self, reading: &str) -> (r: Option<&Vec<DictEntry>>)
        ensures
            r is Some <==> self.words().contains_key(reading@),
            r is Some ==> text::views(r->0@) == self.words()[reading@],
    {
        proof {
            use_type_invariant(self);
            lemma_gathered(self.list());
        }
        match self.index.get(reading) {
            Some(i) => Some(&self.rows[*i].1),
            None => None,
        }
    }

    /// Whether there is such a reading.
    pub fn contains_key(&self, reading: &str) -> (r: bool)
        ensures
            r == self.words().contains_key(reading@),
    {
        proof {
            use_type_invariant(self);
        }
        self.index.contains_key(reading)
    }
}

impl EntryTable {
    /// Adds an entry behind those of its reading.
    pub fn add(&mut self, reading: String, entry: DictEntry)
        ensures
            final(self).words() == with_entry(old(self).words(), reading@, entry@),
    {
        proof {
            use_type_invariant(&*self);
            lemma_gathered(self.list());
        }
        let ghost list0 = self.list();
        let ghost index0 = self.index@;
        let mut taken = EntryTable::new();
        std::mem::swap(self, &mut taken);
        let EntryTable { index, rows } = taken;
        let mut index: StringHashMap<usize> = index;
        let mut rows: Vec<(String, Vec<DictEntry>)> = rows;
        let found: Option<usize> = match index.get(reading.as_str()) {
            Some(i) => Some(*i),
            None => None,
        };
        match found {
            Some(i) => {
                let ghost rows0 = rows@;
                rows[i].1.push(entry);
                let ghost list = trie_dict::listed(rows@);
                proof {
                    assert(text::views(rows@[i as int].1@) =~= text::views(
                        rows0[i as int].1@,
                    ).push(entry@));
                    assert(list =~= list0.update(
                        i as int,
                        (reading@, list0[i as int].1.push(entry@)),
                    ));
                    lemma_row_changed(list0, i as int, list[i as int].1);
                }
            },
            None => {
                let i: usize = rows.len();
                let mut entries: Vec<DictEntry> = Vec::new();
                let ghost e = entry@;
                entries.push(entry);
                index.insert(reading.clone(), i);
                rows.push((reading, entries));
                let ghost list = trie_dict::listed(rows@);
                proof {
                    assert(text::views(entries@) =~= Seq::empty().push(e));
                    assert(list =~= list0.push((reading@, Seq::empty().push(e))));
                    lemma_row_added(list0, reading@, Seq::empty().push(e));
                }
            },
        }
        *self = EntryTable { index, rows };
    }
}

/// A row with other entries changes the entries of its reading and nothing else.
proof fn lemma_row_changed(
    list: Seq<(Seq<char>, Seq<EntryView>)>,
    i: int,
    entries: Seq<EntryView>,
)
    requires
        distinct_readings(list),
        0 <= i < list.len(),
    ensures
        distinct_readings(list.update(i, (list[i].0, entries))),
        gathered(list.update(i, (list[i].0, entries))) == gathered(list).insert(list[i].0, entries),
{
    let other = list.update(i, (list[i].0, entries));
    assert forall|a: int, b: int| 0 <= a < b < other.len() implies (#[trigger] other[a]).0 != (
    #[trigger] other[b]).0 by {
        assert(list[a].0 != list[b].0);
    }
    lemma_gathered(list);
    lemma_gathered(other);
    let m = gathered(list).insert(list[i].0, entries);
    assert forall|r: Seq<char>| #[trigger] gathered(other).contains_key(r) <==> m.contains_key(
        r,
    ) by {
        if gathered(other).contains_key(r) {
            let k = choose|k: int| trie_dict::listed_at(other, r, k);
            assert(list[k].0 == r);
            assert(gathered(list).contains_key(list[k].0));
        }
        if m.contains_key(r) {
            if r == list[i].0 {
                assert(other[i].0 == r);
            } else {
                let k = choose|k: int| trie_dict::listed_at(list, r, k);
                assert(other[k].0 == r);
            }
        }
    }
    assert forall|r: Seq<char>| gathered(other).contains_key(r) implies #[trigger] gathered(
        other,
    )[r] == m[r] by {
        let k = choose|k: int| trie_dict::listed_at(other, r, k);
        assert(other[k].0 == r);
        assert(list[k].0 == r);
        if k != i {
            if k < i {
                assert(list[k].0 != list[i].0);
            } else {
                assert(list[i].0 != list[k].0);
            }
        }
    }
    assert(gathered(other) =~= m);
}

/// A row for a new reading adds that reading and changes nothing else.
proof fn lemma_row_added(
    list: Seq<(Seq<char>, Seq<EntryView>)>,
    reading: Seq<char>,
    entries: Seq<EntryView>,
)
    requires
        distinct_readings(list),
        !gathered(list).contains_key(reading),
    ensures
        distinct_readings(list.push((reading, entries))),
        gathered(list.push((reading, entries))) == gathered(list).insert(reading, entries),
{
    let other = list.push((reading, entries));
    lemma_gathered(list);
    assert forall|a: int, b: int| 0 <= a < b < other.len() implies (#[trigger] other[a]).0 != (
    #[trigger] other[b]).0 by {
        assert(list[a].0 == other[a].0);
        if b < list.len() {
            assert(list[a].0 != list[b].0);
        } else {
            assert(gathered(list).contains_key(list[a].0));
        }
    }
    lemma_gathered(other);
    let m = gathered(list).insert(reading, entries);
    assert forall|r: Seq<char>| #[trigger] gathered(other).contains_key(r) <==> m.contains_key(
        r,
    ) by {
        if gathered(other).contains_key(r) {
            let k = choose|k: int| trie_dict::listed_at(other, r, k);
            if k < list.len() {
                assert(list[k].0 == r);
                assert(gathered(list).contains_key(list[k].0));
            }
        }
        if m.contains_key(r) {
            if r == reading {
                assert(other[list.len() as int].0 == r);
            } else {
                let k = choose|k: int| trie_dict::listed_at(list, r, k);
                assert(other[k].0 == r);
            }
        }
    }
    assert forall|r: Seq<char>| gathered(other).contains_key(r) implies #[trigger] gathered(
        other,
    )[r] == m[r] by {
        let k = choose|k: int| trie_dict::listed_at(other, r, k);
        assert(other[k].0 == r);
        if k < list.len() {
            assert(list[k].0 == r);
            assert(gathered(list).contains_key(list[k].0));
        }
    }
    assert(gathered(other) =~= m);
}

/// As many readings are gathered as are listed.
proof fn lemma_gathered_len(list: Seq<(Seq<char>, Seq<EntryView>)>)
    requires
        distinct_readings(list),
    ensures
        gathered(list).dom().finite(),
        gathered(list).dom().len() == list.len(),
{
    let readings = Seq::new(list.len(), |i: int| list[i].0);
    lemma_gathered(list);
    assert(readings.no_duplicates()) by {
        assert forall|i: int, j: int|
            0 <= i < readings.len() && 0 <= j < readings.len() && i != j implies readings[i]
            != readings[j] by {
            if i < j {
                assert(list[i].0 != list[j].0);
            } else {
                assert(list[j].0 != list[i].0);
            }
        }
    }
    readings.unique_seq_to_set();
    assert(gathered(list).dom() =~= readings.to_set()) by {
        assert forall|r: Seq<char>| gathered(list).dom().contains(r) <==> readings.to_set().contains(
            r,
        ) by {
            if gathered(list).dom().contains(r) {
                assert(gathered(list).contains_key(r));
                let k = choose|k: int| trie_dict::listed_at(list, r, k);
                assert(readings[k] == r);
            }
            if readings.to_set().contains(r) {
                let k = choose|k: int| 0 <= k < readings.len() && readings[k] == r;
                assert(list[k].0 == r);
            }
        }
    }
}

impl EntryTable {
    /// The number of readings.
    pub fn len(&self) -> (r: usize)
        ensures
            r == self.list().len(),
            r == self.words().dom().len(),
            distinct_readings(self.list()),
    {
        proof {
            use_type_invariant(self);
            lemma_gathered_len(self.list());
        }
        self.rows.len()
    }

    /// The reading in row `i` and its entries.
    pub fn row(&self, i: usize) -> (r: (&str, &Vec<DictEntry>))
        requires
            i < self.list().len(),
        ensures
            r.0@ == self.list()[i as int].0,
            text::views(r.1@) == self.list()[i as int].1,
            distinct_readings(self.list()),
    {
        proof {
            use_type_invariant(self);
        }
        (self.rows[i].0.as_str(), &self.rows[i].1)
    }

    /// Gives the reading in row `i` other entries.
    pub fn set_row(&mut self, i: usize, entries: Vec<DictEntry>)
        requires
            i < old(self).list().len(),
        ensures
            final(self).list() == old(self).list().update(
                i as int,
                (old(self).list()[i as int].0, text::views(entries@)),
            ),
    {
        proof {
            use_type_invariant(&*self);
            lemma_gathered(self.list());
        }
        let ghost list0 = self.list();
        let mut taken = EntryTable::new();
        std::mem::swap(self, &mut taken);
        let EntryTable { index, rows } = taken;
        let mut rows: Vec<(String, Vec<DictEntry>)> = rows;
        let ghost e = text::views(entries@);
        rows[i].1 = entries;
        proof {
            assert(trie_dict::listed(rows@) =~= list0.update(i as int, (list0[i as int].0, e)));
            lemma_row_changed(list0, i as int, e);
        }
        *self = EntryTable { index, rows };
    }

    /// Gives a reading its entries, in place of those that it had.
    pub fn insert(&mut self, reading: String, entries: Vec<DictEntry>)
        ensures
            final(self).words() == old(self).words().insert(reading@, text::views(entries@)),
            !old(self).words().contains_key(reading@) ==> final(self).list() == old(
                self,
            ).list().push((reading@, text::views(entries@))),
    {
        proof {
            use_type_invariant(&*self);
            lemma_gathered(self.list());
        }
        let ghost list0 = self.list();
        let found: Option<usize> = match self.index.get(reading.as_str()) {
            Some(i) => Some(*i),
            None => None,
        };
        match found {
            Some(i) => {
                proof {
                    lemma_row_changed(list0, i as int, text::views(entries@));
                }
                self.set_row(i, entries);
            },
            None => {
                let mut taken = EntryTable::new();
                std::mem::swap(self, &mut taken);
                let EntryTable { index, rows } = taken;
                let mut index: StringHashMap<usize> = index;
                let mut rows: Vec<(String, Vec<DictEntry>)> = rows;
                let i: usize = rows.len();
                let ghost e = text::views(entries@);
                index.insert(reading.clone(), i);
                rows.push((reading, entries));
                proof {
                    assert(trie_dict::listed(rows@) =~= list0.push((reading@, e)));
                    lemma_row_added(list0, reading@, e);
                }
                *self = EntryTable { index, rows };
            },
        }
    }

    /// The rows.
    pub fn into_rows(self) -> (r: Vec<(String, Vec<DictEntry>)>)
        ensures
            trie_dict::listed(r@) == self.list(),
            distinct_readings(self.list()),
    {
        proof {
            use_type_invariant(&self);
        }
        self.rows
    }
}

/// The entries of each row.
pub open spec fn row_entries(list: Seq<(Seq<char>, Seq<EntryView>)>) -> Seq<Seq<EntryView>> {
    Seq::new(list.len(), |i: int| list[i].1)
}

impl EntryTable {
    /// The number of entries, as far as it can be told.
    pub fn entry_count(&self) -> (r: usize)
        ensures
            r == if trie_dict::entry_count(row_entries(self.list())) <= usize::MAX {
                trie_dict::entry_count(row_entries(self.list())) as int
            } else {
                usize::MAX as int
            },
    {
        let mut n: usize = 0;
        let mut i: usize = 0;
        let ghost all = row_entries(self.list());
        proof {
            assert(all.take(0) =~= Seq::empty());
        }
        while i < self.rows.len()
            invariant
                i <= self.rows@.len(),
                self.rows@.len() == all.len(),
                all == row_entries(self.list()),
                n == if trie_dict::entry_count(all.take(i as int)) <= usize::MAX {
                    trie_dict::entry_count(all.take(i as int)) as int
                } else {
                    usize::MAX as int
                },
            decreases self.rows.len() - i,
        {
            proof {
                assert(all.take(i + 1).drop_last() =~= all.take(i as int));
                assert(all.take(i + 1).last() == all[i as int]);
                assert(all[i as int].len() == self.rows@[i as int].1@.len());
            }
            n = n.saturating_add(self.rows[i].1.len());
            i = i + 1;
        }
        proof {
            assert(all.take(i as int) =~= all);
        }
        n
    }
}

} // verus!
