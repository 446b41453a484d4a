//! A dictionary of readings, as a trie of their bytes.

use vstd::bytes::{u32_from_le_bytes, u32_to_le_bytes};
use vstd::hash_set::StringHashSet;
use vstd::prelude::*;
use vstd::slice::{slice_subrange, slice_to_vec};
use vstd::utf8;

use super::trie::{
    self, trie_build, trie_complete, trie_find, trie_from_bytes, trie_prefixes, trie_to_bytes,
    ByteTrie, TrieFault,
};
use super::values::{self, decode_values, encode_values, Row};
use crate::dict::{self, DictEntry, DictError, Dictionary, EntryView, SearchResult};
use crate::bytes::{self, reversed, sort_by_bytes, ByteKeyed};
use crate::encoding::{self, text_from_utf8};
use crate::ordering::{self, stable_sort, Ranked, RankedItem};
use crate::text;

verus! {

/// An immutable dictionary: a trie of readings, and the entries of each.
pub struct TrieDictionary {
    trie: ByteTrie,
    values: Vec<Vec<DictEntry>>,
}

impl Ranked for DictEntry {
    open spec fn rank(&self) -> int {
        self.cost as int
    }
}

impl RankedItem for DictEntry {
    fn rank_of(&self) -> (r: i64) {
        self.cost as i64
    }
}

impl Ranked for EntryView {
    open spec fn rank(&self) -> int {
        self.cost as int
    }
}

impl ByteKeyed for (String, Vec<DictEntry>) {
    open spec fn key(&self) -> Seq<u8> {
        utf8::encode_utf8(self.0@)
    }

    fn comes_before(&self, other: &Self) -> (r: bool) {
        bytes::bytes_before(self.0.as_str().as_bytes(), other.0.as_str().as_bytes())
    }
}

/// Readings with their entries, as they are listed.
pub open spec fn listed(
    pairs: Seq<(String, Vec<DictEntry>)>,
) -> Seq<(Seq<char>, Seq<EntryView>)> {
    Seq::new(pairs.len(), |i: int| (pairs[i].0@, text::views(pairs[i].1@)))
}

/// The bytes of the readings.
pub open spec fn reading_keys(list: Seq<(Seq<char>, Seq<EntryView>)>) -> Seq<Seq<u8>> {
    Seq::new(list.len(), |i: int| utf8::encode_utf8(list[i].0))
}

/// No reading is listed twice, and the readings fit in a trie.
pub open spec fn admissible(list: Seq<(Seq<char>, Seq<EntryView>)>) -> bool {
    &&& forall|i: int, j: int|
        0 <= i < j < list.len() ==> (#[trigger] list[i]).0 != (#[trigger] list[j]).0
    &&& list.len() <= trie::MAX_KEYS
    &&& trie::weight(reading_keys(list)) <= trie::MAX_WEIGHT
}

/// Whether `reading` is listed at place `i`.
pub open spec fn listed_at(
    list: Seq<(Seq<char>, Seq<EntryView>)>,
    reading: Seq<char>,
    i: int,
) -> bool {
    0 <= i < list.len() && list[i].0 == reading
}

/// The entries of each reading of a list, cheapest first.
pub open spec fn word_map(
    list: Seq<(Seq<char>, Seq<EntryView>)>,
) -> Map<Seq<char>, Seq<EntryView>> {
    Map::new(
        |reading: Seq<char>| exists|i: int| listed_at(list, reading, i),
        |reading: Seq<char>|
            ordering::ranked_order(list[choose|i: int| listed_at(list, reading, i)].1),
    )
}

/// The weight of keys does not depend on their order.
proof fn lemma_weight_permutes(a: Seq<Seq<u8>>, b: Seq<Seq<u8>>)
    requires
        a.to_multiset() == b.to_multiset(),
    ensures
        trie::weight(a) == trie::weight(b),
    decreases a.len(),
{
    broadcast use vstd::seq_lib::group_to_multiset_ensures;

    assert(a.to_multiset().len() == a.len() && b.to_multiset().len() == b.len());
    if a.len() > 0 {
        let x = a.last();
        assert(a.to_multiset().count(x) > 0) by {
            assert(a.contains(x));
        }
        assert(b.contains(x));
        let i = choose|i: int| 0 <= i < b.len() && b[i] == x;
        let b1 = b.remove(i);
        assert(a.drop_last() =~= a.remove(a.len() - 1));
        assert(a.drop_last().to_multiset() =~= b1.to_multiset());
        lemma_weight_permutes(a.drop_last(), b1);
        lemma_weight_remove(b, i);
    }
}

proof fn lemma_weight_remove(b: Seq<Seq<u8>>, i: int)
    requires
        0 <= i < b.len(),
    ensures
        trie::weight(b) == trie::weight(b.remove(i)) + b[i].len() + 1,
    decreases b.len(),
{
    if i == b.len() - 1 {
        assert(b.remove(i) =~= b.drop_last());
    } else {
        lemma_weight_remove(b.drop_last(), i);
        assert(b.remove(i).drop_last() =~= b.drop_last().remove(i));
        assert(b.remove(i).last() == b.last());
    }
}

/// The multiset of images of a permuted sequence.
proof fn lemma_keys_permute(
    a: Seq<(String, Vec<DictEntry>)>,
    b: Seq<(String, Vec<DictEntry>)>,
)
    requires
        a.to_multiset() == b.to_multiset(),
    ensures
        reading_keys(listed(a)).to_multiset() == reading_keys(listed(b)).to_multiset(),
    decreases a.len(),
{
    broadcast use vstd::seq_lib::group_to_multiset_ensures;

    assert(a.to_multiset().len() == a.len() && b.to_multiset().len() == b.len());
    let ka = reading_keys(listed(a));
    let kb = reading_keys(listed(b));
    if a.len() > 0 {
        let x = a.last();
        assert(a.to_multiset().count(x) > 0) by {
            assert(a.contains(x));
        }
        assert(b.contains(x));
        let i = choose|i: int| 0 <= i < b.len() && b[i] == x;
        let b1 = b.remove(i);
        assert(a.drop_last() =~= a.remove(a.len() - 1));
        assert(a.drop_last().to_multiset() =~= b1.to_multiset());
        lemma_keys_permute(a.drop_last(), b1);
        assert(reading_keys(listed(a.drop_last())) =~= ka.remove(ka.len() - 1));
        assert(reading_keys(listed(b1)) =~= kb.remove(i));
        assert(ka.last() == kb[i]);
        let k = ka.last();
        assert(ka.contains(k) && kb.contains(k));
        assert(ka.remove(ka.len() - 1).to_multiset() == ka.to_multiset().remove(k));
        assert(kb.remove(i).to_multiset() == kb.to_multiset().remove(k));
        assert(ka.to_multiset() =~= ka.to_multiset().remove(k).insert(k));
        assert(kb.to_multiset() =~= kb.to_multiset().remove(k).insert(k));
    } else {
        assert(ka =~= kb);
    }
}

/// What a sorted list of readings has, when the list was admissible.
proof fn lemma_sorted(
    pairs: Seq<(String, Vec<DictEntry>)>,
    sorted: Seq<(String, Vec<DictEntry>)>,
)
    requires
        admissible(listed(pairs)),
        sorted.to_multiset() == pairs.to_multiset(),
        bytes::in_order(sorted),
    ensures
        trie::buildable(reading_keys(listed(sorted))),
        word_map(listed(sorted)) == word_map(listed(pairs)),
        forall|i: int, j: int|
            0 <= i < j < sorted.len() ==> (#[trigger] sorted[i]).0@ != (#[trigger] sorted[j]).0@,
{
    broadcast use vstd::seq_lib::group_to_multiset_ensures;

    let lp = listed(pairs);
    let ls = listed(sorted);
    lemma_keys_permute(sorted, pairs);
    lemma_weight_permutes(reading_keys(ls), reading_keys(lp));
    assert(sorted.to_multiset().len() == sorted.len() && pairs.to_multiset().len() == pairs.len());
    assert(pairs.no_duplicates()) by {
        assert forall|i: int, j: int|
            0 <= i < pairs.len() && 0 <= j < pairs.len() && i != j implies pairs[i] != pairs[j] by {
            if i < j {
                assert(lp[i].0 != lp[j].0);
            } else {
                assert(lp[j].0 != lp[i].0);
            }
        }
    }
    pairs.lemma_multiset_has_no_duplicates();
    sorted.lemma_multiset_has_no_duplicates_conv();
    assert forall|i: int, j: int| 0 <= i < j < sorted.len() implies (#[trigger] sorted[i]).0@ != (
    #[trigger] sorted[j]).0@ by {
        assert(sorted.contains(sorted[i]) && sorted.contains(sorted[j]));
        assert(sorted.to_multiset().count(sorted[i]) > 0);
        assert(sorted.to_multiset().count(sorted[j]) > 0);
        assert(pairs.contains(sorted[i]) && pairs.contains(sorted[j]));
        let p = choose|p: int| 0 <= p < pairs.len() && pairs[p] == sorted[i];
        let q = choose|q: int| 0 <= q < pairs.len() && pairs[q] == sorted[j];
        if sorted[i].0@ == sorted[j].0@ {
            assert(lp[p].0 == lp[q].0);
            assert(p == q);
        }
    }
    assert(trie::buildable(reading_keys(ls))) by {
        let keys = reading_keys(ls);
        assert forall|i: int, j: int| 0 <= i < j < keys.len() implies bytes::bytes_less(
            #[trigger] keys[i],
            #[trigger] keys[j],
        ) by {
            assert(!bytes::bytes_less(sorted[j].key(), sorted[i].key()));
            bytes::bytes_less_is_total(keys[i], keys[j]);
            if keys[i] == keys[j] {
                encoding::lemma_encode_injective(sorted[i].0@, sorted[j].0@);
            }
        }
    }
    assert(word_map(ls) =~= word_map(lp)) by {
        assert forall|r: Seq<char>|
            word_map(ls).contains_key(r) == #[trigger] word_map(lp).contains_key(r) by {
            if exists|i: int| listed_at(ls, r, i) {
                let i = choose|i: int| listed_at(ls, r, i);
                assert(sorted.contains(sorted[i]));
                assert(sorted.to_multiset().count(sorted[i]) > 0);
                assert(pairs.contains(sorted[i]));
                let p = choose|p: int| 0 <= p < pairs.len() && pairs[p] == sorted[i];
                assert(listed_at(lp, r, p));
            }
            if exists|i: int| listed_at(lp, r, i) {
                let i = choose|i: int| listed_at(lp, r, i);
                assert(pairs.contains(pairs[i]));
                assert(pairs.to_multiset().count(pairs[i]) > 0);
                assert(sorted.contains(pairs[i]));
                let p = choose|p: int| 0 <= p < sorted.len() && sorted[p] == pairs[i];
                assert(listed_at(ls, r, p));
            }
        }
        assert forall|r: Seq<char>| #[trigger] word_map(ls).contains_key(r) implies word_map(ls)[r]
            == word_map(lp)[r] by {
            let i = choose|i: int| listed_at(ls, r, i);
            assert(word_map(lp).contains_key(r));
            let p = choose|p: int| listed_at(lp, r, p);
            assert(sorted.contains(sorted[i]));
            assert(sorted.to_multiset().count(sorted[i]) > 0);
            assert(pairs.contains(sorted[i]));
            let q = choose|q: int| 0 <= q < pairs.len() && pairs[q] == sorted[i];
            assert(lp[q].0 == lp[p].0);
            assert(p == q);
        }
    }
}

impl TrieDictionary {
    /// The bytes of the readings, in ascending order.
    pub closed spec fn keys(&self) -> Seq<Seq<u8>> {
        trie::trie_keys(self.trie)
    }

    /// The entries of the readings, in the order of `keys`.
    pub closed spec fn lists(&self) -> Seq<Seq<EntryView>> {
        Seq::new(self.values@.len(), |i: int| text::views(self.values@[i]@))
    }

    /// Whether the trie is one that was built of `keys`.
    pub closed spec fn sound(&self) -> bool {
        trie::trie_sound(self.trie)
    }

    /// The dictionary of a list of readings in the order of `keys`.
    proof fn lemma_words(&self, list: Seq<(Seq<char>, Seq<EntryView>)>)
        requires
            self.sound(),
            self.keys() == reading_keys(list),
            trie::buildable(self.keys()),
            self.lists().len() == list.len(),
            forall|i: int|
                0 <= i < list.len() ==> #[trigger] self.lists()[i] == ordering::ranked_order(
                    list[i].1,
                ),
            forall|i: int, j: int|
                0 <= i < j < list.len() ==> (#[trigger] list[i]).0 != (#[trigger] list[j]).0,
        ensures
            self.valid(),
            self.words() == word_map(list),
    {
        assert forall|i: int| 0 <= i < self.keys().len() implies utf8::valid_utf8(
            #[trigger] self.keys()[i],
        ) by {
            utf8::encode_utf8_valid_utf8(list[i].0);
        }
        assert forall|r: Seq<char>| self.words().contains_key(r) == #[trigger] word_map(
            list,
        ).contains_key(r) by {
            if exists|i: int| listed_at(list, r, i) {
                let i = choose|i: int| listed_at(list, r, i);
                assert(self.keys()[i] == utf8::encode_utf8(r));
            }
            if self.keys().contains(utf8::encode_utf8(r)) {
                let i = self.keys().index_of(utf8::encode_utf8(r));
                encoding::lemma_encode_injective(list[i].0, r);
                assert(listed_at(list, r, i));
            }
        }
        assert forall|r: Seq<char>| #[trigger] self.words().contains_key(r) implies self.words()[r]
            == word_map(list)[r] by {
            assert(word_map(list).contains_key(r));
            let i = choose|i: int| listed_at(list, r, i);
            let j = self.keys().index_of(utf8::encode_utf8(r));
            encoding::lemma_encode_injective(list[j].0, r);
            assert(list[i].0 == list[j].0);
            assert(i == j);
        }
        assert(self.words() =~= word_map(list));
    }

    /// The entries of the reading whose bytes stand at a place among the keys.
    proof fn lemma_place(&self, reading: Seq<char>, id: int)
        requires
            self.valid(),
            0 <= id < self.keys().len(),
            self.keys()[id] == utf8::encode_utf8(reading),
        ensures
            self.words().contains_key(reading),
            self.words()[reading] == self.lists()[id],
            self.lists()[id] == text::views(self.values@[id]@),
    {
        let k = utf8::encode_utf8(reading);
        assert(self.keys().contains(k));
        let j = self.keys().index_of(k);
        if j < id {
            assert(bytes::bytes_less(self.keys()[j], self.keys()[id]));
            bytes::bytes_less_is_total(k, k);
        } else if id < j {
            assert(bytes::bytes_less(self.keys()[id], self.keys()[j]));
            bytes::bytes_less_is_total(k, k);
        }
    }

    /// A walk lists the readings that start with a prefix.
    proof fn lemma_completions(&self, prefix: Seq<char>)
        requires
            self.valid(),
            trie::visits_all(
                self.keys(),
                utf8::encode_utf8(prefix),
                trie::trie_walk(self.keys(), utf8::encode_utf8(prefix)),
            ),
        ensures
            dict::completes(self.words(), prefix, self.completions(prefix)),
    {
        let p = utf8::encode_utf8(prefix);
        let walk = trie::trie_walk(self.keys(), p);
        let list = self.completions(prefix);
        assert forall|i: int| 0 <= i < list.len() implies self.words().contains_key(
            #[trigger] list[i],
        ) && prefix.is_prefix_of(list[i]) by {
            let k = self.keys()[walk[i] as int];
            utf8::decode_utf8_encode_utf8(k);
            self.lemma_place(list[i], walk[i] as int);
            encoding::lemma_encode_prefix(prefix, list[i]);
        }
        assert forall|i: int, j: int|
            0 <= i < list.len() && 0 <= j < list.len() && i != j implies list[i] != list[j] by {
            let a = walk[i] as int;
            let b = walk[j] as int;
            assert(a != b);
            utf8::decode_utf8_encode_utf8(self.keys()[a]);
            utf8::decode_utf8_encode_utf8(self.keys()[b]);
            if a < b {
                assert(bytes::bytes_less(self.keys()[a], self.keys()[b]));
            } else {
                assert(bytes::bytes_less(self.keys()[b], self.keys()[a]));
            }
            bytes::bytes_less_is_total(self.keys()[a], self.keys()[b]);
        }
        assert forall|r: Seq<char>| #[trigger]
            self.words().contains_key(r) && prefix.is_prefix_of(r) implies list.contains(r) by {
            let k = self.keys().index_of(utf8::encode_utf8(r));
            encoding::lemma_encode_take(r, prefix.len() as int, r.len() as int);
            assert(r.take(prefix.len() as int) =~= prefix);
            assert(r.take(r.len() as int) =~= r);
            assert(walk.contains(k as u32));
            let i = walk.index_of(k as u32);
            utf8::encode_utf8_decode_utf8(r);
            assert(list[i] == r);
        }
    }

    /// A prefix of the query that is a reading was found, unless it is among the
    /// first `i` that were found.
    proof fn lemma_no_gap(&self, q: Seq<char>, found: Seq<(usize, u32)>, i: int, k: nat, m: int)
        requires
            self.valid(),
            trie::prefixes_found(self.keys(), utf8::encode_utf8(q), found),
            0 <= i <= found.len(),
            i == 0 ==> k == 0,
            i > 0 ==> k > 0 && found[i - 1].0 == utf8::encode_utf8(q.take(k - 1)).len(),
            k <= m <= q.len(),
            forall|j: int|
                i <= j < found.len() ==> (#[trigger] found[j]).0 > utf8::encode_utf8(
                    q.take(m),
                ).len(),
        ensures
            !self.words().contains_key(q.take(m)),
    {
        let qb = utf8::encode_utf8(q);
        let h = utf8::encode_utf8(q.take(m));
        encoding::lemma_encode_take(q, m, q.len() as int);
        assert(q.take(q.len() as int) =~= q);
        assert(qb.take(h.len() as int) =~= h) by {
            assert(qb.subrange(0, h.len() as int) == h);
        }
        if self.words().contains_key(q.take(m)) {
            assert(self.keys().contains(qb.take(h.len() as int)));
            let j = choose|j: int| 0 <= j < found.len() && (#[trigger] found[j]).0 == h.len();
            assert(j < i);
            encoding::lemma_encode_take(q, k - 1, m);
            if j < i - 1 {
                assert(found[j].0 < found[i - 1].0);
            }
        }
    }

    /// Between two prefixes that were found one after the other lies none.
    proof fn lemma_gap(&self, q: Seq<char>, found: Seq<(usize, u32)>, i: int, k: nat, n: nat)
        requires
            self.valid(),
            trie::prefixes_found(self.keys(), utf8::encode_utf8(q), found),
            0 <= i < found.len(),
            k <= q.len() + 1,
            i == 0 ==> k == 0,
            i > 0 ==> k > 0 && found[i - 1].0 == utf8::encode_utf8(q.take(k - 1)).len(),
            n <= q.len(),
            found[i].0 == utf8::encode_utf8(q.take(n as int)).len(),
        ensures
            k <= n,
            forall|m: int| k <= m < n ==> !self.words().contains_key(#[trigger] q.take(m)),
    {
        if i > 0 {
            assert(found[i - 1].0 < found[i].0);
            if n < k {
                encoding::lemma_encode_take(q, n as int, k - 1);
            }
        }
        assert forall|m: int| k <= m < n implies !self.words().contains_key(
            #[trigger] q.take(m),
        ) by {
            encoding::lemma_encode_take(q, m, n as int);
            assert forall|j: int| i <= j < found.len() implies (#[trigger] found[j]).0
                > utf8::encode_utf8(q.take(m)).len() by {
                if i < j {
                    assert(found[i].0 < found[j].0);
                }
            }
            self.lemma_no_gap(q, found, i, k, m);
        }
    }

    /// A dictionary of the readings of a list.
    pub fn from_entries(entries: Vec<(String, Vec<DictEntry>)>) -> (r: Self)
        requires
            admissible(listed(entries@)),
        ensures
            r.valid(),
            r.words() == word_map(listed(entries@)),
    {
        let mut pairs = sort_by_bytes(entries);
        let ghost sorted = pairs@;
        proof {
            lemma_sorted(entries@, sorted);
        }
        let mut keys: Vec<Vec<u8>> = Vec::new();
        let mut values: Vec<Vec<DictEntry>> = Vec::new();
        let ghost n = sorted.len();
        proof {
            assert(sorted.take(n as int) =~= sorted);
        }
        while pairs.len() > 0
            invariant
                n == sorted.len(),
                pairs@.len() <= n,
                pairs@ == sorted.take(pairs@.len() as int),
                keys@.len() == n - pairs@.len(),
                values@.len() == n - pairs@.len(),
                forall|j: int|
                    0 <= j < keys@.len() ==> (#[trigger] keys@[j])@ == utf8::encode_utf8(
                        sorted[n - 1 - j].0@,
                    ),
                forall|j: int|
                    0 <= j < values@.len() ==> text::views((#[trigger] values@[j])@)
                        == ordering::ranked_order(text::views(sorted[n - 1 - j].1@)),
            decreases pairs@.len(),
        {
            if let Some((reading, list)) = pairs.pop() {
                let mut list = list;
                proof {
                    assert(pairs@ =~= sorted.take(pairs@.len() as int));
                    ordering::lemma_ranked_order_views(list@);
                }
                keys.push(slice_to_vec(reading.as_str().as_bytes()));
                stable_sort(&mut list);
                values.push(list);
            }
        }
        let keys = reversed(keys);
        let values = reversed(values);
        proof {
            assert(trie::byte_views(keys@) =~= reading_keys(listed(sorted)));
        }
        let trie = trie_build(&keys);
        let r = TrieDictionary { trie, values };
        proof {
            r.lemma_words(listed(sorted));
        }
        r
    }
}

/// The first bytes of a dictionary file.
pub const MAGIC: [u8; 4] = [0x4C, 0x58, 0x44, 0x58];

/// The version of the format.
pub const VERSION: u8 = 2;

/// Magic number, version and the lengths of the two parts.
pub const HEADER_SIZE: usize = 13;

/// An entry as a row.
pub open spec fn row_of(e: EntryView) -> values::RowView {
    (e.surface, e.cost, e.left_id, e.right_id)
}

pub open spec fn rows_of(lists: Seq<Seq<EntryView>>) -> Seq<Seq<values::RowView>> {
    Seq::new(lists.len(), |i: int| Seq::new(lists[i].len(), |j: int| row_of(lists[i][j])))
}

/// A row as an entry.
pub open spec fn entry_of(r: values::RowView) -> EntryView {
    EntryView { surface: r.0, cost: r.1, left_id: r.2, right_id: r.3 }
}

pub open spec fn entries_of(table: Seq<Seq<values::RowView>>) -> Seq<Seq<EntryView>> {
    Seq::new(table.len(), |i: int| Seq::new(table[i].len(), |j: int| entry_of(table[i][j])))
}

/// The header of a file with parts of the given lengths; a length has 32 bits.
pub open spec fn header(trie_len: nat, values_len: nat) -> Seq<u8> {
    MAGIC@ + seq![VERSION] + vstd::bytes::spec_u32_to_le_bytes(trie_len as u32)
        + vstd::bytes::spec_u32_to_le_bytes(values_len as u32)
}

/// A header, a trie and encoded rows.
pub open spec fn file(trie_part: Seq<u8>, values_part: Seq<u8>) -> Seq<u8> {
    header(trie_part.len(), values_part.len()) + trie_part + values_part
}

/// The file of a dictionary.
pub open spec fn image(keys: Seq<Seq<u8>>, lists: Seq<Seq<EntryView>>) -> Seq<u8> {
    file(trie::trie_image(keys), values::values_image(rows_of(lists)))
}

/// The length of the trie that a header states.
pub open spec fn trie_len(data: Seq<u8>) -> int {
    vstd::bytes::spec_u32_from_le_bytes(data.subrange(5, 9)) as int
}

/// The length of the rows that a header states.
pub open spec fn values_len(data: Seq<u8>) -> int {
    vstd::bytes::spec_u32_from_le_bytes(data.subrange(9, 13)) as int
}

/// The trie in a file.
pub open spec fn trie_part(data: Seq<u8>) -> Seq<u8> {
    data.subrange(13, 13 + trie_len(data))
}

/// The rows in a file.
pub open spec fn values_part(data: Seq<u8>) -> Seq<u8> {
    data.subrange(13 + trie_len(data), 13 + trie_len(data) + values_len(data))
}

/// What is wrong with the header of a file, if anything is.
pub open spec fn header_fault(data: Seq<u8>) -> Option<DictError> {
    if data.len() < 5 {
        Some(DictError::InvalidHeader)
    } else if data.take(4) != MAGIC@ {
        Some(DictError::InvalidMagic)
    } else if data[4] != VERSION {
        Some(DictError::UnsupportedVersion(data[4]))
    } else if data.len() < HEADER_SIZE {
        Some(DictError::InvalidHeader)
    } else if data.len() < 13 + trie_len(data) + values_len(data) {
        Some(DictError::InvalidHeader)
    } else {
        None
    }
}

/// How a fault of the trie in a file is reported.
pub open spec fn fault_error(fault: TrieFault) -> DictError {
    match fault {
        TrieFault::InvalidMagic => DictError::InvalidMagic,
        TrieFault::InvalidVersion(_) => DictError::UnsupportedVersion(0),
        _ => DictError::InvalidHeader,
    }
}

/// The two parts of a file are where its header says, as long as their lengths
/// have 32 bits.
pub proof fn file_has_its_parts(trie: Seq<u8>, rows: Seq<u8>)
    requires
        trie.len() <= u32::MAX,
        rows.len() <= u32::MAX,
    ensures
        header_fault(file(trie, rows)) is None,
        trie_part(file(trie, rows)) == trie,
        values_part(file(trie, rows)) == rows,
{
    vstd::bytes::lemma_auto_spec_u32_to_from_le_bytes();
    let data = file(trie, rows);
    let a = vstd::bytes::spec_u32_to_le_bytes(trie.len() as u32);
    let b = vstd::bytes::spec_u32_to_le_bytes(rows.len() as u32);
    assert(data.take(4) =~= MAGIC@);
    assert(data.subrange(5, 9) =~= a);
    assert(data.subrange(9, 13) =~= b);
    assert(trie_part(data) =~= trie);
    assert(values_part(data) =~= rows);
}

/// Encoding entries as rows loses nothing.
pub proof fn rows_give_entries_back(lists: Seq<Seq<EntryView>>)
    ensures
        entries_of(rows_of(lists)) == lists,
{
    assert forall|i: int| 0 <= i < lists.len() implies #[trigger] entries_of(rows_of(lists))[i]
        == lists[i] by {
        assert(entries_of(rows_of(lists))[i] =~= lists[i]);
    }
    assert(entries_of(rows_of(lists)) =~= lists);
}

fn rows_from(values: &Vec<Vec<DictEntry>>) -> (r: Vec<Vec<Row>>)
    ensures
        values::table_view(r@) == rows_of(
            Seq::new(values@.len(), |i: int| text::views(values@[i]@)),
        ),
{
    let ghost lists = Seq::new(values@.len(), |i: int| text::views(values@[i]@));
    let mut r: Vec<Vec<Row>> = Vec::new();
    let mut i: usize = 0;
    while i < values.len()
        invariant
            i <= values@.len(),
            r@.len() == i,
            lists == Seq::new(values@.len(), |i: int| text::views(values@[i]@)),
            forall|k: int| 0 <= k < i ==> values::row_views((#[trigger] r@[k])@) == rows_of(lists)[k],
        decreases values@.len() - i,
    {
        let list = &values[i];
        let mut rows: Vec<Row> = Vec::new();
        let mut j: usize = 0;
        while j < list.len()
            invariant
                j <= list@.len(),
                rows@.len() == j,
                forall|m: int|
                    0 <= m < j ==> values::row_view(#[trigger] rows@[m]) == row_of(list@[m]@),
            decreases list@.len() - j,
        {
            let e = &list[j];
            rows.push((e.surface.clone(), e.cost, e.left_id, e.right_id));
            j = j + 1;
        }
        proof {
            assert(values::row_views(rows@) =~= rows_of(lists)[i as int]);
        }
        r.push(rows);
        i = i + 1;
    }
    proof {
        assert(values::table_view(r@) =~= rows_of(lists));
    }
    r
}

fn entries_from(table: Vec<Vec<Row>>) -> (r: Vec<Vec<DictEntry>>)
    ensures
        Seq::new(r@.len(), |i: int| text::views(r@[i]@)) == entries_of(
            values::table_view(table@),
        ),
{
    let ghost want = entries_of(values::table_view(table@));
    let mut r: Vec<Vec<DictEntry>> = Vec::new();
    let mut i: usize = 0;
    while i < table.len()
        invariant
            i <= table@.len(),
            r@.len() == i,
            want == entries_of(values::table_view(table@)),
            forall|k: int| 0 <= k < i ==> text::views((#[trigger] r@[k])@) == want[k],
        decreases table@.len() - i,
    {
        let rows = &table[i];
        let mut list: Vec<DictEntry> = Vec::new();
        let mut j: usize = 0;
        while j < rows.len()
            invariant
                j <= rows@.len(),
                list@.len() == j,
                forall|m: int|
                    0 <= m < j ==> (#[trigger] list@[m])@ == entry_of(values::row_view(rows@[m])),
            decreases rows@.len() - j,
        {
            let row = &rows[j];
            list.push(
                DictEntry { surface: row.0.clone(), cost: row.1, left_id: row.2, right_id: row.3 },
            );
            j = j + 1;
        }
        proof {
            assert(text::views(list@) =~= want[i as int]);
        }
        r.push(list);
        i = i + 1;
    }
    proof {
        assert(Seq::new(r@.len(), |i: int| text::views(r@[i]@)) =~= want);
    }
    r
}

fn magic_at(data: &[u8], magic: &[u8; 4]) -> (r: bool)
    requires
        data@.len() >= 4,
    ensures
        r == (data@.take(4) == magic@),
{
    let r = data[0] == magic[0] && data[1] == magic[1] && data[2] == magic[2] && data[3]
        == magic[3];
    proof {
        if r {
            assert(data@.take(4) =~= magic@);
        } else {
            assert(data@.take(4)[0] == data@[0] && data@.take(4)[1] == data@[1] && data@.take(4)[2]
                == data@[2] && data@.take(4)[3] == data@[3]);
        }
    }
    r
}

impl TrieDictionary {
    /// Writes the dictionary out.
    pub fn to_bytes(&self) -> (r: Result<Vec<u8>, DictError>)
        ensures
            r is Ok,
            self.sound() ==> r->Ok_0@ == image(self.keys(), self.lists()),
    {
        let trie_data = trie_to_bytes(&self.trie);
        let rows = rows_from(&self.values);
        let values_data = match encode_values(&rows) {
            Ok(v) => v,
            Err(e) => {
                return Err(DictError::Serialize(e));
            },
        };
        let mut buf: Vec<u8> = Vec::new();
        buf.extend_from_slice(&MAGIC);
        buf.push(VERSION);
        let trie_size: u32 = trie_data.len() as u32;
        let values_size: u32 = values_data.len() as u32;
        buf.extend_from_slice(u32_to_le_bytes(trie_size).as_slice());
        buf.extend_from_slice(u32_to_le_bytes(values_size).as_slice());
        buf.extend_from_slice(trie_data.as_slice());
        buf.extend_from_slice(values_data.as_slice());
        proof {
            assert(buf@ =~= file(trie_data@, values_data@));
            assert(rows_of(self.lists()) == values::table_view(rows@));
        }
        Ok(buf)
    }

    /// Reads a dictionary. What was written out is read back as it was, as long
    /// as the lengths of its parts have 32 bits.
    pub fn from_bytes(data: &[u8]) -> (r: Result<Self, DictError>)
        ensures
            header_fault(data@) is Some ==> r is Err && r->Err_0 == header_fault(data@)->0,
            header_fault(data@) is None && trie::trie_fault(trie_part(data@)) is Some ==> r is Err
                && r->Err_0 == fault_error(trie::trie_fault(trie_part(data@))->0),
            header_fault(data@) is None && trie::trie_fault(trie_part(data@)) is None
                && values::values_of(values_part(data@)) is None ==> r is Err && r->Err_0
                is Deserialize,
            header_fault(data@) is None && trie::trie_fault(trie_part(data@)) is None
                && values::values_of(values_part(data@)) is Some ==> r is Ok && r->Ok_0.lists()
                == entries_of(values::values_of(values_part(data@))->0),
            forall|keys: Seq<Seq<u8>>, lists: Seq<Seq<EntryView>>|
                trie::buildable(keys) && data@ == #[trigger] image(keys, lists)
                    && trie::trie_image(keys).len() <= u32::MAX && values::values_image(
                    rows_of(lists),
                ).len() <= u32::MAX ==> r is Ok && r->Ok_0.sound() && r->Ok_0.keys() == keys
                    && r->Ok_0.lists() == lists,
            forall|d: TrieDictionary|
                d.valid() && data@ == #[trigger] image(d.keys(), d.lists()) && trie::trie_image(
                    d.keys(),
                ).len() <= u32::MAX && values::values_image(rows_of(d.lists())).len() <= u32::MAX
                    ==> r is Ok && r->Ok_0.valid() && r->Ok_0.words() == d.words() && forall|
                    prefix: Seq<char>,
                | #[trigger] r->Ok_0.completions(prefix) == d.completions(prefix),
    {
        proof {
            assert forall|keys: Seq<Seq<u8>>, lists: Seq<Seq<EntryView>>|
                data@ == #[trigger] image(keys, lists) && trie::trie_image(keys).len() <= u32::MAX
                    && values::values_image(rows_of(lists)).len() <= u32::MAX implies header_fault(
                data@,
            ) is None && trie_part(data@) == trie::trie_image(keys) && values_part(data@)
                == values::values_image(rows_of(lists)) by {
                file_has_its_parts(
                    trie::trie_image(keys),
                    values::values_image(rows_of(lists)),
                );
            }
        }
        if data.len() < 5 {
            return Err(DictError::InvalidHeader);
        }
        if !magic_at(data, &MAGIC) {
            return Err(DictError::InvalidMagic);
        }
        if data[4] != VERSION {
            return Err(DictError::UnsupportedVersion(data[4]));
        }
        if data.len() < HEADER_SIZE {
            return Err(DictError::InvalidHeader);
        }
        let trie_size: u32 = u32_from_le_bytes(slice_subrange(data, 5, 9));
        let values_size: u32 = u32_from_le_bytes(slice_subrange(data, 9, 13));
        if (data.len() as u128) < 13 + trie_size as u128 + values_size as u128 {
            return Err(DictError::InvalidHeader);
        }
        let middle: usize = HEADER_SIZE + trie_size as usize;
        let end: usize = middle + values_size as usize;
        let trie = match trie_from_bytes(slice_subrange(data, HEADER_SIZE, middle)) {
            Ok(t) => t,
            Err(TrieFault::InvalidMagic) => {
                return Err(DictError::InvalidMagic);
            },
            Err(TrieFault::InvalidVersion(_)) => {
                return Err(DictError::UnsupportedVersion(0));
            },
            Err(_) => {
                return Err(DictError::InvalidHeader);
            },
        };
        let table = match decode_values(slice_subrange(data, middle, end)) {
            Ok(t) => t,
            Err(e) => {
                return Err(DictError::Deserialize(e));
            },
        };
        let ghost rows = values::table_view(table@);
        let values = entries_from(table);
        proof {
            assert forall|keys: Seq<Seq<u8>>, lists: Seq<Seq<EntryView>>|
                trie::buildable(keys) && data@ == #[trigger] image(keys, lists)
                    && trie::trie_image(keys).len() <= u32::MAX && values::values_image(
                    rows_of(lists),
                ).len() <= u32::MAX implies entries_of(rows) == lists by {
                rows_give_entries_back(lists);
            }
        }
        Ok(TrieDictionary { trie, values })
    }
}

impl Ranked for (String, DictEntry) {
    open spec fn rank(&self) -> int {
        self.1.cost as int
    }
}

impl RankedItem for (String, DictEntry) {
    fn rank_of(&self) -> (r: i64) {
        self.1.cost as i64
    }
}

impl Ranked for (Seq<char>, EntryView) {
    open spec fn rank(&self) -> int {
        self.1.cost as int
    }
}

/// The entries of a reading, each with the reading.
pub open spec fn with_reading(
    reading: Seq<char>,
    entries: Seq<EntryView>,
) -> Seq<(Seq<char>, EntryView)> {
    Seq::new(entries.len(), |i: int| (reading, entries[i]))
}

/// The entries of several readings, each with its reading.
pub open spec fn flattened(
    words: Map<Seq<char>, Seq<EntryView>>,
    readings: Seq<Seq<char>>,
) -> Seq<(Seq<char>, EntryView)>
    decreases readings.len(),
{
    if readings.len() == 0 {
        Seq::empty()
    } else {
        flattened(words, readings.drop_last()) + with_reading(
            readings.last(),
            words[readings.last()],
        )
    }
}

/// Whether an entry with this surface stands in a list.
pub open spec fn has_surface(s: Seq<(Seq<char>, EntryView)>, surface: Seq<char>) -> bool {
    exists|i: int| 0 <= i < s.len() && (#[trigger] s[i]).1.surface == surface
}

/// The first entry of each surface.
pub open spec fn first_of_surface(
    s: Seq<(Seq<char>, EntryView)>,
) -> Seq<(Seq<char>, EntryView)>
    decreases s.len(),
{
    if s.len() == 0 {
        s
    } else if has_surface(s.drop_last(), s.last().1.surface) {
        first_of_surface(s.drop_last())
    } else {
        first_of_surface(s.drop_last()).push(s.last())
    }
}

/// The entries of the first `scan_limit` completions, cheapest first, each
/// surface once, and at most `max_results`.
pub open spec fn ranked_predictions(
    words: Map<Seq<char>, Seq<EntryView>>,
    completions: Seq<Seq<char>>,
    max_results: nat,
    scan_limit: nat,
) -> Seq<(Seq<char>, EntryView)> {
    let flat = flattened(words, dict::at_most(completions, scan_limit));
    dict::at_most(first_of_surface(ordering::ranked_order(flat)), max_results)
}

/// Ranked predictions come cheapest first, and no surface comes twice.
pub proof fn ranked_predictions_are_sorted_and_distinct(
    words: Map<Seq<char>, Seq<EntryView>>,
    completions: Seq<Seq<char>>,
    max_results: nat,
    scan_limit: nat,
)
    ensures
        ({
            let r = ranked_predictions(words, completions, max_results, scan_limit);
            &&& r.len() <= max_results
            &&& forall|i: int, j: int|
                0 <= i < j < r.len() ==> (#[trigger] r[i]).1.cost <= (#[trigger] r[j]).1.cost
                    && r[i].1.surface != r[j].1.surface
        }),
{
    let flat = flattened(words, dict::at_most(completions, scan_limit));
    let sorted = ordering::ranked_order(flat);
    ordering::ranked_order_sorts(flat);
    lemma_first_of_surface(sorted);
    let kept = first_of_surface(sorted);
    assert forall|i: int, j: int| 0 <= i < j < kept.len() implies (#[trigger] kept[i]).1.cost <= (
    #[trigger] kept[j]).1.cost && kept[i].1.surface != kept[j].1.surface by {
        assert(kept[i].rank() <= kept[j].rank());
    }
}

/// What the first entries of each surface keep of a list.
proof fn lemma_first_of_surface(s: Seq<(Seq<char>, EntryView)>)
    ensures
        forall|x: Seq<char>| #[trigger] has_surface(s, x) == has_surface(first_of_surface(s), x),
        ordering::ascending(s) ==> ordering::ascending(first_of_surface(s)),
        forall|i: int, j: int|
            0 <= i < j < first_of_surface(s).len() ==> (#[trigger] first_of_surface(
                s,
            )[i]).1.surface != (#[trigger] first_of_surface(s)[j]).1.surface,
        forall|i: int|
            0 <= i < first_of_surface(s).len() ==> s.contains(#[trigger] first_of_surface(s)[i]),
    decreases s.len(),
{
    if s.len() > 0 {
        let p = s.drop_last();
        let f = first_of_surface(p);
        let r = first_of_surface(s);
        lemma_first_of_surface(p);
        let x = s.last();
        assert forall|y: Seq<char>| #[trigger] has_surface(s, y) == has_surface(r, y) by {
            if has_surface(s, y) {
                let i = choose|i: int| 0 <= i < s.len() && (#[trigger] s[i]).1.surface == y;
                if i < p.len() {
                    assert(p[i].1.surface == y);
                    assert(has_surface(p, y));
                    let j = choose|j: int| 0 <= j < f.len() && (#[trigger] f[j]).1.surface == y;
                    assert(r[j] == f[j]);
                } else if has_surface(p, x.1.surface) {
                    assert(has_surface(p, y));
                } else {
                    assert(r[f.len() as int] == x);
                }
            }
            if has_surface(r, y) {
                let j = choose|j: int| 0 <= j < r.len() && (#[trigger] r[j]).1.surface == y;
                if j < f.len() {
                    assert(f[j].1.surface == y);
                    assert(has_surface(f, y));
                    assert(has_surface(p, y));
                    let i = choose|i: int| 0 <= i < p.len() && (#[trigger] p[i]).1.surface == y;
                    assert(s[i] == p[i]);
                } else {
                    assert(s[s.len() - 1] == x);
                }
            }
        }
        assert forall|i: int| 0 <= i < r.len() implies s.contains(#[trigger] r[i]) by {
            if i < f.len() {
                assert(r[i] == f[i]);
                assert(p.contains(f[i]));
                let k = choose|k: int| 0 <= k < p.len() && p[k] == f[i];
                assert(s[k] == f[i]);
            } else {
                assert(s[s.len() - 1] == x);
            }
        }
        if !has_surface(p, x.1.surface) {
            assert(!has_surface(f, x.1.surface));
            assert forall|i: int, j: int| 0 <= i < j < r.len() implies (
            #[trigger] r[i]).1.surface != (#[trigger] r[j]).1.surface by {
                assert(r[i] == f[i]);
                if j < f.len() {
                    assert(r[j] == f[j]);
                }
            }
            if ordering::ascending(s) {
                assert(ordering::ascending(p)) by {
                    assert forall|i: int, j: int| 0 <= i < j < p.len() implies (
                    #[trigger] p[i]).rank() <= (#[trigger] p[j]).rank() by {
                        assert(p[i] == s[i] && p[j] == s[j]);
                    }
                }
                assert forall|i: int, j: int| 0 <= i < j < r.len() implies (
                #[trigger] r[i]).rank() <= (#[trigger] r[j]).rank() by {
                    assert(r[i] == f[i]);
                    if j < f.len() {
                        assert(r[j] == f[j]);
                    } else {
                        assert(p.contains(f[i]));
                        let k = choose|k: int| 0 <= k < p.len() && p[k] == f[i];
                        assert(s[k].rank() <= s[s.len() - 1].rank());
                    }
                }
            }
        } else if ordering::ascending(s) {
            assert(ordering::ascending(p)) by {
                assert forall|i: int, j: int| 0 <= i < j < p.len() implies (
                #[trigger] p[i]).rank() <= (#[trigger] p[j]).rank() by {
                    assert(p[i] == s[i] && p[j] == s[j]);
                }
            }
        }
    }
}

/// The number of entries in all lists.
pub open spec fn entry_count(lists: Seq<Seq<EntryView>>) -> nat
    decreases lists.len(),
{
    if lists.len() == 0 {
        0
    } else {
        entry_count(lists.drop_last()) + lists.last().len()
    }
}

proof fn lemma_entry_count_monotone(lists: Seq<Seq<EntryView>>, i: int)
    requires
        0 <= i <= lists.len(),
    ensures
        entry_count(lists.take(i)) <= entry_count(lists),
    decreases lists.len() - i,
{
    if i == lists.len() {
        assert(lists.take(i) =~= lists);
    } else {
        lemma_entry_count_monotone(lists, i + 1);
        assert(lists.take(i + 1).drop_last() =~= lists.take(i));
    }
}

/// Pairs of readings and entries, as search results.
pub open spec fn pair_results(pairs: Seq<(String, &Vec<DictEntry>)>) -> Seq<dict::ResultView> {
    Seq::new(
        pairs.len(),
        |i: int|
            dict::ResultView { reading: pairs[i].0@, entries: text::views(pairs[i].1@) },
    )
}

impl TrieDictionary {
    /// The first `limit` readings that start with `prefix`, with their places.
    fn walk(&self, prefix: &str, limit: usize) -> (r: Vec<(String, u32)>)
        requires
            self.valid(),
        ensures
            dict::completes(self.words(), prefix@, self.completions(prefix@)),
            self.completions(prefix@).len() <= self.keys().len(),
            r@.len() == dict::at_most(self.completions(prefix@), limit as nat).len(),
            forall|i: int|
                0 <= i < r@.len() ==> (#[trigger] r@[i]).0@ == self.completions(prefix@)[i]
                    && r@[i].1 < self.values@.len() && self.words().contains_key(r@[i].0@)
                    && self.words()[r@[i].0@] == text::views(self.values@[r@[i].1 as int]@),
    {
        let found = trie_complete(&self.trie, prefix.as_bytes(), limit);
        let ghost names = self.completions(prefix@);
        let mut r: Vec<(String, u32)> = Vec::new();
        proof {
            self.lemma_completions(prefix@);
        }
        let mut i: usize = 0;
        while i < found.len()
            invariant
                self.valid(),
                i <= found@.len(),
                i == r@.len(),
                names.len() >= found@.len(),
                forall|j: int|
                    0 <= j < found@.len() ==> (#[trigger] found@[j]).1 < self.keys().len()
                        && found@[j].0@ == self.keys()[found@[j].1 as int] && names[j]
                        == utf8::decode_utf8(found@[j].0@),
                forall|i: int|
                    0 <= i < r@.len() ==> (#[trigger] r@[i]).0@ == names[i] && r@[i].1
                        < self.values@.len() && self.words().contains_key(r@[i].0@)
                        && self.words()[r@[i].0@] == text::views(self.values@[r@[i].1 as int]@),
            decreases found@.len() - i,
        {
            let id: u32 = found[i].1;
            let ghost key = found@[i as int].0@;
            let copy = slice_to_vec(found[i].0.as_slice());
            if let Some(reading) = text_from_utf8(copy) {
                proof {
                    assert(copy@ == key);
                    utf8::encode_utf8_decode_utf8(reading@);
                    self.lemma_place(reading@, id as int);
                }
                r.push((reading, id));
            }
            i = i + 1;
        }
        r
    }

    /// All readings with their entries.
    pub fn iter(&self) -> (r: Vec<(String, &Vec<DictEntry>)>)
        requires
            self.valid(),
        ensures
            pair_results(r@) == dict::with_entries(self.words(), self.completions(Seq::empty())),
            dict::completes(self.words(), Seq::empty(), self.completions(Seq::empty())),
    {
        proof {
            reveal_strlit("");
            assert(""@ =~= Seq::empty());
        }
        let found = self.walk("", self.values.len());
        let mut r: Vec<(String, &Vec<DictEntry>)> = Vec::new();
        let mut i: usize = 0;
        while i < found.len()
            invariant
                i <= found@.len(),
                i == r@.len(),
                forall|j: int|
                    0 <= j < found@.len() ==> (#[trigger] found@[j]).1 < self.values@.len(),
                forall|j: int|
                    0 <= j < i ==> (#[trigger] r@[j]).0@ == found@[j].0@ && r@[j].1@
                        == self.values@[found@[j].1 as int]@,
            decreases found@.len() - i,
        {
            let id: u32 = found[i].1;
            r.push((found[i].0.clone(), &self.values[id as usize]));
            i = i + 1;
        }
        proof {
            let names = self.completions(Seq::empty());
            let got = pair_results(r@);
            let want = dict::with_entries(self.words(), names);
            assert forall|j: int| 0 <= j < got.len() implies #[trigger] got[j] == want[j] by {
                assert(found@[j].0@ == names[j]);
                assert(r@[j].0@ == found@[j].0@);
            }
            assert(got =~= want);
        }
        r
    }

    /// Entries of readings that start with `prefix`: those of the first
    /// `scan_limit` readings, cheapest first, each surface once, and at most
    /// `max_results` of them.
    pub fn predict_ranked(
        &self,
        prefix: &str,
        max_results: usize,
        scan_limit: usize,
    ) -> (r: Vec<(String, DictEntry)>)
        requires
            self.valid(),
        ensures
            text::views(r@) == ranked_predictions(
                self.words(),
                self.completions(prefix@),
                max_results as nat,
                scan_limit as nat,
            ),
            dict::completes(self.words(), prefix@, self.completions(prefix@)),
    {
        let found = self.walk(prefix, scan_limit);
        let ghost names = dict::at_most(self.completions(prefix@), scan_limit as nat);
        let mut flat: Vec<(String, DictEntry)> = Vec::new();
        proof {
            assert(text::views(flat@) =~= flattened(self.words(), names.take(0)));
        }
        let mut i: usize = 0;
        while i < found.len()
            invariant
                i <= found@.len(),
                names.len() == found@.len(),
                forall|j: int|
                    0 <= j < found@.len() ==> (#[trigger] found@[j]).0@ == names[j] && found@[j].1
                        < self.values@.len() && self.words().contains_key(names[j])
                        && self.words()[names[j]] == text::views(
                        self.values@[found@[j].1 as int]@,
                    ),
                text::views(flat@) == flattened(self.words(), names.take(i as int)),
            decreases found@.len() - i,
        {
            let list = &self.values[found[i].1 as usize];
            let ghost start = text::views(flat@);
            let mut j: usize = 0;
            while j < list.len()
                invariant
                    i < found@.len(),
                    j <= list@.len(),
                    text::views(flat@) == start + with_reading(
                        found@[i as int].0@,
                        text::views(list@),
                    ).take(j as int),
                decreases list@.len() - j,
            {
                let ghost more = with_reading(found@[i as int].0@, text::views(list@));
                let ghost before = text::views(flat@);
                flat.push((found[i].0.clone(), list[j].clone()));
                proof {
                    assert(text::views(flat@) =~= before.push(more[j as int]));
                    assert(more.take(j as int + 1) =~= more.take(j as int).push(more[j as int]));
                    assert(text::views(flat@) =~= start + more.take(j as int + 1));
                }
                j = j + 1;
            }
            proof {
                let more = with_reading(found@[i as int].0@, text::views(list@));
                assert(more.take(list@.len() as int) =~= more);
                assert(names.take(i as int + 1).drop_last() =~= names.take(i as int));
                assert(names.take(i as int + 1).last() == names[i as int]);
            }
            i = i + 1;
        }
        proof {
            assert(names.take(names.len() as int) =~= names);
            ordering::lemma_ranked_order_views(flat@);
        }
        stable_sort(&mut flat);
        let ghost sorted = text::views(flat@);
        let mut seen = StringHashSet::new();
        let mut kept: Vec<(String, DictEntry)> = Vec::new();
        proof {
            assert(text::views(kept@) =~= first_of_surface(sorted.take(0)));
        }
        let mut i: usize = 0;
        while i < flat.len()
            invariant
                i <= flat@.len(),
                sorted == text::views(flat@),
                text::views(kept@) == first_of_surface(sorted.take(i as int)),
                forall|x: Seq<char>| #[trigger]
                    seen@.contains(x) == has_surface(sorted.take(i as int), x),
            decreases flat@.len() - i,
        {
            let surface = flat[i].1.surface.clone();
            let ghost before = sorted.take(i as int);
            let ghost after = sorted.take(i as int + 1);
            proof {
                assert(after.drop_last() =~= before);
                assert(after.last() == sorted[i as int]);
                assert forall|x: Seq<char>| has_surface(after, x) == (#[trigger] has_surface(
                    before,
                    x,
                ) || x == surface@) by {
                    if has_surface(before, x) {
                        let k = choose|k: int|
                            0 <= k < before.len() && (#[trigger] before[k]).1.surface == x;
                        assert(after[k] == before[k]);
                    }
                    if has_surface(after, x) && x != surface@ {
                        let k = choose|k: int|
                            0 <= k < after.len() && (#[trigger] after[k]).1.surface == x;
                        assert(before[k] == after[k]);
                    }
                    assert(after[i as int].1.surface == surface@);
                }
            }
            if seen.insert(surface) {
                let ghost old_kept = text::views(kept@);
                kept.push((flat[i].0.clone(), flat[i].1.clone()));
                proof {
                    assert(text::views(kept@) =~= old_kept.push(sorted[i as int]));
                }
            }
            i = i + 1;
        }
        proof {
            assert(sorted.take(sorted.len() as int) =~= sorted);
        }
        let ghost all = text::views(kept@);
        if kept.len() > max_results {
            kept.truncate(max_results);
            proof {
                assert(text::views(kept@) =~= all.take(max_results as int));
            }
        }
        kept
    }

    /// The number of readings and the number of entries.
    pub fn stats(&self) -> (r: (usize, usize))
        requires
            entry_count(self.lists()) <= usize::MAX,
        ensures
            r.0 == self.lists().len(),
            r.1 == entry_count(self.lists()),
    {
        let mut entries: usize = 0;
        let mut i: usize = 0;
        while i < self.values.len()
            invariant
                i <= self.values@.len(),
                entries == entry_count(self.lists().take(i as int)),
                entry_count(self.lists()) <= usize::MAX,
            decreases self.values@.len() - i,
        {
            proof {
                let lists = self.lists();
                assert(lists.take(i as int + 1).drop_last() =~= lists.take(i as int));
                assert(lists.take(i as int + 1).last() == lists[i as int]);
                lemma_entry_count_monotone(lists, i as int + 1);
            }
            entries = entries + self.values[i].len();
            i = i + 1;
        }
        proof {
            assert(self.lists().take(self.lists().len() as int) =~= self.lists());
        }
        (self.values.len(), entries)
    }
}

proof fn lemma_weight_monotone(keys: Seq<Seq<u8>>, i: int)
    requires
        0 <= i <= keys.len(),
    ensures
        trie::weight(keys.take(i)) <= trie::weight(keys),
    decreases keys.len() - i,
{
    if i == keys.len() {
        assert(keys.take(i) =~= keys);
    } else {
        lemma_weight_monotone(keys, i + 1);
        assert(keys.take(i + 1).drop_last() =~= keys.take(i));
    }
}

/// Whether `from_entries` takes a list: no reading is listed twice, and the
/// readings fit in a trie.
pub fn can_hold(entries: &Vec<(String, Vec<DictEntry>)>) -> (r: bool)
    ensures
        r == admissible(listed(entries@)),
{
    let ghost list = listed(entries@);
    let ghost keys = reading_keys(list);
    if entries.len() > trie::MAX_KEYS {
        return false;
    }
    let mut seen = StringHashSet::new();
    let mut total: usize = 0;
    let mut i: usize = 0;
    while i < entries.len()
        invariant
            i <= entries@.len(),
            list == listed(entries@),
            keys == reading_keys(list),
            total == trie::weight(keys.take(i as int)),
            total <= trie::MAX_WEIGHT,
            forall|x: Seq<char>| #[trigger]
                seen@.contains(x) ==> exists|k: int| 0 <= k < i && list[k].0 == x,
            forall|k: int| 0 <= k < i ==> seen@.contains((#[trigger] list[k]).0),
            forall|k: int, m: int|
                0 <= k < m < i ==> (#[trigger] list[k]).0 != (#[trigger] list[m]).0,
        decreases entries@.len() - i,
    {
        let reading = &entries[i].0;
        let ghost before = seen@;
        let new = seen.insert(reading.clone());
        proof {
            assert(list[i as int].0 == reading@);
        }
        if !new {
            proof {
                let k = choose|k: int| 0 <= k < i && list[k].0 == reading@;
                assert(list[k].0 == list[i as int].0);
            }
            return false;
        }
        let size: usize = reading.as_str().as_bytes().len();
        proof {
            assert(keys.take(i as int + 1).drop_last() =~= keys.take(i as int));
            assert(keys.take(i as int + 1).last() == utf8::encode_utf8(reading@));
            lemma_weight_monotone(keys, i as int + 1);
        }
        if size >= trie::MAX_WEIGHT - total {
            return false;
        }
        total = total + size + 1;
        proof {
            assert forall|k: int, m: int| 0 <= k < m < i + 1 implies (#[trigger] list[k]).0 != (
            #[trigger] list[m]).0 by {
                assert(before.contains(list[k].0));
            }
        }
        i = i + 1;
    }
    proof {
        assert(keys.take(keys.len() as int) =~= keys);
    }
    true
}

/// Whether keys fit in a trie and stand in ascending order.
fn keys_fit(keys: &Vec<Vec<u8>>) -> (r: bool)
    ensures
        r == trie::buildable(trie::byte_views(keys@)),
{
    let ghost views = trie::byte_views(keys@);
    if keys.len() > trie::MAX_KEYS {
        return false;
    }
    let mut total: usize = 0;
    let mut i: usize = 0;
    while i < keys.len()
        invariant
            i <= keys@.len(),
            views == trie::byte_views(keys@),
            total == trie::weight(views.take(i as int)),
            total <= trie::MAX_WEIGHT,
            forall|k: int, m: int|
                0 <= k < m < i ==> bytes::bytes_less(#[trigger] views[k], #[trigger] views[m]),
        decreases keys@.len() - i,
    {
        let size: usize = keys[i].len();
        proof {
            assert(views.take(i as int + 1).drop_last() =~= views.take(i as int));
            assert(views.take(i as int + 1).last() == keys@[i as int]@);
            lemma_weight_monotone(views, i as int + 1);
        }
        if size >= trie::MAX_WEIGHT - total {
            return false;
        }
        total = total + size + 1;
        if i > 0 && !bytes::bytes_before(keys[i - 1].as_slice(), keys[i].as_slice()) {
            proof {
                assert(!bytes::bytes_less(views[i - 1], views[i as int]));
            }
            return false;
        }
        proof {
            assert forall|k: int, m: int| 0 <= k < m < i + 1 implies bytes::bytes_less(
                #[trigger] views[k],
                #[trigger] views[m],
            ) by {
                if m == i {
                    if k < i - 1 {
                        assert(bytes::bytes_less(views[k], views[i - 1]));
                        bytes::bytes_less_is_transitive(views[k], views[i - 1], views[m]);
                    }
                }
            }
        }
        i = i + 1;
    }
    proof {
        assert(views.take(views.len() as int) =~= views);
    }
    true
}

fn same_bytes(a: &Vec<u8>, b: &Vec<u8>) -> (r: bool)
    ensures
        r == (a@ == b@),
{
    if a.len() != b.len() {
        return false;
    }
    let mut i: usize = 0;
    while i < a.len()
        invariant
            i <= a@.len(),
            a@.len() == b@.len(),
            forall|k: int| 0 <= k < i ==> a@[k] == b@[k],
        decreases a@.len() - i,
    {
        if a[i] != b[i] {
            return false;
        }
        i = i + 1;
    }
    proof {
        assert(a@ =~= b@);
    }
    true
}

impl TrieDictionary {
    /// Whether the dictionary is intact: a dictionary that was built is, one that
    /// was read from damaged bytes is not.
    pub fn is_intact(&self) -> (r: bool)
        ensures
            r == self.valid(),
    {
        let n: usize = self.values.len();
        if n > trie::MAX_KEYS {
            return false;
        }
        let mut keys: Vec<Vec<u8>> = Vec::new();
        let mut i: usize = 0;
        while i < n
            invariant
                i <= n,
                keys@.len() == i,
            decreases n - i,
        {
            keys.push(Vec::new());
            i = i + 1;
        }
        let found = trie_complete(&self.trie, "".as_bytes(), n);
        let ghost p = ""@;
        proof {
            reveal_strlit("");
            assert(p =~= Seq::empty());
            assert(utf8::encode_utf8(p) =~= Seq::empty());
        }
        let ghost walk = trie::trie_walk(self.keys(), Seq::empty());
        let mut i: usize = 0;
        while i < found.len()
            invariant
                i <= found@.len(),
                keys@.len() == n,
                n == self.lists().len(),
                walk == trie::trie_walk(self.keys(), Seq::empty()),
                self.sound() ==> trie::walked(
                    self.keys(),
                    Seq::empty(),
                    walk,
                    n as nat,
                    found@,
                ),
                self.sound() ==> forall|j: int|
                    0 <= j < i ==> (#[trigger] found@[j]).1 < n && keys@[found@[j].1 as int]@
                        == self.keys()[found@[j].1 as int],
            decreases found@.len() - i,
        {
            let id: usize = found[i].1 as usize;
            if id >= n {
                proof {
                    if self.valid() {
                        assert(found@[i as int].1 == walk[i as int]);
                    }
                }
                return false;
            }
            let ghost before = keys@;
            keys.set(id, slice_to_vec(found[i].0.as_slice()));
            proof {
                if self.sound() {
                    assert(found@[i as int].0@ == self.keys()[walk[i as int] as int]);
                    assert forall|j: int| 0 <= j < i + 1 implies (#[trigger] found@[j]).1 < n
                        && keys@[found@[j].1 as int]@ == self.keys()[found@[j].1 as int] by {
                        if found@[j].1 != id {
                            assert(j != i);
                            assert(keys@[found@[j].1 as int] == before[found@[j].1 as int]);
                        }
                    }
                }
            }
            i = i + 1;
        }
        let ghost views = trie::byte_views(keys@);
        proof {
            if self.valid() {
                self.lemma_all_walked(found@, views, n as nat);
            }
        }
        if !keys_fit(&keys) {
            return false;
        }
        let mut i: usize = 0;
        while i < n
            invariant
                i <= n,
                keys@.len() == n,
                views == trie::byte_views(keys@),
                self.valid() ==> views == self.keys(),
                forall|j: int| 0 <= j < i ==> utf8::valid_utf8(#[trigger] views[j]),
            decreases n - i,
        {
            let copy = slice_to_vec(keys[i].as_slice());
            proof {
                assert(copy@ == views[i as int]);
            }
            if text_from_utf8(copy).is_none() {
                return false;
            }
            i = i + 1;
        }
        let rebuilt = trie_build(&keys);
        let expected = trie_to_bytes(&rebuilt);
        let actual = trie_to_bytes(&self.trie);
        same_bytes(&expected, &actual)
    }

    /// A walk of all keys fills every place.
    proof fn lemma_all_walked(&self, found: Seq<(Vec<u8>, u32)>, views: Seq<Seq<u8>>, n: nat)
        requires
            self.valid(),
            n == self.keys().len(),
            views.len() == n,
            trie::walked(
                self.keys(),
                Seq::empty(),
                trie::trie_walk(self.keys(), Seq::empty()),
                n,
                found,
            ),
            forall|j: int|
                0 <= j < found.len() ==> (#[trigger] found[j]).1 < n && views[found[j].1 as int]
                    == self.keys()[found[j].1 as int],
        ensures
            views == self.keys(),
    {
        let walk = trie::trie_walk(self.keys(), Seq::empty());
        assert forall|k: int| 0 <= k < n implies #[trigger] views[k] == self.keys()[k] by {
            assert(Seq::<u8>::empty().is_prefix_of(self.keys()[k])) by {
                assert(self.keys()[k].subrange(0, 0) =~= Seq::<u8>::empty());
            }
            assert(walk.contains(k as u32));
            let j = walk.index_of(k as u32);
            assert(found[j].1 == walk[j]);
        }
        assert(views =~= self.keys());
    }
}

/// A stretch of lengths at which no prefix is a reading adds nothing.
proof fn lemma_no_prefix(
    words: Map<Seq<char>, Seq<EntryView>>,
    query: Seq<char>,
    a: nat,
    b: nat,
)
    requires
        a <= b,
        forall|k: int| a <= k < b ==> !words.contains_key(#[trigger] query.take(k)),
    ensures
        dict::prefixes_below(words, query, b) == dict::prefixes_below(words, query, a),
    decreases b - a,
{
    if a < b {
        lemma_no_prefix(words, query, a, (b - 1) as nat);
        assert(!words.contains_key(query.take(b - 1)));
    }
}

impl Dictionary for TrieDictionary {
    open spec fn words(&self) -> Map<Seq<char>, Seq<EntryView>> {
        Map::new(
            |reading: Seq<char>| self.keys().contains(utf8::encode_utf8(reading)),
            |reading: Seq<char>| self.lists()[self.keys().index_of(utf8::encode_utf8(reading))],
        )
    }

    open spec fn completions(&self, prefix: Seq<char>) -> Seq<Seq<char>> {
        let walk = trie::trie_walk(self.keys(), utf8::encode_utf8(prefix));
        Seq::new(walk.len(), |i: int| utf8::decode_utf8(self.keys()[walk[i] as int]))
    }

    open spec fn valid(&self) -> bool {
        &&& self.sound()
        &&& trie::buildable(self.keys())
        &&& self.lists().len() == self.keys().len()
        &&& forall|i: int|
            0 <= i < self.keys().len() ==> utf8::valid_utf8(#[trigger] self.keys()[i])
    }

    fn lookup(&self, reading: &str) -> (r: Option<&[DictEntry]>) {
        match trie_find(&self.trie, reading.as_bytes()) {
            Some(id) => {
                proof {
                    self.lemma_place(reading@, id as int);
                }
                Some(self.values[id as usize].as_slice())
            },
            None => None,
        }
    }

    fn predict(&self, prefix: &str, max_results: usize) -> (r: Vec<SearchResult<'_>>) {
        let found = self.walk(prefix, max_results);
        let ghost names = dict::at_most(self.completions(prefix@), max_results as nat);
        let mut r: Vec<SearchResult<'_>> = Vec::new();
        let mut i: usize = 0;
        while i < found.len()
            invariant
                i <= found@.len(),
                i == r@.len(),
                forall|j: int|
                    0 <= j < found@.len() ==> (#[trigger] found@[j]).1 < self.values@.len(),
                forall|j: int|
                    0 <= j < i ==> (#[trigger] r@[j]).reading@ == found@[j].0@ && r@[j].entries@
                        == self.values@[found@[j].1 as int]@,
            decreases found@.len() - i,
        {
            let id: u32 = found[i].1;
            r.push(
                SearchResult {
                    reading: found[i].0.clone(),
                    entries: self.values[id as usize].as_slice(),
                },
            );
            i = i + 1;
        }
        proof {
            let got = text::views(r@);
            let want = dict::with_entries(self.words(), names);
            assert forall|j: int| 0 <= j < got.len() implies #[trigger] got[j] == want[j] by {
                assert(found@[j].0@ == names[j]);
                assert(r@[j].reading@ == found@[j].0@);
            }
            assert(got =~= want);
        }
        r
    }

    fn common_prefix_search(&self, query: &str) -> (r: Vec<SearchResult<'_>>) {
        let query_bytes = query.as_bytes();
        let ghost q = query@;
        let ghost qb = query_bytes@;
        let found = trie_prefixes(&self.trie, query_bytes);
        let mut r: Vec<SearchResult<'_>> = Vec::new();
        let ghost mut k: nat = 0;
        let mut i: usize = 0;
        while i < found.len()
            invariant
                self.valid(),
                q == query@,
                qb == query_bytes@,
                qb == utf8::encode_utf8(q),
                trie::prefixes_found(self.keys(), qb, found@),
                i <= found@.len(),
                i == 0 ==> k == 0,
                k <= q.len() + 1,
                i > 0 ==> k > 0 && found@[i - 1].0 == utf8::encode_utf8(q.take(k - 1)).len(),
                text::views(r@) == dict::prefixes_below(self.words(), q, k),
            decreases found@.len() - i,
        {
            let len: usize = found[i].0;
            let id: u32 = found[i].1;
            let head = slice_to_vec(slice_subrange(query_bytes, 0, len));
            proof {
                assert(head@ =~= qb.take(len as int));
                assert(self.keys()[id as int] == head@);
            }
            if let Some(reading) = text_from_utf8(head) {
                let ghost n = reading@.len();
                proof {
                    let rd = reading@;
                    encoding::lemma_encode_prefix(rd, q);
                    assert(q.take(n as int) =~= rd);
                    self.lemma_place(rd, id as int);
                    self.lemma_gap(q, found@, i as int, k, n);
                    lemma_no_prefix(self.words(), q, k, n);
                    assert(dict::prefixes_below(self.words(), q, n + 1) == dict::prefixes_below(
                        self.words(),
                        q,
                        n,
                    ).push(dict::ResultView { reading: rd, entries: self.words()[rd] }));
                    k = n + 1;
                }
                r.push(SearchResult { reading, entries: self.values[id as usize].as_slice() });
                proof {
                    assert(text::views(r@) =~= dict::prefixes_below(self.words(), q, k));
                }
            }
            i = i + 1;
        }
        proof {
            assert forall|m: int| k <= m < q.len() + 1 implies !self.words().contains_key(
                #[trigger] q.take(m),
            ) by {
                self.lemma_no_gap(q, found@, i as int, k, m);
            }
            lemma_no_prefix(self.words(), q, k, q.len() + 1);
        }
        r
    }
}

} // verus!
