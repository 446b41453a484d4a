//! What two dictionaries have in common, and what only one of them has.

use vstd::prelude::*;

use crate::dict::merge::{self};
use crate::dict::{self, DictEntry, Dictionary, EntryView, TrieDictionary};
use crate::text::{self, same_text};

verus! {

/// How many readings a sample shows at most.
pub const SAMPLE_SIZE: usize = 20;

/// Whether an entry of this surface is among the entries.
pub open spec fn lists_surface(entries: Seq<EntryView>, surface: Seq<char>) -> bool {
    exists|i: int| 0 <= i < entries.len() && (#[trigger] entries[i]).surface == surface
}

/// Whether there is an entry of this reading and surface.
pub open spec fn has_pair(
    words: Map<Seq<char>, Seq<EntryView>>,
    pair: (Seq<char>, Seq<char>),
) -> bool {
    words.contains_key(pair.0) && lists_surface(words[pair.0], pair.1)
}

/// The pairs of reading and surface.
pub open spec fn pairs(words: Map<Seq<char>, Seq<EntryView>>) -> Set<(Seq<char>, Seq<char>)> {
    Set::new(|pair: (Seq<char>, Seq<char>)| has_pair(words, pair))
}

/// Whether an entry of this surface is among the first `n` entries.
fn find_surface(entries: &[DictEntry], n: usize, surface: &str) -> (r: bool)
    requires
        n <= entries@.len(),
    ensures
        r == lists_surface(text::views(entries@).take(n as int), surface@),
{
    let ghost v = text::views(entries@).take(n as int);
    let mut i: usize = 0;
    while i < n
        invariant
            i <= n <= entries@.len(),
            v == text::views(entries@).take(n as int),
            forall|j: int| 0 <= j < i ==> (#[trigger] v[j]).surface != surface@,
        decreases n - i,
    {
        proof {
            assert(v[i as int] == entries@[i as int]@);
        }
        if same_text(entries[i].surface.as_str(), surface) {
            return true;
        }
        i = i + 1;
    }
    false
}

/// The readings of `a` that `b` has too, or those that it has not.
fn readings_where(a: &TrieDictionary, b: &TrieDictionary, shared: bool) -> (r: Vec<String>)
    requires
        a.valid(),
        b.valid(),
    ensures
        text::views(r@).no_duplicates(),
        forall|x: Seq<char>| #[trigger]
            text::views(r@).contains(x) <==> a.words().contains_key(x) && b.words().contains_key(x)
                == shared,
{
    let rows = a.iter();
    let ghost list = a.completions(Seq::empty());
    proof {
        merge::lemma_listed(a, rows@);
    }
    let mut out: Vec<String> = Vec::new();
    let mut i: usize = 0;
    while i < rows.len()
        invariant
            i <= rows@.len(),
            rows@.len() == list.len(),
            list.no_duplicates(),
            b.valid(),
            forall|k: int|
                0 <= k < rows@.len() ==> (#[trigger] rows@[k]).0@ == list[k]
                    && a.words().contains_key(rows@[k].0@),
            text::views(out@).no_duplicates(),
            forall|x: Seq<char>| #[trigger]
                text::views(out@).contains(x) <==> list.take(i as int).contains(x)
                    && b.words().contains_key(x) == shared,
        decreases rows.len() - i,
    {
        let ghost before = text::views(out@);
        let ghost x = list[i as int];
        proof {
            assert(rows@[i as int].0@ == x);
            merge::lemma_take_contains(list, i as int);
        }
        let known: bool = b.lookup(rows[i].0.as_str()).is_some();
        if known == shared {
            out.push(rows[i].0.clone());
            proof {
                assert(text::views(out@) =~= before.push(x));
                lemma_push_new(before, x);
            }
        }
        i = i + 1;
    }
    proof {
        assert(list.take(i as int) =~= list);
        assert forall|x: Seq<char>| #[trigger] list.contains(x) implies a.words().contains_key(
            x,
        ) by {
            let k = choose|k: int| 0 <= k < list.len() && list[k] == x;
            assert(rows@[k].0@ == x);
        }
    }
    out
}

/// A new item behind distinct ones leaves them distinct.
proof fn lemma_push_new<T>(s: Seq<T>, x: T)
    requires
        s.no_duplicates(),
        !s.contains(x),
    ensures
        s.push(x).no_duplicates(),
        forall|y: T| #[trigger] s.push(x).contains(y) <==> s.contains(y) || y == x,
{
    let t = s.push(x);
    assert forall|i: int, j: int| 0 <= i < t.len() && 0 <= j < t.len() && i != j implies t[i]
        != t[j] by {
        if i < s.len() {
            assert(s.contains(s[i]));
        }
        if j < s.len() {
            assert(s.contains(s[j]));
        }
    }
    assert forall|y: T| #[trigger] t.contains(y) <==> s.contains(y) || y == x by {
        if t.contains(y) {
            let k = choose|k: int| 0 <= k < t.len() && t[k] == y;
            if k < s.len() {
                assert(s[k] == y);
            }
        }
        if s.contains(y) {
            let k = choose|k: int| 0 <= k < s.len() && s[k] == y;
            assert(t[k] == y);
        }
        if y == x {
            assert(t[s.len() as int] == x);
        }
    }
}

/// The pairs of reading and surface of `a` that `b` has too, or those that it has
/// not, by number.
fn pairs_where(a: &TrieDictionary, b: &TrieDictionary, shared: bool) -> (r: usize)
    requires
        a.valid(),
        b.valid(),
    ensures
        r == if shared {
            pairs(a.words()).intersect(pairs(b.words())).len()
        } else {
            pairs(a.words()).difference(pairs(b.words())).len()
        },
{
    let rows = a.iter();
    let ghost list = a.completions(Seq::empty());
    let ghost aw = a.words();
    let ghost bw = b.words();
    proof {
        merge::lemma_listed(a, rows@);
    }
    let mut found: Vec<(usize, usize)> = Vec::new();
    let ghost mut out: Seq<(Seq<char>, Seq<char>)> = Seq::empty();
    let mut i: usize = 0;
    while i < rows.len()
        invariant
            i <= rows@.len(),
            rows@.len() == list.len(),
            list.no_duplicates(),
            b.valid(),
            aw == a.words(),
            bw == b.words(),
            forall|k: int|
                0 <= k < rows@.len() ==> (#[trigger] rows@[k]).0@ == list[k] && aw.contains_key(
                    rows@[k].0@,
                ) && text::views(rows@[k].1@) == aw[rows@[k].0@],
            found@.len() == out.len(),
            out.no_duplicates(),
            forall|x: (Seq<char>, Seq<char>)| #[trigger]
                out.contains(x) <==> list.take(i as int).contains(x.0) && has_pair(aw, x)
                    && has_pair(bw, x) == shared,
        decreases rows.len() - i,
    {
        let ghost reading = list[i as int];
        let ghost here = aw[reading];
        proof {
            assert(rows@[i as int].0@ == reading);
            merge::lemma_take_contains(list, i as int);
        }
        let entries: &Vec<DictEntry> = rows[i].1;
        let other: Option<&[DictEntry]> = b.lookup(rows[i].0.as_str());
        let mut k: usize = 0;
        while k < entries.len()
            invariant
                i < rows@.len(),
                k <= entries@.len(),
                text::views(entries@) == here,
                other is Some <==> bw.contains_key(reading),
                other is Some ==> text::views(other->0@) == bw[reading],
                aw.contains_key(reading),
                here == aw[reading],
                !list.take(i as int).contains(reading),
                found@.len() == out.len(),
                out.no_duplicates(),
                forall|x: (Seq<char>, Seq<char>)| #[trigger]
                    out.contains(x) <==> (list.take(i as int).contains(x.0) && has_pair(aw, x)
                        && has_pair(bw, x) == shared) || (x.0 == reading && lists_surface(
                        here.take(k as int),
                        x.1,
                    ) && has_pair(bw, x) == shared),
            decreases entries.len() - k,
        {
            let surface: &str = entries[k].surface.as_str();
            let ghost pair = (reading, surface@);
            let seen: bool = find_surface(entries.as_slice(), k, surface);
            let known: bool = match other {
                Some(o) => {
                    let f: bool = find_surface(o, o.len(), surface);
                    proof {
                        assert(text::views(o@).take(o@.len() as int) =~= text::views(o@));
                    }
                    f
                },
                None => false,
            };
            proof {
                assert(here[k as int] == entries@[k as int]@);
                lemma_one_more_surface(here, k as int);
            }
            if !seen && known == shared {
                proof {
                    assert(!out.contains(pair));
                    lemma_push_new(out, pair);
                    out = out.push(pair);
                }
                found.push((i, k));
            }
            k = k + 1;
        }
        proof {
            assert(here.take(k as int) =~= here);
            assert forall|x: (Seq<char>, Seq<char>)| #[trigger] out.contains(x) <==> list.take(
                i + 1,
            ).contains(x.0) && has_pair(aw, x) && has_pair(bw, x) == shared by {
                assert(list.take(i + 1).contains(x.0) <==> list.take(i as int).contains(x.0) || x.0
                    == reading);
            }
        }
        i = i + 1;
    }
    proof {
        assert(list.take(i as int) =~= list);
        out.unique_seq_to_set();
        let target = if shared {
            pairs(aw).intersect(pairs(bw))
        } else {
            pairs(aw).difference(pairs(bw))
        };
        assert forall|x: (Seq<char>, Seq<char>)| out.to_set().contains(x) <==> target.contains(
            x,
        ) by {
            if has_pair(aw, x) {
                assert(aw.contains_key(x.0));
                assert(list.contains(x.0));
            }
            assert(out.contains(x) <==> list.contains(x.0) && has_pair(aw, x) && has_pair(bw, x)
                == shared);
        }
        assert(out.to_set() =~= target);
    }
    found.len()
}

proof fn lemma_one_more_surface(entries: Seq<EntryView>, k: int)
    requires
        0 <= k < entries.len(),
    ensures
        forall|s: Seq<char>| #[trigger]
            lists_surface(entries.take(k + 1), s) <==> lists_surface(entries.take(k), s) || s
                == entries[k].surface,
{
    let longer = entries.take(k + 1);
    let shorter = entries.take(k);
    assert forall|s: Seq<char>| #[trigger] lists_surface(longer, s) <==> lists_surface(shorter, s)
        || s == entries[k].surface by {
        if lists_surface(longer, s) {
            let i = choose|i: int| 0 <= i < longer.len() && (#[trigger] longer[i]).surface == s;
            if i < k {
                assert(shorter[i].surface == s);
            }
        }
        if lists_surface(shorter, s) {
            let i = choose|i: int| 0 <= i < shorter.len() && (#[trigger] shorter[i]).surface == s;
            assert(longer[i].surface == s);
        }
        if s == entries[k].surface {
            assert(longer[k].surface == s);
        }
    }
}

/// A reading with the surface and the cost of its first entry.
pub struct DiffSample {
    pub reading: String,
    pub surface: String,
    pub cost: i16,
}

/// What a `DiffSample` holds.
pub struct SampleView {
    pub reading: Seq<char>,
    pub surface: Seq<char>,
    pub cost: i16,
}

impl View for DiffSample {
    type V = SampleView;

    open spec fn view(&self) -> SampleView {
        SampleView { reading: self.reading@, surface: self.surface@, cost: self.cost }
    }
}

/// The first entry of each of the readings that has any.
pub open spec fn samples(
    words: Map<Seq<char>, Seq<EntryView>>,
    readings: Seq<Seq<char>>,
) -> Seq<SampleView>
    decreases readings.len(),
{
    if readings.len() == 0 {
        Seq::empty()
    } else {
        let before = samples(words, readings.drop_last());
        let r = readings.last();
        if words.contains_key(r) && words[r].len() > 0 {
            before.push(
                SampleView { reading: r, surface: words[r][0].surface, cost: words[r][0].cost },
            )
        } else {
            before
        }
    }
}

/// Whether `s` samples the readings that only `words` has: it shows the first
/// entries of up to `SAMPLE_SIZE` of them, of all of them where there are no more.
pub open spec fn samples_rest(
    words: Map<Seq<char>, Seq<EntryView>>,
    others: Map<Seq<char>, Seq<EntryView>>,
    s: Seq<SampleView>,
) -> bool {
    exists|list: Seq<Seq<char>>|
        list.no_duplicates() && (forall|x: Seq<char>| #[trigger]
            list.contains(x) <==> words.contains_key(x) && !others.contains_key(x)) && s
            == samples(words, #[trigger] dict::at_most(list, SAMPLE_SIZE as nat))
}

/// The first entries of the first readings of a list.
fn sample(d: &TrieDictionary, readings: &Vec<String>) -> (r: Vec<DiffSample>)
    requires
        d.valid(),
    ensures
        text::views(r@) == samples(
            d.words(),
            dict::at_most(text::views(readings@), SAMPLE_SIZE as nat),
        ),
{
    let ghost list = text::views(readings@);
    let n: usize = if readings.len() <= SAMPLE_SIZE {
        readings.len()
    } else {
        SAMPLE_SIZE
    };
    let mut out: Vec<DiffSample> = Vec::new();
    let mut i: usize = 0;
    proof {
        assert(list.take(0) =~= Seq::empty());
        assert(text::views(out@) =~= Seq::empty());
    }
    while i < n
        invariant
            i <= n <= readings@.len(),
            list == text::views(readings@),
            d.valid(),
            text::views(out@) == samples(d.words(), list.take(i as int)),
        decreases n - i,
    {
        let ghost before = text::views(out@);
        proof {
            assert(list.take(i + 1).drop_last() =~= list.take(i as int));
            assert(list.take(i + 1).last() == readings@[i as int]@);
        }
        if let Some(entries) = d.lookup(readings[i].as_str()) {
            proof {
                assert(text::views(entries@).len() == entries@.len());
            }
            if entries.len() > 0 {
                proof {
                    assert(text::views(entries@)[0] == entries@[0]@);
                }
                out.push(
                    DiffSample {
                        reading: readings[i].clone(),
                        surface: entries[0].surface.clone(),
                        cost: entries[0].cost,
                    },
                );
                proof {
                    assert(text::views(out@) =~= before.push(out@.last()@));
                }
            }
        }
        i = i + 1;
    }
    proof {
        assert(list.take(n as int) =~= dict::at_most(list, SAMPLE_SIZE as nat));
    }
    out
}

/// How two dictionaries differ: the readings, and the pairs of reading and surface,
/// that only one has or both have, by number, and samples of the readings that only
/// one has.
pub struct DictDiff {
    pub readings_only_a: usize,
    pub readings_only_b: usize,
    pub readings_both: usize,
    pub pairs_only_a: usize,
    pub pairs_only_b: usize,
    pub pairs_both: usize,
    pub sample_a: Vec<DiffSample>,
    pub sample_b: Vec<DiffSample>,
}

proof fn lemma_reading_count(list: Seq<Seq<char>>, target: Set<Seq<char>>)
    requires
        list.no_duplicates(),
        forall|x: Seq<char>| #[trigger] list.contains(x) <==> target.contains(x),
    ensures
        list.len() == target.len(),
{
    list.unique_seq_to_set();
    assert(list.to_set() =~= target);
}

/// Compares two dictionaries.
pub fn diff(dict_a: &TrieDictionary, dict_b: &TrieDictionary) -> (r: DictDiff)
    requires
        dict_a.valid(),
        dict_b.valid(),
    ensures
        r.readings_only_a == dict_a.words().dom().difference(dict_b.words().dom()).len(),
        r.readings_only_b == dict_b.words().dom().difference(dict_a.words().dom()).len(),
        r.readings_both == dict_a.words().dom().intersect(dict_b.words().dom()).len(),
        r.pairs_only_a == pairs(dict_a.words()).difference(pairs(dict_b.words())).len(),
        r.pairs_only_b == pairs(dict_b.words()).difference(pairs(dict_a.words())).len(),
        r.pairs_both == pairs(dict_a.words()).intersect(pairs(dict_b.words())).len(),
        samples_rest(dict_a.words(), dict_b.words(), text::views(r.sample_a@)),
        samples_rest(dict_b.words(), dict_a.words(), text::views(r.sample_b@)),
{
    let only_a: Vec<String> = readings_where(dict_a, dict_b, false);
    let only_b: Vec<String> = readings_where(dict_b, dict_a, false);
    let both: Vec<String> = readings_where(dict_a, dict_b, true);
    let ghost a = dict_a.words();
    let ghost b = dict_b.words();
    proof {
        lemma_reading_count(text::views(only_a@), a.dom().difference(b.dom()));
        lemma_reading_count(text::views(only_b@), b.dom().difference(a.dom()));
        lemma_reading_count(text::views(both@), a.dom().intersect(b.dom()));
    }
    DictDiff {
        readings_only_a: only_a.len(),
        readings_only_b: only_b.len(),
        readings_both: both.len(),
        pairs_only_a: pairs_where(dict_a, dict_b, false),
        pairs_only_b: pairs_where(dict_b, dict_a, false),
        pairs_both: pairs_where(dict_a, dict_b, true),
        sample_a: sample(dict_a, &only_a),
        sample_b: sample(dict_b, &only_b),
    }
}

} // verus!
