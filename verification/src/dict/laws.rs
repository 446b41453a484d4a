//! What merging, filtering and predicting make of dictionaries, and how their files
//! are laid out.

use vstd::prelude::*;

use super::connection::{self, ConnView};
use super::diff;
use super::merge::{self, MergeOptions};
use super::trie_dict;
use super::EntryView;
use crate::dict::source::table;
use crate::lines;
use crate::ordering::{self, Ranked};
use crate::seqs;

verus! {

/// No two entries have the same surface.
pub open spec fn each_surface_once(s: Seq<EntryView>) -> bool {
    forall|i: int, j: int|
        0 <= i < j < s.len() ==> (#[trigger] s[i]).surface != (#[trigger] s[j]).surface
}

proof fn lemma_place(s: Seq<EntryView>, surface: Seq<char>)
    ensures
        ({
            let i = seqs::first_place(s, merge::of_surface(surface));
            &&& 0 <= i <= s.len()
            &&& i < s.len() ==> s[i].surface == surface
            &&& i == s.len() ==> forall|j: int|
                0 <= j < s.len() ==> (#[trigger] s[j]).surface != surface
        }),
{
    let f = merge::of_surface(surface);
    seqs::lemma_first_from(s, f, 0);
    let i = seqs::first_place(s, f);
    if i == s.len() {
        assert forall|j: int| 0 <= j < s.len() implies (#[trigger] s[j]).surface != surface by {
            assert(!f(s[j]));
        }
    }
}

/// An entry of the other dictionary that is put to the entries of a reading: the
/// surfaces that were there keep their places; one of them gets the entry where the
/// entry is cheaper, and keeps its own else; a new surface comes behind them.
proof fn lemma_absorbed(s: Seq<EntryView>, e: EntryView)
    requires
        each_surface_once(s),
    ensures
        ({
            let t = merge::absorbed(s, e);
            &&& each_surface_once(t)
            &&& s.len() <= t.len() <= s.len() + 1
            &&& t.len() > s.len() <==> (forall|j: int|
                0 <= j < s.len() ==> (#[trigger] s[j]).surface != e.surface)
            &&& t.len() > s.len() ==> t.last() == e
            &&& forall|j: int|
                0 <= j < s.len() ==> (#[trigger] t[j]) == if s[j].surface == e.surface && e.cost
                    < s[j].cost {
                    e
                } else {
                    s[j]
                }
        }),
{
    lemma_place(s, e.surface);
    let i = seqs::first_place(s, merge::of_surface(e.surface));
    let t = merge::absorbed(s, e);
    if i < s.len() {
        assert forall|j: int| 0 <= j < s.len() && j != i implies (#[trigger] s[j]).surface
            != e.surface by {
            if j < i {
                assert(s[j].surface != s[i].surface);
            } else {
                assert(s[i].surface != s[j].surface);
            }
        }
    }
}

/// The cheapest of some entries of a surface, where one is cheaper than `e`; else `e`.
pub open spec fn outbids(b: Seq<EntryView>, e: EntryView, r: EntryView) -> bool {
    &&& r.surface == e.surface
    &&& r == e || (b.contains(r) && r.cost < e.cost)
    &&& forall|k: int|
        0 <= k < b.len() && (#[trigger] b[k]).surface == e.surface ==> r.cost <= b[k].cost
    &&& (forall|k: int|
        0 <= k < b.len() && (#[trigger] b[k]).surface == e.surface ==> e.cost <= b[k].cost) ==> r == e
}

proof fn lemma_all_absorbed(s: Seq<EntryView>, b: Seq<EntryView>)
    requires
        each_surface_once(s),
    ensures
        ({
            let t = merge::all_absorbed(s, b);
            &&& each_surface_once(t)
            &&& s.len() <= t.len()
            &&& forall|j: int| 0 <= j < s.len() ==> outbids(b, s[j], #[trigger] t[j])
            &&& forall|k: int|
                0 <= k < b.len() ==> exists|j: int|
                    0 <= j < t.len() && (#[trigger] t[j]).surface == (#[trigger] b[k]).surface
                        && t[j].cost <= b[k].cost
        }),
    decreases b.len(),
{
    if b.len() > 0 {
        let c = b.drop_last();
        let e = b.last();
        lemma_all_absorbed(s, c);
        let u = merge::all_absorbed(s, c);
        let t = merge::all_absorbed(s, b);
        lemma_absorbed(u, e);
        assert(b[b.len() - 1] == e);
        assert forall|j: int| 0 <= j < s.len() implies outbids(b, s[j], #[trigger] t[j]) by {
            assert(outbids(c, s[j], u[j]));
            if c.contains(u[j]) {
                let k = choose|k: int| 0 <= k < c.len() && c[k] == u[j];
                assert(b[k] == u[j]);
            }
            assert forall|k: int|
                0 <= k < b.len() && (#[trigger] b[k]).surface == s[j].surface implies t[j].cost
                <= b[k].cost by {
                if k < c.len() {
                    assert(c[k] == b[k]);
                }
            }
            if forall|k: int|
                0 <= k < b.len() && (#[trigger] b[k]).surface == s[j].surface ==> s[j].cost
                    <= b[k].cost {
                assert forall|k: int|
                    0 <= k < c.len() && (#[trigger] c[k]).surface == s[j].surface implies s[j].cost
                    <= c[k].cost by {
                    assert(b[k] == c[k]);
                }
            }
        }
        assert forall|k: int| 0 <= k < b.len() implies exists|j: int|
            0 <= j < t.len() && (#[trigger] t[j]).surface == (#[trigger] b[k]).surface && t[j].cost
                <= b[k].cost by {
            if k < c.len() {
                assert(c[k] == b[k]);
                let j = choose|j: int|
                    0 <= j < u.len() && (#[trigger] u[j]).surface == c[k].surface && u[j].cost
                        <= c[k].cost;
                assert(t[j].surface == b[k].surface && t[j].cost <= b[k].cost);
            } else if t.len() > u.len() {
                assert(t[u.len() as int] == e);
            } else {
                let j = choose|j: int| 0 <= j < u.len() && (#[trigger] u[j]).surface == e.surface;
                assert(t[j].surface == b[k].surface && t[j].cost <= b[k].cost);
            }
        }
    }
}

/// Merging keeps the entries of the first dictionary in their places, each replaced by
/// the cheapest entry of its surface in the second where that is cheaper, and puts the
/// surfaces that only the second has behind them, each once. A reading of one
/// dictionary is a reading of the merged one, and no other is.
pub proof fn cheaper_entries_win(
    a: Map<Seq<char>, Seq<EntryView>>,
    b: Map<Seq<char>, Seq<EntryView>>,
    reading: Seq<char>,
)
    requires
        a.contains_key(reading) ==> each_surface_once(a[reading]),
    ensures
        merge::merged(a, b).contains_key(reading) <==> a.contains_key(reading) || b.contains_key(
            reading,
        ),
        merge::merged(a, b).contains_key(reading) ==> each_surface_once(
            merge::merged(a, b)[reading],
        ),
        a.contains_key(reading) && !b.contains_key(reading) ==> merge::merged(a, b)[reading]
            == a[reading],
        a.contains_key(reading) && b.contains_key(reading) ==> a[reading].len() <= merge::merged(
            a,
            b,
        )[reading].len(),
        a.contains_key(reading) && b.contains_key(reading) ==> forall|j: int|
            0 <= j < a[reading].len() ==> outbids(
                b[reading],
                a[reading][j],
                #[trigger] merge::merged(a, b)[reading][j],
            ),
        b.contains_key(reading) ==> forall|k: int|
            0 <= k < b[reading].len() ==> exists|j: int|
                0 <= j < merge::merged(a, b)[reading].len() && (#[trigger] merge::merged(
                    a,
                    b,
                )[reading][j]).surface == (#[trigger] b[reading][k]).surface && merge::merged(
                    a,
                    b,
                )[reading][j].cost <= b[reading][k].cost,
{
    let s = table::entries_at(a, reading);
    let t = table::entries_at(b, reading);
    lemma_all_absorbed(s, t);
}

/// The entries that cost no more than a limit, in their order.
pub open spec fn costs_at_most(max: i16) -> spec_fn(EntryView) -> bool {
    |e: EntryView| e.cost <= max
}

proof fn lemma_cheap(s: Seq<EntryView>, max: i16)
    ensures
        merge::cheap(s, max) == s.filter(costs_at_most(max)),
    decreases s.len(),
{
    reveal(Seq::filter);
    if s.len() > 0 {
        lemma_cheap(s.drop_last(), max);
    }
}

/// A filter keeps the readings that are no longer than its limit and have an entry that
/// costs no more than its limit, and of their entries those that do, in their order. A
/// limit that is not set leaves nothing out.
pub proof fn filters_keep_what_is_short_and_cheap(
    f: MergeOptions,
    words: Map<Seq<char>, Seq<EntryView>>,
    reading: Seq<char>,
)
    ensures
        f.kept(words).contains_key(reading) <==> {
            &&& words.contains_key(reading)
            &&& f.max_reading_len is Some ==> reading.len() <= f.max_reading_len->0
            &&& f.max_cost is Some ==> exists|i: int|
                0 <= i < words[reading].len() && (#[trigger] words[reading][i]).cost
                    <= f.max_cost->0
        },
        f.kept(words).contains_key(reading) && f.max_cost is None ==> f.kept(words)[reading]
            == words[reading],
        f.kept(words).contains_key(reading) && f.max_cost is Some ==> f.kept(words)[reading]
            == words[reading].filter(costs_at_most(f.max_cost->0)),
{
    broadcast use vstd::seq_lib::group_filter_ensures;

    if f.max_cost is Some && words.contains_key(reading) {
        let s = words[reading];
        let p = costs_at_most(f.max_cost->0);
        lemma_cheap(s, f.max_cost->0);
        let t = s.filter(p);
        if t.len() > 0 {
            assert(t.contains(t[0]));
            s.lemma_filter_pred(p, 0);
            s.lemma_filter_contains_rev(p, t[0]);
            let i = choose|i: int| 0 <= i < s.len() && s[i] == t[0];
            assert(s[i].cost <= f.max_cost->0);
        }
        if exists|i: int| 0 <= i < s.len() && (#[trigger] s[i]).cost <= f.max_cost->0 {
            let i = choose|i: int| 0 <= i < s.len() && (#[trigger] s[i]).cost <= f.max_cost->0;
            assert(p(s[i]));
            s.lemma_filter_contains(p, i);
        }
    }
}

proof fn lemma_first_surfaces(s: Seq<(Seq<char>, EntryView)>, k: int)
    requires
        0 <= k < s.len(),
        forall|i: int, j: int| 0 <= i < j < s.len() ==> (#[trigger] s[i]).1.cost <= (
        #[trigger] s[j]).1.cost,
    ensures
        exists|m: int|
            0 <= m < trie_dict::first_of_surface(s).len() && (#[trigger] trie_dict::first_of_surface(
                s,
            )[m]).1.surface == s[k].1.surface && trie_dict::first_of_surface(s)[m].1.cost
                <= s[k].1.cost,
        forall|m: int|
            0 <= m < trie_dict::first_of_surface(s).len() ==> s.contains(
                #[trigger] trie_dict::first_of_surface(s)[m],
            ),
    decreases s.len(),
{
    let t = s.drop_last();
    let d = trie_dict::first_of_surface(s);
    let u = trie_dict::first_of_surface(t);
    assert forall|i: int, j: int| 0 <= i < j < t.len() implies (#[trigger] t[i]).1.cost <= (
    #[trigger] t[j]).1.cost by {
        assert(s[i] == t[i] && s[j] == t[j]);
    }
    if t.len() > 0 {
        lemma_first_surfaces(t, 0);
    }
    assert forall|m: int| 0 <= m < d.len() implies s.contains(#[trigger] d[m]) by {
        if m < u.len() {
            assert(t.contains(u[m]));
            let x = choose|x: int| 0 <= x < t.len() && t[x] == u[m];
            assert(s[x] == d[m]);
        } else {
            assert(s[s.len() - 1] == d[m]);
        }
    }
    let x = if k < t.len() {
        k
    } else if trie_dict::has_surface(t, s.last().1.surface) {
        choose|i: int| 0 <= i < t.len() && (#[trigger] t[i]).1.surface == s.last().1.surface
    } else {
        k
    };
    if x < t.len() {
        lemma_first_surfaces(t, x);
        let m = choose|m: int|
            0 <= m < u.len() && (#[trigger] u[m]).1.surface == t[x].1.surface && u[m].1.cost
                <= t[x].1.cost;
        assert(t[x] == s[x]);
        assert(d[m] == u[m]);
        if x < k {
            assert(s[x].1.cost <= s[k].1.cost);
        }
        assert(d[m].1.surface == s[k].1.surface && d[m].1.cost <= s[k].1.cost);
    } else {
        assert(d[u.len() as int] == s[k]);
    }
}

/// No cheaper prediction is passed over: of the entries of the completions that are
/// scanned, each has one of its surface among the results that costs no more, or the
/// results are full and none of them costs more. Every result is an entry of one of
/// those completions.
pub proof fn predictions_are_the_cheapest(
    words: Map<Seq<char>, Seq<EntryView>>,
    completions: Seq<Seq<char>>,
    max_results: nat,
    scan_limit: nat,
    i: int,
    j: int,
)
    requires
        0 <= i < completions.len(),
        i < scan_limit,
        0 <= j < words[completions[i]].len(),
    ensures
        ({
            let r = trie_dict::ranked_predictions(words, completions, max_results, scan_limit);
            let e = words[completions[i]][j];
            ||| exists|m: int|
                0 <= m < r.len() && (#[trigger] r[m]).1.surface == e.surface && r[m].1.cost
                    <= e.cost
            ||| r.len() == max_results && forall|m: int|
                0 <= m < r.len() ==> (#[trigger] r[m]).1.cost <= e.cost
        }),
{
    let near = super::at_most(completions, scan_limit);
    let flat = trie_dict::flattened(words, near);
    let o = ordering::ranked_order(flat);
    let f = trie_dict::first_of_surface(o);
    let r = trie_dict::ranked_predictions(words, completions, max_results, scan_limit);
    assert(near[i] == completions[i]);
    let x = (completions[i], words[completions[i]][j]);
    lemma_flattened(words, near, i, j);
    ordering::ranked_order_sorts(flat);
    assert(o.contains(x)) by {
        broadcast use vstd::seq_lib::group_to_multiset_ensures;

        assert(flat.to_multiset().contains(x));
        assert(o.to_multiset().contains(x));
    }
    let k = choose|k: int| 0 <= k < o.len() && o[k] == x;
    assert forall|a: int, b: int| 0 <= a < b < o.len() implies (#[trigger] o[a]).1.cost <= (
    #[trigger] o[b]).1.cost by {
        assert(o[a].rank() <= o[b].rank());
    }
    lemma_first_surfaces(o, k);
    let m = choose|m: int|
        0 <= m < f.len() && (#[trigger] f[m]).1.surface == o[k].1.surface && f[m].1.cost
            <= o[k].1.cost;
    trie_dict::ranked_predictions_are_sorted_and_distinct(words, completions, f.len(), scan_limit);
    assert(trie_dict::ranked_predictions(words, completions, f.len(), scan_limit) == f);
    if m < r.len() {
        assert(r[m] == f[m]);
    } else {
        assert(r == f.take(max_results as int));
        assert forall|n: int| 0 <= n < r.len() implies (#[trigger] r[n]).1.cost
            <= x.1.cost by {
            assert(r[n] == f[n]);
            assert(f[n].1.cost <= f[m].1.cost);
        }
    }
}

proof fn lemma_flattened(
    words: Map<Seq<char>, Seq<EntryView>>,
    readings: Seq<Seq<char>>,
    i: int,
    j: int,
)
    requires
        0 <= i < readings.len(),
        0 <= j < words[readings[i]].len(),
    ensures
        trie_dict::flattened(words, readings).contains((readings[i], words[readings[i]][j])),
    decreases readings.len(),
{
    let t = readings.drop_last();
    let a = trie_dict::flattened(words, t);
    let b = trie_dict::with_reading(readings.last(), words[readings.last()]);
    let s = trie_dict::flattened(words, readings);
    let x = (readings[i], words[readings[i]][j]);
    if i < t.len() {
        lemma_flattened(words, t, i, j);
        let k = choose|k: int| 0 <= k < a.len() && a[k] == x;
        assert(s[k] == x);
    } else {
        assert(s[a.len() + j] == b[j]);
        assert(b[j] == x);
    }
}

/// The cost of going from one id to another stands in the row of the left id and the
/// column of the right id.
pub proof fn costs_stand_row_by_row(v: ConnView, left: u16, right: u16)
    requires
        v.complete(),
        left < v.num_ids,
        right < v.num_ids,
    ensures
        (left as int * v.num_ids as int + right as int) < v.costs.len(),
        v.cost(left, right) == v.costs[left as int * v.num_ids as int + right as int],
{
    assert(left * v.num_ids + right < v.num_ids * v.num_ids) by (nonlinear_arith)
        requires
            left < v.num_ids,
            right < v.num_ids,
    ;
}

/// Function words have the ids of a range that does not start at 0; an id without a
/// role is that of a content word.
pub proof fn function_words_have_a_range(v: ConnView, id: u16)
    ensures
        v.function_word(id) <==> v.fw_min != 0 && v.fw_min <= id && id <= v.fw_max,
        (id as int) < v.roles.len() ==> v.role(id) == v.roles[id as int],
        (id as int) >= v.roles.len() ==> v.role(id) == 0,
{
}

/// The beginning of a matrix file: four letters, the version, the number of ids and
/// the range of the function words, each in two bytes with the lower one first; a role
/// for each id where there are roles; and then the costs.
pub proof fn matrix_files_have_a_header(v: ConnView)
    requires
        v.complete(),
    ensures
        ({
            let s = v.image();
            &&& s.len() == 11 + v.roles.len() + 2 * v.costs.len()
            &&& s[0] == 0x4C && s[1] == 0x58 && s[2] == 0x43 && s[3] == 0x58
            &&& s[4] == if v.roles.len() == 0 {
                2u8
            } else {
                3u8
            }
            &&& s[5] + 256 * s[6] == v.num_ids
            &&& s[7] + 256 * s[8] == v.fw_min
            &&& s[9] + 256 * s[10] == v.fw_max
            &&& s.subrange(11, 11 + v.roles.len() as int) == v.roles
        }),
{
    lemma_cost_bytes(v.costs);
    let s = v.image();
    assert(s.subrange(11, 11 + v.roles.len() as int) =~= v.roles);
}

proof fn lemma_cost_bytes(costs: Seq<i16>)
    ensures
        connection::cost_bytes(costs).len() == 2 * costs.len(),
    decreases costs.len(),
{
    if costs.len() > 0 {
        lemma_cost_bytes(costs.drop_last());
    }
}

/// What is refused as a matrix file: fewer than five bytes, other letters at its start,
/// a version but 1, 2 or 3, and less than its header says.
pub proof fn broken_matrix_files_are_refused(s: Seq<u8>)
    ensures
        s.len() < 5 ==> connection::image_fault(s) == Some(super::DictError::InvalidHeader),
        s.len() >= 5 && !(s[0] == 0x4C && s[1] == 0x58 && s[2] == 0x43 && s[3] == 0x58)
            ==> connection::image_fault(s) == Some(super::DictError::InvalidMagic),
        s.len() >= 5 && s[0] == 0x4C && s[1] == 0x58 && s[2] == 0x43 && s[3] == 0x58 && (s[4] == 0
            || s[4] > 3) ==> connection::image_fault(s) == Some(
            super::DictError::UnsupportedVersion(s[4]),
        ),
        s.len() >= 7 && s[0] == 0x4C && s[1] == 0x58 && s[2] == 0x43 && s[3] == 0x58 && 1 <= s[4]
            <= 3 ==> {
            let n = s[5] + 256 * s[6];
            let h = if s[4] == 1 {
                7
            } else if s[4] == 2 {
                11
            } else {
                11 + n
            };
            (connection::image_fault(s) is None <==> s.len() >= h + 2 * (n * n)) && (
            connection::image_fault(s) is Some ==> connection::image_fault(s) == Some(
                super::DictError::InvalidHeader,
            ))
        },
{
    if s.len() >= 5 {
        let t = s.take(4);
        let m = connection::MAGIC@;
        assert(t == m <==> s[0] == 0x4C && s[1] == 0x58 && s[2] == 0x43 && s[3] == 0x58) by {
            assert(t[0] == s[0] && t[1] == s[1] && t[2] == s[2] && t[3] == s[3]);
            if s[0] == 0x4C && s[1] == 0x58 && s[2] == 0x43 && s[3] == 0x58 {
                assert(t =~= m);
            }
        }
    }
}

/// What is refused as a dictionary file: fewer than five bytes, other letters at its
/// start, a version but 2, and less than the 13 bytes of its header and the two
/// lengths in it.
pub proof fn broken_dictionary_files_are_refused(s: Seq<u8>)
    ensures
        s.len() < 5 ==> trie_dict::header_fault(s) == Some(super::DictError::InvalidHeader),
        s.len() >= 5 && !(s[0] == 0x4C && s[1] == 0x58 && s[2] == 0x44 && s[3] == 0x58)
            ==> trie_dict::header_fault(s) == Some(super::DictError::InvalidMagic),
        s.len() >= 5 && s[0] == 0x4C && s[1] == 0x58 && s[2] == 0x44 && s[3] == 0x58 && s[4] != 2
            ==> trie_dict::header_fault(s) == Some(super::DictError::UnsupportedVersion(s[4])),
        s.len() >= 5 && s[0] == 0x4C && s[1] == 0x58 && s[2] == 0x44 && s[3] == 0x58 && s[4] == 2
            ==> {
            &&& trie_dict::header_fault(s) is None <==> s.len() >= 13 && s.len() >= 13
                + trie_dict::trie_len(s) + trie_dict::values_len(s)
            &&& trie_dict::header_fault(s) is Some ==> trie_dict::header_fault(s) == Some(
                super::DictError::InvalidHeader,
            )
        },
{
    if s.len() >= 5 {
        let t = s.take(4);
        let m = trie_dict::MAGIC@;
        assert(t == m <==> s[0] == 0x4C && s[1] == 0x58 && s[2] == 0x44 && s[3] == 0x58) by {
            assert(t[0] == s[0] && t[1] == s[1] && t[2] == s[2] && t[3] == s[3]);
            if s[0] == 0x4C && s[1] == 0x58 && s[2] == 0x44 && s[3] == 0x58 {
                assert(t =~= m);
            }
        }
    }
}

proof fn lemma_decimal(s: Seq<char>)
    requires
        forall|i: int| 0 <= i < s.len() ==> lines::digit(#[trigger] s[i]),
    ensures
        lines::decimal(s) >= 0,
    decreases s.len(),
{
    if s.len() > 0 {
        let t = s.drop_last();
        assert forall|i: int| 0 <= i < t.len() implies lines::digit(#[trigger] t[i]) by {
            assert(t[i] == s[i]);
        }
        lemma_decimal(t);
        assert(lines::digit(s[s.len() - 1]));
    }
}

proof fn lemma_natural(s: Seq<char>)
    ensures
        lines::natural_number(s) is Some ==> lines::natural_number(s)->0 >= 0,
{
    if lines::natural_number(s) is Some {
        if s[0] == '+' {
            lemma_decimal(s.skip(1));
        } else {
            lemma_decimal(s);
        }
    }
}

/// A text with three words on each line sets the costs one after the other: right id,
/// left id, cost; pairs that no line names cost nothing. A blank line changes nothing,
/// and a line of another kind spoils the text.
pub proof fn triples_set_costs(n: u16, rows: Seq<Seq<char>>, row: Seq<char>)
    ensures
        ({
            let w = lines::words(row);
            let before = connection::triples(n, rows);
            let after = connection::triples(n, rows.push(row));
            let right = lines::natural_number(w[0]);
            let left = lines::natural_number(w[1]);
            let cost = lines::whole_number(w[2]);
            let fits = w.len() == 3 && right is Some && right->0 < n && left is Some && left->0 < n
                && cost is Some && -32768 <= cost->0 <= 32767;
            &&& before is None ==> after is None
            &&& before is Some && w.len() == 0 ==> after == before
            &&& before is Some && w.len() > 0 && !fits ==> after is None
            &&& before is Some && fits ==> after == Some(
                before->0.update(left->0 * n as int + right->0, cost->0 as i16),
            )
        }),
        connection::triples(n, Seq::empty()) is Some,
        connection::triples(n, Seq::empty())->0.len() == n as int * n as int,
        forall|i: int|
            0 <= i < n as int * n as int ==> #[trigger] connection::triples(n, Seq::empty())->0[i]
                == 0,
{
    assert(rows.push(row).drop_last() =~= rows);
    let w = lines::words(row);
    lemma_natural(w[0]);
    lemma_natural(w[1]);
    assert(n as int * n as int >= 0) by (nonlinear_arith)
        requires
            n >= 0,
    ;
}

/// A text with one cost on each line gives the costs in order.
pub proof fn columns_list_costs(rows: Seq<Seq<char>>, row: Seq<char>)
    ensures
        ({
            let w = lines::words(row);
            let before = connection::column(rows);
            let after = connection::column(rows.push(row));
            let cost = lines::whole_number(w[0]);
            let fits = w.len() == 1 && cost is Some && -32768 <= cost->0 <= 32767;
            &&& before is None ==> after is None
            &&& before is Some && w.len() == 0 ==> after == before
            &&& before is Some && w.len() > 0 && !fits ==> after is None
            &&& before is Some && fits ==> after == Some(before->0.push(cost->0 as i16))
        }),
        connection::column(Seq::empty()) == Some(Seq::<i16>::empty()),
{
    assert(rows.push(row).drop_last() =~= rows);
}

/// A sample shows the first entry of each reading that has one, in the order of the
/// readings, and of 20 readings at most.
pub proof fn samples_show_first_entries(
    words: Map<Seq<char>, Seq<EntryView>>,
    others: Map<Seq<char>, Seq<EntryView>>,
    readings: Seq<Seq<char>>,
    r: Seq<char>,
    s: Seq<diff::SampleView>,
)
    ensures
        ({
            let before = diff::samples(words, readings);
            let after = diff::samples(words, readings.push(r));
            after == if words.contains_key(r) && words[r].len() > 0 {
                before.push(
                    diff::SampleView {
                        reading: r,
                        surface: words[r][0].surface,
                        cost: words[r][0].cost,
                    },
                )
            } else {
                before
            }
        }),
        diff::samples(words, Seq::empty()).len() == 0,
        diff::samples_rest(words, others, s) ==> s.len() <= 20 && forall|i: int|
            0 <= i < s.len() ==> words.contains_key((#[trigger] s[i]).reading)
                && !others.contains_key(s[i].reading) && words[s[i].reading].len() > 0
                && s[i].surface == words[s[i].reading][0].surface && s[i].cost
                == words[s[i].reading][0].cost,
{
    assert(readings.push(r).drop_last() =~= readings);
    if diff::samples_rest(words, others, s) {
        let list = choose|list: Seq<Seq<char>>|
            list.no_duplicates() && (forall|x: Seq<char>| #[trigger]
                list.contains(x) <==> words.contains_key(x) && !others.contains_key(x)) && s
                == diff::samples(words, #[trigger] super::at_most(list, diff::SAMPLE_SIZE as nat));
        let near = super::at_most(list, diff::SAMPLE_SIZE as nat);
        lemma_samples(words, near);
        assert forall|i: int| 0 <= i < s.len() implies words.contains_key((#[trigger] s[i]).reading)
            && !others.contains_key(s[i].reading) && words[s[i].reading].len() > 0 && s[i].surface
            == words[s[i].reading][0].surface && s[i].cost == words[s[i].reading][0].cost by {
            assert(near.contains(s[i].reading));
            let k = choose|k: int| 0 <= k < near.len() && near[k] == s[i].reading;
            assert(list[k] == s[i].reading);
            assert(list.contains(s[i].reading));
        }
    }
}

proof fn lemma_samples(words: Map<Seq<char>, Seq<EntryView>>, readings: Seq<Seq<char>>)
    ensures
        ({
            let s = diff::samples(words, readings);
            &&& s.len() <= readings.len()
            &&& forall|i: int|
                0 <= i < s.len() ==> readings.contains((#[trigger] s[i]).reading)
                    && words[s[i].reading].len() > 0 && s[i].surface
                    == words[s[i].reading][0].surface && s[i].cost == words[s[i].reading][0].cost
        }),
    decreases readings.len(),
{
    if readings.len() > 0 {
        let t = readings.drop_last();
        lemma_samples(words, t);
        let s = diff::samples(words, readings);
        let u = diff::samples(words, t);
        assert forall|i: int| 0 <= i < s.len() implies readings.contains((#[trigger] s[i]).reading)
            && words[s[i].reading].len() > 0 && s[i].surface == words[s[i].reading][0].surface
            && s[i].cost == words[s[i].reading][0].cost by {
            if i < u.len() {
                assert(t.contains(u[i].reading));
                let k = choose|k: int| 0 <= k < t.len() && t[k] == u[i].reading;
                assert(readings[k] == s[i].reading);
            } else {
                assert(readings[readings.len() - 1] == s[i].reading);
            }
        }
    }
}

/// What a matrix file holds: the number of ids behind the version; the range of the
/// function words and the roles in the versions that have them; and the costs, two
/// bytes each with the lower one first, negative ones counted from 65536 down.
pub proof fn matrix_files_hold_their_costs(s: Seq<u8>, i: int)
    requires
        connection::image_fault(s) is None,
    ensures
        ({
            let v = connection::read_image(s);
            let n = s[5] + 256 * s[6];
            let h = if s[4] == 1 {
                7
            } else if s[4] == 2 {
                11
            } else {
                11 + n
            };
            &&& v.num_ids == n
            &&& s[4] == 1 ==> v.fw_min == 0 && v.fw_max == 0
            &&& s[4] > 1 ==> v.fw_min == s[7] + 256 * s[8] && v.fw_max == s[9] + 256 * s[10]
            &&& s[4] < 3 ==> v.roles.len() == 0
            &&& s[4] == 3 ==> v.roles == s.subrange(11, 11 + n)
            &&& v.costs.len() == n * n
            &&& 0 <= i < n * n ==> v.costs[i] == s[h + 2 * i] + 256 * s[h + 2 * i + 1] || v.costs[i]
                == s[h + 2 * i] + 256 * s[h + 2 * i + 1] - 65536
        }),
{
    let n = s[5] + 256 * s[6];
    assert(n * n >= 0) by (nonlinear_arith)
        requires
            n >= 0,
    ;
    assert(connection::number_at(s, 5) == n);
}

} // verus!
