//! What is offered for a reading, and in which order.

use vstd::prelude::*;

use crate::candidates::{self, Lexicon};
use crate::converter::convert;
use crate::converter::cost;
use crate::dict::trie_dict;
use crate::dict::EntryView;
use crate::history_laws;
use crate::ordering::{self, Ranked};
use crate::seqs;
use crate::text;
use crate::user_history::HistoryView;

verus! {

/// The predictions that are ranked by history: the cheapest entries of the first 1000
/// completions, 200 of them or as many as are asked for, whichever is more.
pub open spec fn fetched(lex: Lexicon, reading: Seq<char>, max_results: nat) -> Seq<
    (Seq<char>, EntryView),
> {
    trie_dict::ranked_predictions(
        lex.words,
        (lex.completions)(reading),
        if max_results < 200 {
            200
        } else {
            max_results
        },
        1000,
    )
}

/// The boost of a prediction.
pub open spec fn boost(h: HistoryView, p: (Seq<char>, EntryView)) -> i64 {
    h.unigram_boost(p.0, p.1.surface)
}

/// Of two predictions that are offered, the one with the larger boost comes first,
/// and with the same boost the cheaper one.
pub proof fn boosted_predictions_come_first(
    lex: Lexicon,
    reading: Seq<char>,
    max_results: nat,
    i: int,
    j: int,
)
    requires
        lex.history is Some,
        0 <= i < j < candidates::predictions(lex, reading, max_results).len(),
    ensures
        ({
            let h = lex.history->0;
            let p = candidates::predictions(lex, reading, max_results);
            &&& boost(h, p[i]) >= boost(h, p[j])
            &&& boost(h, p[i]) == boost(h, p[j]) ==> p[i].1.cost <= p[j].1.cost
        }),
{
    let h = lex.history->0;
    let s = fetched(lex, reading, max_results);
    history_laws::ranking_goes_by_boost(h, s);
    let r = h.ranked(s);
    let p = candidates::predictions(lex, reading, max_results);
    assert(p[i] == r[i] && p[j] == r[j]);
}

/// Every prediction that is offered was fetched, and one that was fetched is left out
/// only for want of room, where all that are offered have a boost as large as its own.
pub proof fn only_less_boosted_predictions_are_left_out(
    lex: Lexicon,
    reading: Seq<char>,
    max_results: nat,
    x: (Seq<char>, EntryView),
    i: int,
)
    requires
        lex.history is Some,
        fetched(lex, reading, max_results).contains(x),
        !candidates::predictions(lex, reading, max_results).contains(x),
    ensures
        candidates::predictions(lex, reading, max_results).len() == max_results,
        0 <= i < max_results ==> boost(
            lex.history->0,
            candidates::predictions(lex, reading, max_results)[i],
        ) >= boost(lex.history->0, x),
        0 <= i < max_results ==> fetched(lex, reading, max_results).contains(
            candidates::predictions(lex, reading, max_results)[i],
        ),
{
    let h = lex.history->0;
    let s = fetched(lex, reading, max_results);
    history_laws::ranking_goes_by_boost(h, s);
    let r = h.ranked(s);
    let p = candidates::predictions(lex, reading, max_results);
    assert(r.contains(x));
    let m = choose|m: int| 0 <= m < r.len() && r[m] == x;
    if r.len() <= max_results {
        assert(p == r);
    }
    assert(p == r.take(max_results as int));
    if m < max_results {
        assert(p[m] == x);
    }
    if 0 <= i < max_results {
        assert(p[i] == r[i]);
        assert(r.contains(r[i]));
        assert(boost(h, r[i]) >= boost(h, r[m]));
    }
}

/// Without a history the predictions are the cheapest entries of the first 1000
/// completions.
pub proof fn predictions_without_history_are_cheapest(
    lex: Lexicon,
    reading: Seq<char>,
    max_results: nat,
)
    requires
        lex.history is None,
    ensures
        candidates::predictions(lex, reading, max_results) == trie_dict::ranked_predictions(
            lex.words,
            (lex.completions)(reading),
            max_results,
            1000,
        ),
{
}

/// `a` stands before `b` in the list.
pub open spec fn comes_before(s: Seq<Seq<char>>, a: Seq<char>, b: Seq<char>) -> bool {
    exists|i: int, j: int| 0 <= i < j < s.len() && #[trigger] s[i] == a && #[trigger] s[j] == b
}

proof fn lemma_distinct_grows<T>(s: Seq<T>, n: int)
    requires
        0 <= n <= s.len(),
    ensures
        seqs::distinct(s.take(n)).len() <= seqs::distinct(s).len(),
        seqs::distinct(s).take(seqs::distinct(s.take(n)).len() as int) == seqs::distinct(s.take(n)),
    decreases s.len(),
{
    if n == s.len() {
        assert(s.take(n) =~= s);
        assert(seqs::distinct(s).take(seqs::distinct(s).len() as int) =~= seqs::distinct(s));
    } else {
        let t = s.drop_last();
        assert(t.take(n) =~= s.take(n));
        lemma_distinct_grows(t, n);
        let d = seqs::distinct(s.take(n));
        assert(seqs::distinct(s).take(d.len() as int) =~= seqs::distinct(t).take(d.len() as int));
    }
}

/// Thinning out keeps the order in which items come first: an item comes before each
/// one that first occurs behind it.
proof fn lemma_order(s: Seq<Seq<char>>, i: int, j: int)
    requires
        0 <= i < j < s.len(),
        !s.take(j).contains(s[j]),
    ensures
        comes_before(seqs::distinct(s), s[i], s[j]),
{
    let a = s.take(j);
    let b = s.take(j + 1);
    let d = seqs::distinct(s);
    seqs::distinct_keeps_each_once(a);
    assert(a[i] == s[i]);
    assert(a.contains(s[i]));
    let da = seqs::distinct(a);
    assert(da.contains(s[i]));
    let x = choose|x: int| 0 <= x < da.len() && da[x] == s[i];
    assert(b.drop_last() =~= a);
    assert(b.last() == s[j]);
    assert(!da.contains(s[j]));
    let db = seqs::distinct(b);
    assert(db == da.push(s[j]));
    lemma_distinct_grows(s, j + 1);
    assert(d.take(db.len() as int) == db);
    assert(d[x] == d.take(db.len() as int)[x]);
    assert(d[da.len() as int] == d.take(db.len() as int)[da.len() as int]);
    assert(d[x] == s[i] && d[da.len() as int] == s[j]);
}

proof fn lemma_nonempty(s: Seq<Seq<char>>, x: Seq<char>)
    ensures
        candidates::nonempty(s).contains(x) <==> s.contains(x) && x.len() > 0,
    decreases s.len(),
{
    if s.len() > 0 {
        let t = s.drop_last();
        lemma_nonempty(t, x);
        let n = candidates::nonempty(s);
        let m = candidates::nonempty(t);
        if s.contains(x) {
            let i = choose|i: int| 0 <= i < s.len() && s[i] == x;
            if i < t.len() {
                assert(t[i] == x);
            }
        }
        if t.contains(x) {
            let i = choose|i: int| 0 <= i < t.len() && t[i] == x;
            assert(s[i] == x);
        }
        if m.contains(x) {
            let i = choose|i: int| 0 <= i < m.len() && m[i] == x;
            assert(n[i] == x);
        }
        if s.last() == x && x.len() > 0 {
            assert(n[n.len() - 1] == x);
        }
        if n.contains(x) {
            let i = choose|i: int| 0 <= i < n.len() && n[i] == x;
            if i < m.len() {
                assert(m[i] == x);
            } else {
                assert(s[s.len() - 1] == x);
            }
        }
    }
}

proof fn lemma_without(s: Seq<Seq<char>>, item: Seq<char>, x: Seq<char>)
    ensures
        candidates::without(s, item).contains(x) <==> s.contains(x) && x != item,
    decreases s.len(),
{
    if s.len() > 0 {
        let t = s.drop_last();
        lemma_without(t, item, x);
        let n = candidates::without(s, item);
        let m = candidates::without(t, item);
        if s.contains(x) {
            let i = choose|i: int| 0 <= i < s.len() && s[i] == x;
            if i < t.len() {
                assert(t[i] == x);
            }
        }
        if t.contains(x) {
            let i = choose|i: int| 0 <= i < t.len() && t[i] == x;
            assert(s[i] == x);
        }
        if m.contains(x) {
            let i = choose|i: int| 0 <= i < m.len() && m[i] == x;
            assert(n[i] == x);
        }
        if s.last() == x && x != item {
            assert(n[n.len() - 1] == x);
        }
        if n.contains(x) {
            let i = choose|i: int| 0 <= i < n.len() && n[i] == x;
            if i < m.len() {
                assert(m[i] == x);
            } else {
                assert(s[s.len() - 1] == x);
            }
        }
    }
}

/// `x` is the surface of a conversion of the reading.
pub open spec fn is_conversion(lex: Lexicon, reading: Seq<char>, x: Seq<char>) -> bool {
    let paths = convert::nbest_converted(
        lex.words,
        cost::default_model(lex.conn),
        lex.conn,
        reading,
        5,
    );
    exists|i: int| 0 <= i < paths.len() && candidates::surface_of(#[trigger] paths[i]) == x
}

/// `x` is the surface of a prediction.
pub open spec fn is_prediction(
    lex: Lexicon,
    reading: Seq<char>,
    max_results: nat,
    x: Seq<char>,
) -> bool {
    let p = candidates::predictions(lex, reading, max_results);
    exists|i: int| 0 <= i < p.len() && (#[trigger] p[i]).1.surface == x
}

/// `x` is the surface of an entry of the reading.
pub open spec fn is_entry(lex: Lexicon, reading: Seq<char>, x: Seq<char>) -> bool {
    lex.words.contains_key(reading) && exists|i: int|
        0 <= i < lex.words[reading].len() && (#[trigger] lex.words[reading][i]).surface == x
}

/// The conversions with the reading, as they head the list.
spec fn head(lex: Lexicon, reading: Seq<char>) -> Seq<Seq<char>> {
    candidates::with_kana(
        seqs::distinct(
            candidates::nonempty(
                candidates::path_surfaces(
                    convert::nbest_converted(
                        lex.words,
                        cost::default_model(lex.conn),
                        lex.conn,
                        reading,
                        5,
                    ),
                ),
            ),
        ),
        reading,
        candidates::kana_promoted(lex, reading),
    )
}

spec fn predicted(lex: Lexicon, reading: Seq<char>, max_results: nat) -> Seq<Seq<char>> {
    candidates::nonempty(
        candidates::surfaces_of(candidates::predictions(lex, reading, max_results)),
    )
}

spec fn entries(lex: Lexicon, reading: Seq<char>) -> Seq<Seq<char>> {
    candidates::entry_surfaces(candidates::looked_up(lex, reading))
}

proof fn lemma_head(lex: Lexicon, reading: Seq<char>, x: Seq<char>)
    ensures
        head(lex, reading).contains(x) <==> x == reading || (x.len() > 0 && is_conversion(
            lex,
            reading,
            x,
        )),
{
    let paths = convert::nbest_converted(
        lex.words,
        cost::default_model(lex.conn),
        lex.conn,
        reading,
        5,
    );
    let s = candidates::path_surfaces(paths);
    let n = candidates::nonempty(s);
    let d = seqs::distinct(n);
    lemma_nonempty(s, x);
    seqs::distinct_keeps_each_once(n);
    lemma_without(d, reading, x);
    assert(s.contains(x) <==> is_conversion(lex, reading, x)) by {
        if s.contains(x) {
            let i = choose|i: int| 0 <= i < s.len() && s[i] == x;
            assert(candidates::surface_of(paths[i]) == x);
        }
        if is_conversion(lex, reading, x) {
            let i = choose|i: int|
                0 <= i < paths.len() && candidates::surface_of(#[trigger] paths[i]) == x;
            assert(s[i] == x);
        }
    }
    assert(d.contains(x) <==> s.contains(x) && x.len() > 0);
    let h = head(lex, reading);
    if candidates::kana_promoted(lex, reading) {
        let w = candidates::without(d, reading);
        assert(h =~= seq![reading] + w);
        if w.contains(x) {
            let i = choose|i: int| 0 <= i < w.len() && w[i] == x;
            assert(h[i + 1] == x);
        }
        assert(h[0] == reading);
        if h.contains(x) {
            let i = choose|i: int| 0 <= i < h.len() && h[i] == x;
            if i > 0 {
                assert(w[i - 1] == x);
            }
        }
    } else if d.contains(reading) {
        assert(h == d);
    } else {
        assert(h == d.push(reading));
        assert(h[d.len() as int] == reading);
        if d.contains(x) {
            let i = choose|i: int| 0 <= i < d.len() && d[i] == x;
            assert(h[i] == x);
        }
        if h.contains(x) {
            let i = choose|i: int| 0 <= i < h.len() && h[i] == x;
            if i < d.len() {
                assert(d[i] == x);
            }
        }
    }
}

proof fn lemma_predicted(lex: Lexicon, reading: Seq<char>, max_results: nat, x: Seq<char>)
    ensures
        predicted(lex, reading, max_results).contains(x) <==> x.len() > 0 && is_prediction(
            lex,
            reading,
            max_results,
            x,
        ),
{
    let p = candidates::predictions(lex, reading, max_results);
    let s = candidates::surfaces_of(p);
    lemma_nonempty(s, x);
    if s.contains(x) {
        let i = choose|i: int| 0 <= i < s.len() && s[i] == x;
        assert(p[i].1.surface == x);
    }
    if is_prediction(lex, reading, max_results, x) {
        let i = choose|i: int| 0 <= i < p.len() && (#[trigger] p[i]).1.surface == x;
        assert(s[i] == x);
    }
}

proof fn lemma_entries(lex: Lexicon, reading: Seq<char>, x: Seq<char>)
    ensures
        entries(lex, reading).contains(x) <==> is_entry(lex, reading, x),
{
    let e = candidates::looked_up(lex, reading);
    let s = entries(lex, reading);
    if lex.words.contains_key(reading) {
        let w = lex.words[reading];
        if lex.history is Some {
            history_laws::reordering_goes_by_boost(lex.history->0, reading, w);
        }
        if s.contains(x) {
            let i = choose|i: int| 0 <= i < s.len() && s[i] == x;
            assert(e.contains(e[i]));
            assert(w.contains(e[i]));
            let k = choose|k: int| 0 <= k < w.len() && w[k] == e[i];
            assert(w[k].surface == x);
        }
        if is_entry(lex, reading, x) {
            let k = choose|k: int| 0 <= k < w.len() && (#[trigger] w[k]).surface == x;
            assert(w.contains(w[k]));
            assert(e.contains(w[k]));
            let i = choose|i: int| 0 <= i < e.len() && e[i] == w[k];
            assert(s[i] == x);
        }
    }
}

spec fn all(lex: Lexicon, reading: Seq<char>, max_results: nat) -> Seq<Seq<char>> {
    head(lex, reading) + predicted(lex, reading, max_results) + entries(lex, reading)
}

proof fn lemma_all(lex: Lexicon, reading: Seq<char>, max_results: nat, x: Seq<char>)
    ensures
        all(lex, reading, max_results).contains(x) <==> head(lex, reading).contains(x)
            || predicted(lex, reading, max_results).contains(x) || entries(lex, reading).contains(x),
{
    let a = head(lex, reading);
    let b = predicted(lex, reading, max_results);
    let c = entries(lex, reading);
    let s = all(lex, reading, max_results);
    if a.contains(x) {
        let i = choose|i: int| 0 <= i < a.len() && a[i] == x;
        assert(s[i] == x);
    }
    if b.contains(x) {
        let i = choose|i: int| 0 <= i < b.len() && b[i] == x;
        assert(s[a.len() + i] == x);
    }
    if c.contains(x) {
        let i = choose|i: int| 0 <= i < c.len() && c[i] == x;
        assert(s[a.len() + b.len() + i] == x);
    }
    if s.contains(x) {
        let i = choose|i: int| 0 <= i < s.len() && s[i] == x;
        if i < a.len() {
            assert(a[i] == x);
        } else if i < a.len() + b.len() {
            assert(b[i - a.len()] == x);
        } else {
            assert(c[i - a.len() - b.len()] == x);
        }
    }
}

/// What is offered for a reading that is no punctuation mark: the reading itself, the
/// surfaces of its conversions and of the predictions, and those of its entries, and
/// nothing else. The conversions are the five best, and the katakana form.
pub proof fn candidates_are_complete(
    lex: Lexicon,
    reading: Seq<char>,
    max_results: nat,
    x: Seq<char>,
)
    requires
        reading.len() > 0,
        candidates::alternatives(reading) is None,
    ensures
        candidates::candidates(lex, reading, max_results).surfaces.contains(x) <==> {
            ||| x == reading
            ||| x.len() > 0 && is_conversion(lex, reading, x)
            ||| x.len() > 0 && is_prediction(lex, reading, max_results, x)
            ||| is_entry(lex, reading, x)
        },
        candidates::candidates(lex, reading, max_results).paths == convert::nbest_converted(
            lex.words,
            cost::default_model(lex.conn),
            lex.conn,
            reading,
            5,
        ),
{
    lemma_head(lex, reading, x);
    lemma_predicted(lex, reading, max_results, x);
    lemma_entries(lex, reading, x);
    lemma_all(lex, reading, max_results, x);
    seqs::distinct_keeps_each_once(all(lex, reading, max_results));
    assert(candidates::candidates(lex, reading, max_results).surfaces == seqs::distinct(
        all(lex, reading, max_results),
    ));
}

/// The first place of an item.
proof fn lemma_first_occurrence(s: Seq<Seq<char>>, n: int, x: Seq<char>) -> (j: int)
    requires
        0 <= n <= s.len(),
        s.contains(x),
        !s.take(n).contains(x),
    ensures
        n <= j < s.len(),
        s[j] == x,
        !s.take(j).contains(x),
    decreases s.len() - n,
{
    if n == s.len() {
        assert(s.take(n) =~= s);
        n
    } else if s[n] == x {
        n
    } else {
        let t = s.take(n + 1);
        if t.contains(x) {
            let k = choose|k: int| 0 <= k < t.len() && t[k] == x;
            assert(s.take(n)[k] == x);
        }
        lemma_first_occurrence(s, n + 1, x)
    }
}

/// Conversions and the reading itself stand before what is only a prediction or an
/// entry.
pub proof fn conversions_come_before_predictions(
    lex: Lexicon,
    reading: Seq<char>,
    max_results: nat,
    a: Seq<char>,
    b: Seq<char>,
)
    requires
        reading.len() > 0,
        candidates::alternatives(reading) is None,
        a == reading || (a.len() > 0 && is_conversion(lex, reading, a)),
        b != reading,
        !is_conversion(lex, reading, b),
        (b.len() > 0 && is_prediction(lex, reading, max_results, b)) || is_entry(lex, reading, b),
    ensures
        comes_before(candidates::candidates(lex, reading, max_results).surfaces, a, b),
{
    let h = head(lex, reading);
    let s = all(lex, reading, max_results);
    lemma_head(lex, reading, a);
    lemma_head(lex, reading, b);
    lemma_predicted(lex, reading, max_results, b);
    lemma_entries(lex, reading, b);
    lemma_all(lex, reading, max_results, b);
    let i = choose|i: int| 0 <= i < h.len() && h[i] == a;
    assert(s.take(h.len() as int) =~= h);
    let j = lemma_first_occurrence(s, h.len() as int, b);
    assert(s[i] == a);
    lemma_order(s, i, j);
}

/// Predictions stand before what is only an entry of the reading.
pub proof fn predictions_come_before_entries(
    lex: Lexicon,
    reading: Seq<char>,
    max_results: nat,
    a: Seq<char>,
    b: Seq<char>,
)
    requires
        reading.len() > 0,
        candidates::alternatives(reading) is None,
        a.len() > 0,
        is_prediction(lex, reading, max_results, a),
        b != reading,
        !is_conversion(lex, reading, b),
        !is_prediction(lex, reading, max_results, b),
        is_entry(lex, reading, b),
    ensures
        comes_before(candidates::candidates(lex, reading, max_results).surfaces, a, b),
{
    let h = head(lex, reading);
    let p = predicted(lex, reading, max_results);
    let s = all(lex, reading, max_results);
    lemma_head(lex, reading, b);
    lemma_predicted(lex, reading, max_results, a);
    lemma_predicted(lex, reading, max_results, b);
    lemma_entries(lex, reading, b);
    lemma_all(lex, reading, max_results, b);
    let i = choose|i: int| 0 <= i < p.len() && p[i] == a;
    let n = h.len() + p.len();
    assert(s.take(n as int) =~= h + p);
    assert(!(h + p).contains(b)) by {
        if (h + p).contains(b) {
            let k = choose|k: int| 0 <= k < (h + p).len() && (h + p)[k] == b;
            if k < h.len() {
                assert(h[k] == b);
            } else {
                assert(p[k - h.len()] == b);
            }
        }
    }
    let j = lemma_first_occurrence(s, n as int, b);
    assert(s[h.len() + i] == a);
    lemma_order(s, h.len() + i, j);
}

proof fn lemma_nonempty_keeps_order(s: Seq<Seq<char>>, n: int)
    requires
        0 <= n <= s.len(),
    ensures
        candidates::nonempty(s.take(n)).len() <= candidates::nonempty(s).len(),
        candidates::nonempty(s).take(candidates::nonempty(s.take(n)).len() as int)
            == candidates::nonempty(s.take(n)),
    decreases s.len(),
{
    if n == s.len() {
        assert(s.take(n) =~= s);
        assert(candidates::nonempty(s).take(candidates::nonempty(s).len() as int)
            =~= candidates::nonempty(s));
    } else {
        let t = s.drop_last();
        assert(t.take(n) =~= s.take(n));
        lemma_nonempty_keeps_order(t, n);
        let d = candidates::nonempty(s.take(n)).len() as int;
        assert(candidates::nonempty(s).take(d) =~= candidates::nonempty(t).take(d));
    }
}

/// Predictions are offered in their order: the surface of one stands before that of a
/// later one, where the latter is neither the reading nor a conversion nor that of an
/// earlier prediction.
pub proof fn predictions_are_offered_in_order(
    lex: Lexicon,
    reading: Seq<char>,
    max_results: nat,
    k: int,
    m: int,
)
    requires
        reading.len() > 0,
        candidates::alternatives(reading) is None,
        0 <= k < m < candidates::predictions(lex, reading, max_results).len(),
        ({
            let p = candidates::predictions(lex, reading, max_results);
            let b = p[m].1.surface;
            &&& p[k].1.surface.len() > 0
            &&& b.len() > 0
            &&& b != reading
            &&& !is_conversion(lex, reading, b)
            &&& forall|j: int| 0 <= j < m ==> (#[trigger] p[j]).1.surface != b
        }),
    ensures
        comes_before(
            candidates::candidates(lex, reading, max_results).surfaces,
            candidates::predictions(lex, reading, max_results)[k].1.surface,
            candidates::predictions(lex, reading, max_results)[m].1.surface,
        ),
{
    let p = candidates::predictions(lex, reading, max_results);
    let f = candidates::surfaces_of(p);
    let a = p[k].1.surface;
    let b = p[m].1.surface;
    let h = head(lex, reading);
    let q = predicted(lex, reading, max_results);
    let s = all(lex, reading, max_results);
    lemma_head(lex, reading, b);
    let front = f.take(m);
    let n = candidates::nonempty(front);
    lemma_nonempty_keeps_order(f, m);
    lemma_nonempty(front, a);
    lemma_nonempty(front, b);
    assert(front[k] == a);
    assert(n.contains(a));
    assert(!front.contains(b)) by {
        if front.contains(b) {
            let j = choose|j: int| 0 <= j < front.len() && front[j] == b;
            assert(p[j].1.surface == b);
        }
    }
    let i = choose|i: int| 0 <= i < n.len() && n[i] == a;
    assert(q.take(n.len() as int)[i] == a);
    assert(s[h.len() + i] == a);
    let c = h.len() + n.len();
    assert(s.take(c as int) =~= h + n) by {
        assert forall|x: int| 0 <= x < n.len() implies #[trigger] q[x] == n[x] by {
            assert(q.take(n.len() as int)[x] == n[x]);
        }
    }
    assert(!(h + n).contains(b)) by {
        if (h + n).contains(b) {
            let x = choose|x: int| 0 <= x < (h + n).len() && (h + n)[x] == b;
            if x < h.len() {
                assert(h[x] == b);
            } else {
                assert(n[x - h.len()] == b);
            }
        }
    }
    assert(is_prediction(lex, reading, max_results, b));
    lemma_predicted(lex, reading, max_results, b);
    lemma_all(lex, reading, max_results, b);
    let j = lemma_first_occurrence(s, c as int, b);
    lemma_order(s, h.len() + i, j);
}

/// A chain of words behind `start`: each is, of all words recorded behind the word
/// before it, one with the largest boost.
pub open spec fn is_chain(h: HistoryView, start: Seq<char>, words: Seq<Seq<char>>) -> bool {
    forall|i: int|
        0 <= i < words.len() ==> is_next(h, word_at(start, words, i - 1), #[trigger] words[i])
}

/// The word at place `i` of a chain; `start` stands before the first.
pub open spec fn word_at(start: Seq<char>, words: Seq<Seq<char>>, i: int) -> Seq<char> {
    if i < 0 {
        start
    } else {
        words[i]
    }
}

/// A chain ends behind `last`: nothing was used behind it, or one of the words used
/// most there is in the chain already.
pub open spec fn stops(h: HistoryView, last: Seq<char>, chain: Seq<Seq<char>>) -> bool {
    ||| ends_here(h, last)
    ||| exists|w: Seq<char>| #[trigger] is_next(h, last, w) && chain.contains(w)
}

/// `next` is one of the words used most behind `prev`.
pub open spec fn is_next(h: HistoryView, prev: Seq<char>, next: Seq<char>) -> bool {
    exists|b: int| #[trigger]
        history_laws::is_most_used(h, prev, b) && h.bigrams[b].surface == next
}

/// Nothing was ever used behind `prev`.
pub open spec fn ends_here(h: HistoryView, prev: Seq<char>) -> bool {
    forall|b: int| 0 <= b < h.bigrams.len() ==> (#[trigger] h.bigrams[b]).prev != prev
}

proof fn lemma_concat(a: Seq<char>, words: Seq<Seq<char>>)
    ensures
        text::concat(seq![a] + words) == a + text::concat(words),
    decreases words.len(),
{
    let s = seq![a] + words;
    if words.len() == 0 {
        assert(s.drop_last() =~= Seq::<Seq<char>>::empty());
        assert(text::concat(s.drop_last()) =~= Seq::<char>::empty());
        assert(s.last() == a);
        assert(text::concat(s) =~= a + text::concat(words));
    } else {
        lemma_concat(a, words.drop_last());
        assert(s.drop_last() =~= seq![a] + words.drop_last());
        assert(s.last() == words.last());
        assert(text::concat(s) =~= a + text::concat(words));
    }
}

proof fn lemma_chain(
    h: HistoryView,
    current: Seq<char>,
    visited: Seq<Seq<char>>,
    n: nat,
) -> (words: Seq<Seq<char>>)
    requires
        visited.no_duplicates(),
    ensures
        candidates::chain(h, current, visited, n) == text::concat(words),
        words.len() <= n,
        is_chain(h, current, words),
        (visited + words).no_duplicates(),
        words.len() < n ==> stops(h, word_at(current, words, words.len() - 1), visited + words),
        words.len() > 0 <==> n > 0 && h.successors(current).len() > 0 && !visited.contains(
            h.successors(current)[0].surface,
        ),
    decreases n,
{
    let s = h.successors(current);
    let none = Seq::<Seq<char>>::empty();
    if s.len() == 0 {
        assert forall|b: int| 0 <= b < h.bigrams.len() implies (#[trigger] h.bigrams[b]).prev
            != current by {
            if h.bigrams[b].prev == current {
                let i = history_laws::pairs_are_successors(h, current, b);
            }
        }
        assert(visited + none =~= visited);
        none
    } else {
        let b = history_laws::first_successor_is_most_used(h, current);
        let next = s[0].surface;
        assert(history_laws::is_most_used(h, current, b));
        assert(is_next(h, current, next));
        if n == 0 || visited.contains(next) {
            assert(visited + none =~= visited);
            none
        } else {
            let v = visited.push(next);
            let rest = lemma_chain(h, next, v, (n - 1) as nat);
            let words = seq![next] + rest;
            lemma_concat(next, rest);
            assert(visited + words =~= v + rest);
            assert forall|i: int| 0 <= i < words.len() implies is_next(
                h,
                word_at(current, words, i - 1),
                #[trigger] words[i],
            ) by {
                if i > 0 {
                    assert(words[i] == rest[i - 1]);
                    assert(word_at(current, words, i - 1) == word_at(next, rest, i - 2));
                }
            }
            assert(word_at(current, words, words.len() - 1) == word_at(next, rest, rest.len() - 1));
            words
        }
    }
}

/// What continues a word is a chain: each word that it appends is, of all words
/// recorded behind the word before it, one with the largest boost; no word comes
/// twice; and the chain goes on until it has `n` words, nothing was recorded behind
/// its last word, or one that was recorded most often there is in the chain already.
pub proof fn chains_follow_the_strongest_links(h: HistoryView, start: Seq<char>, n: nat) -> (words:
    Seq<Seq<char>>)
    ensures
        candidates::continuation(h, start, n) == text::concat(words),
        words.len() <= n,
        is_chain(h, start, words),
        (seq![start] + words).no_duplicates(),
        words.len() < n ==> stops(h, word_at(start, words, words.len() - 1), seq![start] + words),
        words.len() > 0 <==> candidates::is_extended(h, start, n),
{
    assert(seq![start].no_duplicates());
    assert forall|w: Seq<char>| seq![start].contains(w) <==> w == start by {
        assert(seq![start][0] == start);
    }
    lemma_chain(h, start, seq![start], n)
}

/// `x` continues the conversion at place `i`: behind its last word come the words that
/// followed that word, five at most.
pub open spec fn continues_path(
    h: HistoryView,
    base: candidates::CandidateView,
    x: Seq<char>,
    i: int,
) -> bool {
    let path = base.paths[i];
    let more = candidates::continuation(h, path.last().surface, 5);
    &&& 0 <= i < base.paths.len()
    &&& path.len() > 0
    &&& candidates::is_extended(h, path.last().surface, 5)
    &&& more.len() > 0
    &&& x == candidates::surface_of(path) + more
}

/// `x` continues the candidate at place `i`, which is no conversion: behind it come the
/// words that followed it, five at most.
pub open spec fn continues_surface(
    h: HistoryView,
    base: candidates::CandidateView,
    x: Seq<char>,
    i: int,
) -> bool {
    let s = base.surfaces[i];
    &&& 0 <= i < base.surfaces.len()
    &&& forall|k: int|
        0 <= k < base.paths.len() && (#[trigger] base.paths[k]).len() > 0
            ==> candidates::surface_of(base.paths[k]) != s
    &&& candidates::is_extended(h, s, 5)
    &&& x == s + candidates::continuation(h, s, 5)
}

/// `x` continues a candidate.
pub open spec fn is_phrase(
    h: HistoryView,
    base: candidates::CandidateView,
    x: Seq<char>,
) -> bool {
    ||| exists|i: int| continues_path(h, base, x, i)
    ||| exists|i: int| continues_surface(h, base, x, i)
}

proof fn lemma_path_phrases(
    h: HistoryView,
    base: candidates::CandidateView,
    n: int,
    x: candidates::PhraseView,
)
    requires
        0 <= n <= base.paths.len(),
    ensures
        candidates::continued_paths(h, base.paths.take(n)).contains(x) <==> exists|i: int|
            i < n && continues_path(h, base, x.text, i),
    decreases n,
{
    let s = candidates::continued_paths(h, base.paths.take(n));
    if n > 0 {
        lemma_path_phrases(h, base, n - 1, x);
        assert(base.paths.take(n).drop_last() =~= base.paths.take(n - 1));
        assert(base.paths.take(n).last() == base.paths[n - 1]);
        let t = candidates::continued_paths(h, base.paths.take(n - 1));
        if t.contains(x) {
            let k = choose|k: int| 0 <= k < t.len() && t[k] == x;
            assert(s[k] == x);
            let i = choose|i: int| i < n - 1 && continues_path(h, base, x.text, i);
            assert(i < n && continues_path(h, base, x.text, i));
        }
        if s.contains(x) && !t.contains(x) {
            let k = choose|k: int| 0 <= k < s.len() && s[k] == x;
            if k < t.len() {
                assert(t[k] == x);
            }
            assert(n - 1 < n && continues_path(h, base, x.text, n - 1));
        }
        if exists|i: int| i < n && continues_path(h, base, x.text, i) {
            let i = choose|i: int| i < n && continues_path(h, base, x.text, i);
            if i < n - 1 {
                assert(t.contains(x));
            } else {
                assert(s == t.push(x));
                assert(s[t.len() as int] == x);
            }
        }
    }
}

proof fn lemma_surface_phrases(
    h: HistoryView,
    base: candidates::CandidateView,
    n: int,
    x: candidates::PhraseView,
)
    requires
        0 <= n <= base.surfaces.len(),
    ensures
        candidates::continued_surfaces(h, base.paths, base.surfaces.take(n)).contains(x)
            <==> exists|i: int| i < n && continues_surface(h, base, x.text, i),
    decreases n,
{
    let s = candidates::continued_surfaces(h, base.paths, base.surfaces.take(n));
    if n > 0 {
        lemma_surface_phrases(h, base, n - 1, x);
        assert(base.surfaces.take(n).drop_last() =~= base.surfaces.take(n - 1));
        assert(base.surfaces.take(n).last() == base.surfaces[n - 1]);
        let t = candidates::continued_surfaces(h, base.paths, base.surfaces.take(n - 1));
        if t.contains(x) {
            let k = choose|k: int| 0 <= k < t.len() && t[k] == x;
            assert(s[k] == x);
            let i = choose|i: int| i < n - 1 && continues_surface(h, base, x.text, i);
            assert(i < n && continues_surface(h, base, x.text, i));
        }
        if s.contains(x) && !t.contains(x) {
            let k = choose|k: int| 0 <= k < s.len() && s[k] == x;
            if k < t.len() {
                assert(t[k] == x);
            }
            assert(n - 1 < n && continues_surface(h, base, x.text, n - 1));
        }
        if exists|i: int| i < n && continues_surface(h, base, x.text, i) {
            let i = choose|i: int| i < n && continues_surface(h, base, x.text, i);
            if i < n - 1 {
                assert(t.contains(x));
            } else {
                assert(s == t.push(x));
                assert(s[t.len() as int] == x);
            }
        }
    }
}

spec fn phrases(h: HistoryView, base: candidates::CandidateView) -> Seq<candidates::PhraseView> {
    ordering::ranked_order(
        candidates::continued_paths(h, base.paths) + candidates::continued_surfaces(
            h,
            base.paths,
            base.surfaces,
        ),
    )
}

proof fn lemma_phrases(h: HistoryView, base: candidates::CandidateView, x: Seq<char>)
    ensures
        candidates::phrase_texts(phrases(h, base)).contains(x) <==> is_phrase(h, base, x),
{
    broadcast use vstd::seq_lib::group_to_multiset_ensures;

    let a = candidates::continued_paths(h, base.paths);
    let b = candidates::continued_surfaces(h, base.paths, base.surfaces);
    let p = candidates::PhraseView { text: x };
    assert(base.paths.take(base.paths.len() as int) =~= base.paths);
    assert(base.surfaces.take(base.surfaces.len() as int) =~= base.surfaces);
    lemma_path_phrases(h, base, base.paths.len() as int, p);
    lemma_surface_phrases(h, base, base.surfaces.len() as int, p);
    ordering::ranked_order_sorts(a + b);
    let o = phrases(h, base);
    let t = candidates::phrase_texts(o);
    assert(o.contains(p) == (a + b).contains(p)) by {
        assert((a + b).to_multiset().contains(p) == o.to_multiset().contains(p));
    }
    if a.contains(p) {
        let i = choose|i: int| 0 <= i < a.len() && a[i] == p;
        assert((a + b)[i] == p);
    }
    if b.contains(p) {
        let i = choose|i: int| 0 <= i < b.len() && b[i] == p;
        assert((a + b)[a.len() + i] == p);
    }
    if (a + b).contains(p) {
        let i = choose|i: int| 0 <= i < (a + b).len() && (a + b)[i] == p;
        if i < a.len() {
            assert(a[i] == p);
        } else {
            assert(b[i - a.len()] == p);
        }
    }
    if o.contains(p) {
        let i = choose|i: int| 0 <= i < o.len() && o[i] == p;
        assert(t[i] == x);
    }
    if t.contains(x) {
        let i = choose|i: int| 0 <= i < t.len() && t[i] == x;
        assert(o[i] == p);
    }
    if exists|i: int| continues_path(h, base, x, i) {
        let i = choose|i: int| continues_path(h, base, x, i);
        assert(i < base.paths.len() && continues_path(h, base, p.text, i));
    }
    if exists|i: int| continues_surface(h, base, x, i) {
        let i = choose|i: int| continues_surface(h, base, x, i);
        assert(i < base.surfaces.len() && continues_surface(h, base, p.text, i));
    }
}

/// With room for all of them, what runs ahead of a reading is what continues a
/// candidate, and the candidates themselves, and nothing else; the conversions stay.
pub proof fn continued_candidates_are_complete(
    h: HistoryView,
    base: candidates::CandidateView,
    max_results: nat,
    x: Seq<char>,
)
    ensures
        ({
            let r = candidates::continued(h, base, max_results);
            &&& r.paths == base.paths
            &&& r.surfaces.len() <= max_results
            &&& r.surfaces.contains(x) ==> is_phrase(h, base, x) || base.surfaces.contains(x)
            &&& r.surfaces.len() < max_results && (is_phrase(h, base, x) || base.surfaces.contains(
                x,
            )) ==> r.surfaces.contains(x)
        }),
{
    lemma_phrases(h, base, x);
    let t = candidates::phrase_texts(phrases(h, base));
    let s = t + base.surfaces;
    let d = seqs::distinct(s);
    let r = candidates::continued(h, base, max_results).surfaces;
    seqs::distinct_keeps_each_once(s);
    if t.contains(x) {
        let i = choose|i: int| 0 <= i < t.len() && t[i] == x;
        assert(s[i] == x);
    }
    if base.surfaces.contains(x) {
        let i = choose|i: int| 0 <= i < base.surfaces.len() && base.surfaces[i] == x;
        assert(s[t.len() + i] == x);
    }
    if s.contains(x) {
        let i = choose|i: int| 0 <= i < s.len() && s[i] == x;
        if i < t.len() {
            assert(t[i] == x);
        } else {
            assert(base.surfaces[i - t.len()] == x);
        }
    }
    assert(d.contains(x) <==> s.contains(x));
    assert(r == crate::dict::at_most(d, max_results));
    if r.contains(x) {
        let i = choose|i: int| 0 <= i < r.len() && r[i] == x;
        assert(d[i] == x);
        assert(d.contains(x));
    }
}

proof fn lemma_before_cut(s: Seq<Seq<char>>, n: nat, a: Seq<char>, b: Seq<char>)
    requires
        s.no_duplicates(),
        comes_before(s, a, b),
        crate::dict::at_most(s, n).contains(b),
    ensures
        comes_before(crate::dict::at_most(s, n), a, b),
{
    let t = crate::dict::at_most(s, n);
    let (i, j) = choose|i: int, j: int|
        0 <= i < j < s.len() && #[trigger] s[i] == a && #[trigger] s[j] == b;
    let k = choose|k: int| 0 <= k < t.len() && t[k] == b;
    assert(s[k] == b);
    assert(k == j);
    assert(t[i] == a && t[j] == b);
}

/// What continues a candidate stands before every candidate that does not, and of two
/// that continue one the longer stands first.
pub proof fn longer_phrases_come_first(
    h: HistoryView,
    base: candidates::CandidateView,
    max_results: nat,
    a: Seq<char>,
    b: Seq<char>,
)
    requires
        is_phrase(h, base, a),
        a.len() <= i64::MAX,
        candidates::continued(h, base, max_results).surfaces.contains(b),
        !is_phrase(h, base, b) || b.len() < a.len(),
    ensures
        comes_before(candidates::continued(h, base, max_results).surfaces, a, b),
{
    lemma_phrases(h, base, a);
    lemma_phrases(h, base, b);
    let o = phrases(h, base);
    let t = candidates::phrase_texts(o);
    let s = t + base.surfaces;
    let d = seqs::distinct(s);
    seqs::distinct_keeps_each_once(s);
    let r = candidates::continued(h, base, max_results).surfaces;
    assert(r == crate::dict::at_most(d, max_results));
    let k = choose|k: int| 0 <= k < r.len() && r[k] == b;
    assert(d[k] == b);
    assert(d.contains(b));
    assert(s.contains(b));
    let i = choose|i: int| 0 <= i < t.len() && t[i] == a;
    assert(s[i] == a);
    ordering::ranked_order_sorts(
        candidates::continued_paths(h, base.paths) + candidates::continued_surfaces(
            h,
            base.paths,
            base.surfaces,
        ),
    );
    assert(!s.take(i + 1).contains(b)) by {
        let f = s.take(i + 1);
        if f.contains(b) {
            let m = choose|m: int| 0 <= m < f.len() && f[m] == b;
            assert(t[m] == b);
            assert(o[m].text == b && o[i].text == a);
            assert(o[m].rank() <= o[i].rank());
        }
    }
    let j = lemma_first_occurrence(s, i + 1, b);
    lemma_order(s, i, j);
    lemma_before_cut(d, max_results, a, b);
}

/// With a history, candidates that run ahead of a reading continue its candidates; else
/// they are its candidates.
pub proof fn predictions_continue_candidates(lex: Lexicon, reading: Seq<char>, max_results: nat)
    requires
        reading.len() > 0,
        candidates::alternatives(reading) is None,
    ensures
        lex.history is Some ==> candidates::prediction_candidates(lex, reading, max_results)
            == candidates::continued(
            lex.history->0,
            candidates::candidates(lex, reading, max_results),
            max_results,
        ),
        lex.history is None ==> candidates::prediction_candidates(lex, reading, max_results)
            == candidates::candidates(lex, reading, max_results),
{
}

/// A punctuation mark is offered itself, and so are its other forms; what the history
/// predicts for it stands before them, and nothing else is offered.
pub proof fn marks_are_offered_with_their_forms(
    lex: Lexicon,
    reading: Seq<char>,
    max_results: nat,
    x: Seq<char>,
)
    requires
        reading.len() > 0,
        candidates::alternatives(reading) is Some,
    ensures
        ({
            let s = candidates::candidates(lex, reading, max_results).surfaces;
            let forms = candidates::alternatives(reading)->0;
            let learned = lex.history is Some && is_prediction(lex, reading, max_results, x);
            &&& s.contains(x) <==> x == reading || forms.contains(x) || learned
            &&& learned && x != reading && !(lex.history is Some && is_prediction(
                lex,
                reading,
                max_results,
                reading,
            )) ==> comes_before(s, x, reading)
            &&& lex.history is None ==> s.len() > 0 && s[0] == reading
        }),
{
    let forms = candidates::alternatives(reading)->0;
    let learned = if lex.history is Some {
        candidates::surfaces_of(candidates::predictions(lex, reading, max_results))
    } else {
        Seq::empty()
    };
    let p = candidates::predictions(lex, reading, max_results);
    let s = learned + seq![reading] + forms;
    seqs::distinct_keeps_each_once(s);
    let n = learned.len() as int;
    assert(s[n] == reading);
    assert forall|y: Seq<char>| learned.contains(y) <==> lex.history is Some && is_prediction(
        lex,
        reading,
        max_results,
        y,
    ) by {
        if learned.contains(y) {
            let i = choose|i: int| 0 <= i < learned.len() && learned[i] == y;
            assert(p[i].1.surface == y);
        }
        if lex.history is Some && is_prediction(lex, reading, max_results, y) {
            let i = choose|i: int| 0 <= i < p.len() && (#[trigger] p[i]).1.surface == y;
            assert(learned[i] == y);
        }
    }
    if s.contains(x) {
        let i = choose|i: int| 0 <= i < s.len() && s[i] == x;
        if i < n {
            assert(learned[i] == x);
        } else if i > n {
            assert(forms[i - n - 1] == x);
        }
    }
    if forms.contains(x) {
        let i = choose|i: int| 0 <= i < forms.len() && forms[i] == x;
        assert(s[n + 1 + i] == x);
    }
    if learned.contains(x) {
        let i = choose|i: int| 0 <= i < n && learned[i] == x;
        assert(s[i] == x);
        if !learned.contains(reading) {
            assert(s.take(n) =~= learned);
            lemma_order(s, i, n);
        }
    }
    if lex.history is None {
        assert(s.take(1) =~= seq![reading]);
        lemma_distinct_grows(s, 1);
        assert(s.take(1).drop_last() =~= Seq::<Seq<char>>::empty());
        let d = seqs::distinct(s.take(1));
        assert(seqs::distinct(s.take(1).drop_last()) == Seq::<Seq<char>>::empty());
        assert(s.take(1).last() == reading);
        assert(d =~= seq![reading]);
        assert(seqs::distinct(s)[0] == seqs::distinct(s).take(1)[0]);
    }
}

proof fn lemma_distinct_stays(s: Seq<Seq<char>>)
    requires
        s.no_duplicates(),
    ensures
        seqs::distinct(s) == s,
    decreases s.len(),
{
    if s.len() > 0 {
        let t = s.drop_last();
        assert(t.no_duplicates());
        lemma_distinct_stays(t);
        assert(!t.contains(s.last())) by {
            if t.contains(s.last()) {
                let i = choose|i: int| 0 <= i < t.len() && t[i] == s.last();
                assert(s[i] == s[s.len() - 1]);
            }
        }
        assert(seqs::distinct(s) =~= s);
    }
}

proof fn lemma_without_order(s: Seq<Seq<char>>, item: Seq<char>, a: Seq<char>, b: Seq<char>)
    requires
        comes_before(s, a, b),
        a != item,
        b != item,
    ensures
        comes_before(candidates::without(s, item), a, b),
    decreases s.len(),
{
    let t = s.drop_last();
    let w = candidates::without(s, item);
    let u = candidates::without(t, item);
    let (i, j) = choose|i: int, j: int|
        0 <= i < j < s.len() && #[trigger] s[i] == a && #[trigger] s[j] == b;
    if j < t.len() {
        assert(t[i] == a && t[j] == b);
        lemma_without_order(t, item, a, b);
        let (x, y) = choose|x: int, y: int|
            0 <= x < y < u.len() && #[trigger] u[x] == a && #[trigger] u[y] == b;
        assert(w[x] == a && w[y] == b);
    } else {
        assert(t[i] == a);
        lemma_without(t, item, a);
        assert(u.contains(a));
        let x = choose|x: int| 0 <= x < u.len() && u[x] == a;
        assert(w == u.push(b));
        assert(w[x] == a && w[u.len() as int] == b);
    }
}

proof fn lemma_without_distinct(s: Seq<Seq<char>>, item: Seq<char>)
    requires
        s.no_duplicates(),
    ensures
        candidates::without(s, item).no_duplicates(),
    decreases s.len(),
{
    if s.len() > 0 {
        let t = s.drop_last();
        assert(t.no_duplicates());
        lemma_without_distinct(t, item);
        lemma_without(t, item, s.last());
        assert(!t.contains(s.last())) by {
            if t.contains(s.last()) {
                let i = choose|i: int| 0 <= i < t.len() && t[i] == s.last();
                assert(s[i] == s[s.len() - 1]);
            }
        }
    }
}

/// Conversions are offered in their order: the surface of one stands before that of a
/// later one, where the latter is not that of an earlier conversion, and neither is the
/// reading itself.
pub proof fn conversions_are_offered_in_order(
    lex: Lexicon,
    reading: Seq<char>,
    max_results: nat,
    i: int,
    j: int,
)
    requires
        reading.len() > 0,
        candidates::alternatives(reading) is None,
        ({
            let p = candidates::candidates(lex, reading, max_results).paths;
            let a = candidates::surface_of(p[i]);
            let b = candidates::surface_of(p[j]);
            &&& 0 <= i < j < p.len()
            &&& a.len() > 0
            &&& b.len() > 0
            &&& a != reading
            &&& b != reading
            &&& forall|k: int| 0 <= k < j ==> candidates::surface_of(#[trigger] p[k]) != b
        }),
    ensures
        ({
            let r = candidates::candidates(lex, reading, max_results);
            comes_before(
                r.surfaces,
                candidates::surface_of(r.paths[i]),
                candidates::surface_of(r.paths[j]),
            )
        }),
{
    let p = candidates::candidates(lex, reading, max_results).paths;
    let f = candidates::path_surfaces(p);
    let a = candidates::surface_of(p[i]);
    let b = candidates::surface_of(p[j]);
    let n = candidates::nonempty(f);
    let front = f.take(j);
    let m = candidates::nonempty(front);
    lemma_nonempty_keeps_order(f, j);
    lemma_nonempty(front, a);
    lemma_nonempty(front, b);
    assert(front[i] == a);
    assert(front.contains(a));
    assert(!front.contains(b)) by {
        if front.contains(b) {
            let k = choose|k: int| 0 <= k < front.len() && front[k] == b;
            assert(candidates::surface_of(p[k]) == b);
        }
    }
    let x = choose|x: int| 0 <= x < m.len() && m[x] == a;
    assert(n.take(m.len() as int)[x] == a);
    assert(n[x] == a);
    lemma_nonempty(f, b);
    assert(f[j] == b);
    assert(n.take(m.len() as int) == m);
    let y = lemma_first_occurrence(n, m.len() as int, b);
    lemma_order(n, x, y);
    let d = seqs::distinct(n);
    seqs::distinct_keeps_each_once(n);
    let h = head(lex, reading);
    assert(comes_before(h, a, b) && h.no_duplicates()) by {
        let (u, v) = choose|u: int, v: int|
            0 <= u < v < d.len() && #[trigger] d[u] == a && #[trigger] d[v] == b;
        if candidates::kana_promoted(lex, reading) {
            let w = candidates::without(d, reading);
            lemma_without_order(d, reading, a, b);
            lemma_without_distinct(d, reading);
            lemma_without(d, reading, reading);
            let (u2, v2) = choose|u: int, v: int|
                0 <= u < v < w.len() && #[trigger] w[u] == a && #[trigger] w[v] == b;
            assert(h =~= seq![reading] + w);
            assert(h[u2 + 1] == a && h[v2 + 1] == b);
            assert forall|k: int| 0 < k < h.len() implies h[k] != reading by {
                assert(w[k - 1] == h[k]);
                assert(w.contains(w[k - 1]));
            }
            assert(h.no_duplicates());
        } else if d.contains(reading) {
            assert(h == d);
        } else {
            assert(h == d.push(reading));
            assert(h[u] == a && h[v] == b);
            assert(h.no_duplicates());
        }
    }
    let s = all(lex, reading, max_results);
    assert(s.take(h.len() as int) =~= h);
    lemma_distinct_stays(h);
    lemma_distinct_grows(s, h.len() as int);
    let r = seqs::distinct(s);
    let (u, v) = choose|u: int, v: int|
        0 <= u < v < h.len() && #[trigger] h[u] == a && #[trigger] h[v] == b;
    assert(r.take(h.len() as int)[u] == a && r.take(h.len() as int)[v] == b);
    assert(r[u] == a && r[v] == b);
}

/// The best conversion heads the list, unless the user has chosen the reading itself
/// before: then the reading does.
pub proof fn best_conversion_is_offered_first(lex: Lexicon, reading: Seq<char>, max_results: nat)
    requires
        reading.len() > 0,
        candidates::alternatives(reading) is None,
    ensures
        ({
            let r = candidates::candidates(lex, reading, max_results);
            let chosen = lex.history is Some && lex.history->0.unigram_boost(reading, reading) > 0;
            &&& r.surfaces.len() > 0
            &&& chosen ==> r.surfaces[0] == reading
            &&& !chosen && r.paths.len() > 0 && candidates::surface_of(r.paths[0]).len() > 0
                ==> r.surfaces[0] == candidates::surface_of(r.paths[0])
        }),
{
    let p = candidates::candidates(lex, reading, max_results).paths;
    let s = all(lex, reading, max_results);
    let h = head(lex, reading);
    let f = candidates::path_surfaces(p);
    let n = candidates::nonempty(f);
    let d = seqs::distinct(n);
    lemma_head(lex, reading, reading);
    assert(h.len() > 0);
    lemma_distinct_grows(s, 1);
    assert(s.take(1) =~= seq![h[0]]);
    assert(seq![h[0]].no_duplicates());
    lemma_distinct_stays(s.take(1));
    assert(seqs::distinct(s).take(1)[0] == h[0]);
    if !candidates::kana_promoted(lex, reading) && p.len() > 0 && candidates::surface_of(
        p[0],
    ).len() > 0 {
        lemma_nonempty_keeps_order(f, 1);
        let one = f.take(1);
        assert(one.drop_last() =~= Seq::<Seq<char>>::empty());
        assert(candidates::nonempty(one.drop_last()) == Seq::<Seq<char>>::empty());
        assert(one.last() == candidates::surface_of(p[0]));
        assert(candidates::nonempty(one) =~= seq![candidates::surface_of(p[0])]);
        assert(n.take(1)[0] == candidates::surface_of(p[0]));
        lemma_distinct_grows(n, 1);
        assert(n.take(1) =~= seq![n[0]]);
        lemma_distinct_stays(n.take(1));
        assert(d.take(1)[0] == n[0]);
    }
}

/// The entries of a reading, those that the history boosts first.
pub open spec fn ordered_entries(lex: Lexicon, reading: Seq<char>) -> Seq<EntryView> {
    match lex.history {
        Some(h) => h.reordered(reading, lex.words[reading]),
        None => lex.words[reading],
    }
}

/// Entries of the reading are offered in their order, those that the history boosts
/// first: the surface of one stands before that of a later one, where the latter is
/// neither offered already nor that of an earlier entry.
pub proof fn entries_are_offered_in_order(
    lex: Lexicon,
    reading: Seq<char>,
    max_results: nat,
    i: int,
    j: int,
)
    requires
        reading.len() > 0,
        candidates::alternatives(reading) is None,
        lex.words.contains_key(reading),
        0 <= i < j < lex.words[reading].len(),
        ({
            let e = ordered_entries(lex, reading);
            let b = e[j].surface;
            &&& b != reading
            &&& !is_conversion(lex, reading, b)
            &&& !is_prediction(lex, reading, max_results, b)
            &&& forall|k: int| 0 <= k < j ==> (#[trigger] e[k]).surface != b
        }),
    ensures
        ({
            let e = ordered_entries(lex, reading);
            comes_before(
                candidates::candidates(lex, reading, max_results).surfaces,
                e[i].surface,
                e[j].surface,
            )
        }),
{
    let e = ordered_entries(lex, reading);
    assert(candidates::looked_up(lex, reading) == e);
    if lex.history is Some {
        history_laws::reordering_goes_by_boost(lex.history->0, reading, lex.words[reading]);
    }
    let b = e[j].surface;
    let h = head(lex, reading);
    let p = predicted(lex, reading, max_results);
    let t = entries(lex, reading);
    let s = all(lex, reading, max_results);
    lemma_head(lex, reading, b);
    lemma_predicted(lex, reading, max_results, b);
    let n = h.len() + p.len();
    assert(t[i] == e[i].surface && t[j] == b);
    assert(s[n + i] == e[i].surface && s[n + j] == b);
    let f = s.take(n + j);
    assert(!f.contains(b)) by {
        if f.contains(b) {
            let k = choose|k: int| 0 <= k < f.len() && f[k] == b;
            if k < h.len() {
                assert(h[k] == b);
            } else if k < n {
                assert(p[k - h.len()] == b);
            } else {
                assert(t[k - n] == b);
                assert(e[k - n].surface == b);
            }
        }
    }
    lemma_order(s, n + i, n + j);
}

} // verus!
