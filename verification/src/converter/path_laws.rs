//! What a path costs, and what the search prefers on account of it.

use vstd::prelude::*;

use super::cost;
use super::lattice::LatticeView;
use super::viterbi;
use crate::dict::connection::ConnView;

verus! {

/// What going from the id `left` to the id `right` costs: the matrix holds a row of
/// `num_ids` costs for each left id, and outside of it, or without it, nothing is
/// added.
pub open spec fn joint(conn: Option<ConnView>, left: u16, right: u16) -> int {
    match conn {
        Some(c) => if left as int * c.num_ids as int + right as int >= c.costs.len() {
            0
        } else {
            c.costs[left as int * c.num_ids as int + right as int] as int
        },
        None => 0,
    }
}

/// The sum of the word costs along a path.
pub open spec fn word_sum(l: LatticeView, p: Seq<usize>) -> int
    decreases p.len(),
{
    if p.len() == 0 {
        0
    } else {
        word_sum(l, p.drop_last()) + l.node(p.last() as int).cost
    }
}

/// The sum of the script costs along a path.
pub open spec fn script_sum(l: LatticeView, p: Seq<usize>) -> int
    decreases p.len(),
{
    if p.len() == 0 {
        0
    } else {
        script_sum(l, p.drop_last()) + cost::script_cost_of(l.node(p.last() as int).surface)
    }
}

/// The sum of the connection costs along a path, from the beginning of the string to
/// the last node.
pub open spec fn joint_sum(l: LatticeView, conn: Option<ConnView>, p: Seq<usize>) -> int
    decreases p.len(),
{
    if p.len() == 0 {
        0
    } else if p.len() == 1 {
        joint(conn, 0, l.node(p.last() as int).left_id)
    } else {
        joint_sum(l, conn, p.drop_last()) + joint(
            conn,
            l.node(p.drop_last().last() as int).right_id,
            l.node(p.last() as int).left_id,
        )
    }
}

proof fn lemma_sum(l: LatticeView, conn: Option<ConnView>, p: Seq<usize>)
    requires
        0 < p.len() <= 0x3FF_FFFF_FFFF,
    ensures
        ({
            let c = viterbi::path_cost(l, cost::default_model(conn), p);
            &&& c == word_sum(l, p) + script_sum(l, p) + joint_sum(l, conn, p) + 5000 * p.len()
            &&& -0x2_0000 * p.len() <= c <= 0x2_0000 * p.len()
        }),
    decreases p.len(),
{
    let q = p.drop_last();
    if p.len() > 1 {
        lemma_sum(l, conn, q);
    } else {
        assert(word_sum(l, q) == 0);
        assert(script_sum(l, q) == 0);
    }
}

/// The cost of a path of `k` nodes is the sum of its word costs, of its script costs
/// and of its connection costs, those at the two ends of the string among them, and
/// `k` times the penalty of a segment.
pub proof fn path_costs_are_sums(l: LatticeView, conn: Option<ConnView>, p: Seq<usize>)
    requires
        0 < p.len() <= 0x3FF_FFFF_FFFF,
    ensures
        viterbi::full_cost(l, cost::default_model(conn), p) == word_sum(l, p) + script_sum(l, p)
            + joint_sum(l, conn, p) + joint(conn, l.node(p.last() as int).right_id, 0) + 5000
            * p.len(),
{
    lemma_sum(l, conn, p);
}

proof fn lemma_no_joints(l: LatticeView, p: Seq<usize>)
    ensures
        joint_sum(l, None, p) == 0,
    decreases p.len(),
{
    if p.len() > 1 {
        lemma_no_joints(l, p.drop_last());
    }
}

proof fn lemma_no_scripts(l: LatticeView, p: Seq<usize>)
    requires
        forall|i: int|
            0 <= i < p.len() ==> cost::script_cost_of((#[trigger] l.node(p[i] as int)).surface) == 0,
    ensures
        script_sum(l, p) == 0,
    decreases p.len(),
{
    if p.len() > 0 {
        let q = p.drop_last();
        assert forall|i: int| 0 <= i < q.len() implies cost::script_cost_of(
            (#[trigger] l.node(q[i] as int)).surface,
        ) == 0 by {
            assert(q[i] == p[i]);
            assert(cost::script_cost_of(l.node(p[i] as int).surface) == 0);
        }
        lemma_no_scripts(l, q);
        assert(cost::script_cost_of(l.node(p[p.len() - 1] as int).surface) == 0);
    }
}

/// One word is preferred to several: without a matrix, a word over the whole string
/// is strictly cheaper than any split of the string into two words or more whose
/// word costs sum to more than its own less the penalty of a segment, where no word
/// has a script cost; and what the search finds first is cheaper than the split, too.
pub proof fn one_word_is_preferred_to_several(
    l: LatticeView,
    n: nat,
    word: usize,
    split: Seq<usize>,
)
    requires
        l.wf(),
        0 < n <= usize::MAX,
        viterbi::is_path(l, seq![word]),
        viterbi::is_path(l, split),
        2 <= split.len() <= 0x3FF_FFFF_FFFF,
        cost::script_cost_of(l.node(word as int).surface) == 0,
        forall|i: int|
            0 <= i < split.len() ==> cost::script_cost_of(
                (#[trigger] l.node(split[i] as int)).surface,
            ) == 0,
        word_sum(l, split) > l.node(word as int).cost - 5000,
    ensures
        viterbi::full_cost(l, cost::default_model(None), seq![word]) < viterbi::full_cost(
            l,
            cost::default_model(None),
            split,
        ),
        viterbi::nbest(l, cost::default_model(None), n).len() > 0,
        viterbi::nbest(l, cost::default_model(None), n)[0].viterbi_cost < viterbi::full_cost(
            l,
            cost::default_model(None),
            split,
        ),
{
    let alone = seq![word];
    path_costs_are_sums(l, None, alone);
    path_costs_are_sums(l, None, split);
    lemma_no_joints(l, alone);
    lemma_no_joints(l, split);
    lemma_no_scripts(l, split);
    assert(alone.last() == word);
    assert(alone.drop_last() =~= Seq::<usize>::empty());
    assert(word_sum(l, alone) == word_sum(l, alone.drop_last()) + l.node(word as int).cost);
    assert(word_sum(l, alone.drop_last()) == 0);
    assert(script_sum(l, alone.drop_last()) == 0);
    assert(script_sum(l, alone) == 0);
    viterbi::nbest_first_is_cheapest(l, cost::default_model(None), n, alone);
}

/// A character of the Latin script.
pub open spec fn is_latin_letter(c: char) -> bool {
    ||| 0x41 <= c as u32 <= 0x5A
    ||| 0x61 <= c as u32 <= 0x7A
    ||| 0xC0 <= c as u32 <= 0x24F
}

/// A Chinese character.
pub open spec fn is_kanji_letter(c: char) -> bool {
    ||| 0x3400 <= c as u32 <= 0x4DBF
    ||| 0x4E00 <= c as u32 <= 0x9FFF
    ||| 0xF900 <= c as u32 <= 0xFAFF
}

/// A character of either kana script.
pub open spec fn is_kana_letter(c: char) -> bool {
    0x3040 <= c as u32 <= 0x30FF
}

/// A surface with a Latin letter costs 20000 more, whatever else it holds.
pub proof fn latin_letters_cost_most(s: Seq<char>, i: int)
    requires
        0 <= i < s.len(),
        is_latin_letter(s[i]),
    ensures
        cost::script_cost_of(s) == 20000,
{
    assert(crate::unicode::latin(s[i]));
}

/// A surface in which kanji and kana stand together, without Latin letters, costs
/// 3000 less.
pub proof fn kanji_with_kana_cost_less(s: Seq<char>, i: int, j: int)
    requires
        0 <= i < s.len(),
        0 <= j < s.len(),
        is_kanji_letter(s[i]),
        is_kana_letter(s[j]),
        forall|k: int| 0 <= k < s.len() ==> !is_latin_letter(#[trigger] s[k]),
    ensures
        cost::script_cost_of(s) == -3000,
{
    assert(crate::unicode::kanji(s[i]));
    assert(crate::unicode::hiragana(s[j]) || crate::unicode::katakana(s[j]));
    assert forall|k: int| 0 <= k < s.len() implies !crate::unicode::latin(#[trigger] s[k]) by {
        assert(!is_latin_letter(s[k]));
    }
}

/// A surface of katakana alone costs 5000 more.
pub proof fn katakana_alone_costs_more(s: Seq<char>)
    requires
        s.len() > 0,
        forall|k: int| 0 <= k < s.len() ==> 0x30A0 <= #[trigger] s[k] as u32 <= 0x30FF,
    ensures
        cost::script_cost_of(s) == 5000,
{
    assert(crate::unicode::katakana(s[0]));
    assert forall|k: int| 0 <= k < s.len() implies crate::unicode::katakana(#[trigger] s[k])
        && !crate::unicode::latin(s[k]) && !crate::unicode::kanji(s[k]) by {
        assert(0x30A0 <= s[k] as u32 <= 0x30FF);
    }
}

/// Every other surface costs what its word costs: kanji without kana, and kana that
/// is not katakana throughout.
pub proof fn other_scripts_cost_nothing(s: Seq<char>)
    requires
        forall|k: int| 0 <= k < s.len() ==> !is_latin_letter(#[trigger] s[k]),
        (forall|k: int| 0 <= k < s.len() ==> !is_kanji_letter(#[trigger] s[k])) || (forall|k: int|
            0 <= k < s.len() ==> !is_kana_letter(#[trigger] s[k])),
        s.len() == 0 || exists|k: int|
            0 <= k < s.len() && !(0x30A0 <= #[trigger] s[k] as u32 <= 0x30FF),
    ensures
        cost::script_cost_of(s) == 0,
{
    assert forall|k: int| 0 <= k < s.len() implies !crate::unicode::latin(#[trigger] s[k]) by {
        assert(!is_latin_letter(s[k]));
    }
    if s.len() > 0 {
        let k = choose|k: int| 0 <= k < s.len() && !(0x30A0 <= #[trigger] s[k] as u32 <= 0x30FF);
        assert(!crate::unicode::katakana(s[k]));
    }
}

/// The segments of a path are its words: reading, surface, ids and cost of each node.
pub proof fn segments_are_the_words(l: LatticeView, p: Seq<usize>, i: int)
    requires
        0 <= i < p.len(),
    ensures
        ({
            let s = viterbi::segments_of(l, p)[i];
            let n = l.nodes[p[i] as int];
            &&& viterbi::segments_of(l, p).len() == p.len()
            &&& s.reading == n.reading
            &&& s.surface == n.surface
            &&& s.left_id == n.left_id
            &&& s.right_id == n.right_id
            &&& s.word_cost == n.cost
        }),
{
}

} // verus!
