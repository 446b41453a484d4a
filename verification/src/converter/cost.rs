//! Costs of words and of transitions between them.

use vstd::prelude::*;

use super::lattice::{LatticeNode, NodeView};
use crate::dict::connection::{self, ConnView, ConnectionMatrix};
use crate::text::chars_of;
use crate::unicode::{self, is_hiragana, is_kanji, is_katakana, is_latin};

verus! {

/// Per-segment penalty added to each word cost, against paths with many short
/// segments.
pub const SEGMENT_PENALTY: i64 = 5000;

/// Bonus for surfaces that mix kanji and kana.
pub const MIXED_SCRIPT_BONUS: i64 = 3000;

/// Penalty for surfaces that are all katakana.
pub const KATAKANA_PENALTY: i64 = 5000;

/// Penalty for surfaces with Latin letters.
pub const LATIN_PENALTY: i64 = 20000;

pub open spec fn any_latin(s: Seq<char>) -> bool {
    exists|i: int| 0 <= i < s.len() && unicode::latin(#[trigger] s[i])
}

pub open spec fn any_kanji(s: Seq<char>) -> bool {
    exists|i: int| 0 <= i < s.len() && unicode::kanji(#[trigger] s[i])
}

pub open spec fn any_kana(s: Seq<char>) -> bool {
    exists|i: int| 0 <= i < s.len() && (unicode::hiragana(#[trigger] s[i]) || unicode::katakana(s[i]))
}

pub open spec fn all_katakana(s: Seq<char>) -> bool {
    forall|i: int| 0 <= i < s.len() ==> unicode::katakana(#[trigger] s[i])
}

/// Cost adjustment by the script of a surface.
pub open spec fn script_cost_of(s: Seq<char>) -> i64 {
    if any_latin(s) {
        LATIN_PENALTY
    } else if any_kanji(s) && any_kana(s) {
        (-MIXED_SCRIPT_BONUS) as i64
    } else if s.len() > 0 && all_katakana(s) {
        KATAKANA_PENALTY
    } else {
        0
    }
}

/// Cost adjustment by the script of a surface: a heavy penalty for Latin
/// letters, a bonus for kanji mixed with kana, a penalty for katakana alone.
pub fn script_cost(surface: &str) -> (r: i64)
    ensures
        r == script_cost_of(surface@),
{
    let chars: Vec<char> = chars_of(surface);
    let mut has_latin: bool = false;
    let mut has_kanji: bool = false;
    let mut has_kana: bool = false;
    let mut only_katakana: bool = true;
    let mut i: usize = 0;
    while i < chars.len()
        invariant
            i <= chars@.len(),
            chars@ == surface@,
            has_latin == any_latin(surface@.take(i as int)),
            has_kanji == any_kanji(surface@.take(i as int)),
            has_kana == any_kana(surface@.take(i as int)),
            only_katakana == all_katakana(surface@.take(i as int)),
        decreases chars.len() - i,
    {
        let c: char = chars[i];
        let ghost before = surface@.take(i as int);
        let ghost after = surface@.take(i + 1);
        proof {
            assert(after =~= before.push(c));
            assert(after[i as int] == c);
            assert forall|j: int| 0 <= j < i implies #[trigger] after[j] == before[j] by {}
            if any_latin(before) {
                let j = choose|j: int| 0 <= j < before.len() && unicode::latin(#[trigger] before[j]);
                assert(unicode::latin(after[j]));
            }
            if any_kanji(before) {
                let j = choose|j: int| 0 <= j < before.len() && unicode::kanji(#[trigger] before[j]);
                assert(unicode::kanji(after[j]));
            }
            if any_kana(before) {
                let j = choose|j: int|
                    0 <= j < before.len() && (unicode::hiragana(#[trigger] before[j]) || unicode::katakana(before[j]));
                assert(unicode::hiragana(after[j]) || unicode::katakana(after[j]));
            }
            if all_katakana(after) {
                assert forall|j: int| 0 <= j < before.len() implies unicode::katakana(
                    #[trigger] before[j],
                ) by {
                    assert(unicode::katakana(after[j]));
                }
            }
        }
        if is_latin(c) {
            has_latin = true;
        }
        if is_kanji(c) {
            has_kanji = true;
        }
        if is_hiragana(c) || is_katakana(c) {
            has_kana = true;
        }
        if !is_katakana(c) {
            only_katakana = false;
        }
        i = i + 1;
    }
    proof {
        assert(surface@.take(surface@.len() as int) =~= surface@);
    }
    if has_latin {
        LATIN_PENALTY
    } else if has_kanji && has_kana {
        -MIXED_SCRIPT_BONUS
    } else if chars.len() > 0 && only_katakana {
        KATAKANA_PENALTY
    } else {
        0
    }
}

/// What words cost, by themselves, behind one another, and at the two ends.
pub struct CostModel {
    pub word: spec_fn(NodeView) -> i64,
    pub transition: spec_fn(NodeView, NodeView) -> i64,
    pub bos: spec_fn(NodeView) -> i64,
    pub eos: spec_fn(NodeView) -> i64,
}

/// Scores lattice paths during the search.
pub trait CostFunction {
    spec fn model(&self) -> CostModel;

    fn word_cost(&self, node: &LatticeNode) -> (r: i64)
        ensures
            r == (self.model().word)(node@),
    ;

    fn transition_cost(&self, prev: &LatticeNode, next: &LatticeNode) -> (r: i64)
        ensures
            r == (self.model().transition)(prev@, next@),
    ;

    fn bos_cost(&self, node: &LatticeNode) -> (r: i64)
        ensures
            r == (self.model().bos)(node@),
    ;

    fn eos_cost(&self, node: &LatticeNode) -> (r: i64)
        ensures
            r == (self.model().eos)(node@),
    ;
}

/// The connection cost between two ids; 0 without a matrix.
pub open spec fn link_cost(conn: Option<ConnView>, left: u16, right: u16) -> i64 {
    match conn {
        Some(c) => c.cost(left, right) as i64,
        None => 0,
    }
}

/// Looks up the connection cost between two ids, 0 if there is no matrix.
pub fn conn_cost(conn: Option<&ConnectionMatrix>, left: u16, right: u16) -> (r: i64)
    ensures
        r == link_cost(connection::conn_view(conn), left, right),
{
    match conn {
        Some(c) => c.cost(left, right) as i64,
        None => 0,
    }
}

/// Word cost, segment penalty and script cost of a node.
pub open spec fn default_word_cost(node: NodeView) -> i64 {
    (node.cost + SEGMENT_PENALTY + script_cost_of(node.surface)) as i64
}

/// Default word costs, with the transitions of an optional matrix.
pub open spec fn default_model(conn: Option<ConnView>) -> CostModel {
    CostModel {
        word: |node: NodeView| default_word_cost(node),
        transition: |prev: NodeView, next: NodeView|
            link_cost(conn, prev.right_id, next.left_id),
        bos: |node: NodeView| link_cost(conn, 0, node.left_id),
        eos: |node: NodeView| link_cost(conn, node.right_id, 0),
    }
}

/// The default cost function: word costs and an optional connection matrix.
pub struct DefaultCostFunction<'a> {
    conn: Option<&'a ConnectionMatrix>,
}

impl<'a> DefaultCostFunction<'a> {
    pub closed spec fn matrix(self) -> Option<ConnView> {
        connection::conn_view(self.conn)
    }

    pub fn new(conn: Option<&'a ConnectionMatrix>) -> (r: Self)
        ensures
            r.matrix() == connection::conn_view(conn),
    {
        DefaultCostFunction { conn }
    }
}

impl<'a> CostFunction for DefaultCostFunction<'a> {
    open spec fn model(&self) -> CostModel {
        default_model(self.matrix())
    }

    fn word_cost(&self, node: &LatticeNode) -> (r: i64) {
        node.cost as i64 + SEGMENT_PENALTY + script_cost(node.surface.as_str())
    }

    fn transition_cost(&self, prev: &LatticeNode, next: &LatticeNode) -> (r: i64) {
        conn_cost(self.conn, prev.right_id, next.left_id)
    }

    fn bos_cost(&self, node: &LatticeNode) -> (r: i64) {
        conn_cost(self.conn, 0, node.left_id)
    }

    fn eos_cost(&self, node: &LatticeNode) -> (r: i64) {
        conn_cost(self.conn, node.right_id, 0)
    }
}

} // verus!
