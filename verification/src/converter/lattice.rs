//! The word lattice over a kana string.

use vstd::prelude::*;

use crate::dict::{self, DictEntry, Dictionary, EntryView, ResultView, SearchResult};
use crate::text::{self, chars_of, text_between};

verus! {

/// A word that covers the characters from `start` up to `end`.
#[derive(Debug)]
pub struct LatticeNode {
    pub start: usize,
    pub end: usize,
    pub reading: String,
    pub surface: String,
    pub cost: i16,
    pub left_id: u16,
    pub right_id: u16,
}

/// What a `LatticeNode` holds.
pub struct NodeView {
    pub start: usize,
    pub end: usize,
    pub reading: Seq<char>,
    pub surface: Seq<char>,
    pub cost: i16,
    pub left_id: u16,
    pub right_id: u16,
}

impl View for LatticeNode {
    type V = NodeView;

    open spec fn view(&self) -> NodeView {
        NodeView {
            start: self.start,
            end: self.end,
            reading: self.reading@,
            surface: self.surface@,
            cost: self.cost,
            left_id: self.left_id,
            right_id: self.right_id,
        }
    }
}

/// All words of a kana string, with an index by where they start and end.
pub struct Lattice {
    pub input: String,
    pub char_count: usize,
    pub nodes: Vec<LatticeNode>,
    pub nodes_by_start: Vec<Vec<usize>>,
    pub nodes_by_end: Vec<Vec<usize>>,
}

/// What a `Lattice` holds: the nodes, and for each position the nodes that start
/// and that end there.
pub struct LatticeView {
    pub char_count: usize,
    pub nodes: Seq<NodeView>,
    pub starts: Seq<Seq<usize>>,
    pub ends: Seq<Seq<usize>>,
}

impl View for Lattice {
    type V = LatticeView;

    open spec fn view(&self) -> LatticeView {
        LatticeView {
            char_count: self.char_count,
            nodes: text::views(self.nodes@),
            starts: text::views(self.nodes_by_start@),
            ends: text::views(self.nodes_by_end@),
        }
    }
}

impl LatticeView {
    pub open spec fn node(self, i: int) -> NodeView {
        self.nodes[i]
    }

    pub open spec fn from(self, pos: int) -> Seq<usize> {
        self.starts[pos]
    }

    pub open spec fn upto(self, pos: int) -> Seq<usize> {
        self.ends[pos]
    }

    /// Every node lies in the string, and the two indexes list exactly the
    /// nodes that start, or end, at each position, each once.
    pub open spec fn wf(self) -> bool {
        &&& self.nodes.len() <= usize::MAX
        &&& self.starts.len() == self.char_count + 1
        &&& self.ends.len() == self.char_count + 1
        &&& forall|i: int|
            0 <= i < self.nodes.len() ==> (#[trigger] self.node(i)).start < self.node(i).end
                <= self.char_count
        &&& forall|p: int, k: int|
            0 <= p <= self.char_count && 0 <= k < self.from(p).len() ==> (
            #[trigger] self.from(p)[k]) < self.nodes.len() && self.node(
                self.from(p)[k] as int,
            ).start == p
        &&& forall|p: int, k: int|
            0 <= p <= self.char_count && 0 <= k < self.upto(p).len() ==> (
            #[trigger] self.upto(p)[k]) < self.nodes.len() && self.node(
                self.upto(p)[k] as int,
            ).end == p
        &&& forall|i: int|
            0 <= i < self.nodes.len() ==> #[trigger] self.from(
                self.node(i).start as int,
            ).contains(i as usize)
        &&& forall|i: int|
            0 <= i < self.nodes.len() ==> #[trigger] self.upto(self.node(i).end as int).contains(
                i as usize,
            )
        &&& forall|p: int|
            0 <= p <= self.char_count ==> (#[trigger] self.from(p)).no_duplicates()
        &&& forall|p: int|
            0 <= p <= self.char_count ==> (#[trigger] self.upto(p)).no_duplicates()
    }
}

/// The lattice of `nodes` over a string of `char_count` characters.
pub open spec fn indexed(char_count: usize, nodes: Seq<NodeView>) -> LatticeView {
    LatticeView {
        char_count,
        nodes,
        starts: Seq::new(
            (char_count + 1) as nat,
            |p: int| starting_at(nodes, p, nodes.len()),
        ),
        ends: Seq::new((char_count + 1) as nat, |p: int| ending_at(nodes, p, nodes.len())),
    }
}

/// The lattice of all dictionary words in `kana`.
pub open spec fn lattice_of(
    words: Map<Seq<char>, Seq<EntryView>>,
    kana: Seq<char>,
) -> LatticeView {
    indexed(kana.len() as usize, nodes_before(words, kana, kana.len()))
}

/// The word cost of a character that no dictionary entry covers alone.
pub const UNKNOWN_WORD_COST: i16 = 10000;

/// The nodes of the entries of one reading that starts at `start`.
pub open spec fn entry_nodes(start: usize, r: ResultView) -> Seq<NodeView> {
    Seq::new(
        r.entries.len(),
        |i: int|
            NodeView {
                start,
                end: (start + r.reading.len()) as usize,
                reading: r.reading,
                surface: r.entries[i].surface,
                cost: r.entries[i].cost,
                left_id: r.entries[i].left_id,
                right_id: r.entries[i].right_id,
            },
    )
}

/// The nodes of the first `k` readings found at `start`. An empty reading
/// covers nothing and has no node.
pub open spec fn found_nodes(start: usize, rs: Seq<ResultView>, k: nat) -> Seq<NodeView>
    decreases k,
{
    if k == 0 {
        Seq::empty()
    } else {
        let before = found_nodes(start, rs, (k - 1) as nat);
        if rs[k - 1].reading.len() == 0 {
            before
        } else {
            before + entry_nodes(start, rs[k - 1])
        }
    }
}

/// The node of a character that stands for itself.
pub open spec fn unknown_node(start: usize, c: char) -> NodeView {
    NodeView {
        start,
        end: (start + 1) as usize,
        reading: seq![c],
        surface: seq![c],
        cost: UNKNOWN_WORD_COST,
        left_id: 0,
        right_id: 0,
    }
}

/// The nodes that start at `start`: those of the dictionary, and the character
/// itself where the dictionary has no word of that one character.
pub open spec fn nodes_at(
    words: Map<Seq<char>, Seq<EntryView>>,
    kana: Seq<char>,
    start: int,
) -> Seq<NodeView> {
    let rs = dict::prefixes_of(words, kana.skip(start));
    let found = found_nodes(start as usize, rs, rs.len());
    if exists|i: int| 0 <= i < found.len() && (#[trigger] found[i]).end == start + 1 {
        found
    } else {
        found.push(unknown_node(start as usize, kana[start]))
    }
}

/// The nodes that start before `upto`, by where they start.
pub open spec fn nodes_before(
    words: Map<Seq<char>, Seq<EntryView>>,
    kana: Seq<char>,
    upto: nat,
) -> Seq<NodeView>
    decreases upto,
{
    if upto == 0 {
        Seq::empty()
    } else {
        nodes_before(words, kana, (upto - 1) as nat) + nodes_at(words, kana, upto - 1)
    }
}

/// The indexes below `i` of the nodes that start at `p`.
pub open spec fn starting_at(nodes: Seq<NodeView>, p: int, i: nat) -> Seq<usize>
    decreases i,
{
    if i == 0 {
        Seq::empty()
    } else {
        let before = starting_at(nodes, p, (i - 1) as nat);
        if nodes[i - 1].start == p {
            before.push((i - 1) as usize)
        } else {
            before
        }
    }
}

/// The indexes below `i` of the nodes that end at `p`.
pub open spec fn ending_at(nodes: Seq<NodeView>, p: int, i: nat) -> Seq<usize>
    decreases i,
{
    if i == 0 {
        Seq::empty()
    } else {
        let before = ending_at(nodes, p, (i - 1) as nat);
        if nodes[i - 1].end == p {
            before.push((i - 1) as usize)
        } else {
            before
        }
    }
}

proof fn lemma_starting_at(nodes: Seq<NodeView>, p: int, i: nat)
    requires
        i <= nodes.len() <= usize::MAX,
    ensures
        forall|k: int|
            0 <= k < starting_at(nodes, p, i).len() ==> (#[trigger] starting_at(nodes, p, i)[k]) < i
                && nodes[starting_at(nodes, p, i)[k] as int].start == p,
        forall|j: int|
            0 <= j < i && (#[trigger] nodes[j]).start == p ==> starting_at(nodes, p, i).contains(
                j as usize,
            ),
        starting_at(nodes, p, i).no_duplicates(),
    decreases i,
{
    if i > 0 {
        let i1 = (i - 1) as nat;
        lemma_starting_at(nodes, p, i1);
        let s = starting_at(nodes, p, i1);
        let r = starting_at(nodes, p, i);
        assert forall|j: int| 0 <= j < i && (#[trigger] nodes[j]).start == p implies r.contains(
            j as usize,
        ) by {
            if j < i1 {
                assert(s.contains(j as usize));
                let k = choose|k: int| 0 <= k < s.len() && s[k] == j as usize;
                assert(r[k] == j as usize);
            } else {
                assert(r[s.len() as int] == j as usize);
            }
        }
    }
}

proof fn lemma_ending_at(nodes: Seq<NodeView>, p: int, i: nat)
    requires
        i <= nodes.len() <= usize::MAX,
    ensures
        forall|k: int|
            0 <= k < ending_at(nodes, p, i).len() ==> (#[trigger] ending_at(nodes, p, i)[k]) < i
                && nodes[ending_at(nodes, p, i)[k] as int].end == p,
        forall|j: int|
            0 <= j < i && (#[trigger] nodes[j]).end == p ==> ending_at(nodes, p, i).contains(
                j as usize,
            ),
        ending_at(nodes, p, i).no_duplicates(),
    decreases i,
{
    if i > 0 {
        let i1 = (i - 1) as nat;
        lemma_ending_at(nodes, p, i1);
        let s = ending_at(nodes, p, i1);
        let r = ending_at(nodes, p, i);
        assert forall|j: int| 0 <= j < i && (#[trigger] nodes[j]).end == p implies r.contains(
            j as usize,
        ) by {
            if j < i1 {
                assert(s.contains(j as usize));
                let k = choose|k: int| 0 <= k < s.len() && s[k] == j as usize;
                assert(r[k] == j as usize);
            } else {
                assert(r[s.len() as int] == j as usize);
            }
        }
    }
}

fn empty_lists(n: usize) -> (r: Vec<Vec<usize>>)
    ensures
        r@.len() == n,
        forall|p: int| 0 <= p < n ==> (#[trigger] r@[p])@ == Seq::<usize>::empty(),
{
    let mut out: Vec<Vec<usize>> = Vec::new();
    let mut i: usize = 0;
    while i < n
        invariant
            i <= n,
            out@.len() == i,
            forall|p: int| 0 <= p < i ==> (#[trigger] out@[p])@ == Seq::<usize>::empty(),
        decreases n - i,
    {
        out.push(Vec::new());
        i = i + 1;
    }
    out
}

proof fn lemma_indexed(char_count: usize, nodes: Seq<NodeView>)
    requires
        nodes.len() <= usize::MAX,
        forall|i: int|
            0 <= i < nodes.len() ==> (#[trigger] nodes[i]).start < nodes[i].end <= char_count,
    ensures
        indexed(char_count, nodes).wf(),
{
    let r = indexed(char_count, nodes);
    assert forall|p: int| 0 <= p <= char_count implies {
        &&& (#[trigger] r.from(p)).no_duplicates()
        &&& forall|k: int|
            0 <= k < r.from(p).len() ==> (#[trigger] r.from(p)[k]) < r.nodes.len() && r.node(
                r.from(p)[k] as int,
            ).start == p
    } by {
        lemma_starting_at(nodes, p, nodes.len());
    }
    assert forall|p: int| 0 <= p <= char_count implies {
        &&& (#[trigger] r.upto(p)).no_duplicates()
        &&& forall|k: int|
            0 <= k < r.upto(p).len() ==> (#[trigger] r.upto(p)[k]) < r.nodes.len() && r.node(
                r.upto(p)[k] as int,
            ).end == p
    } by {
        lemma_ending_at(nodes, p, nodes.len());
    }
    assert forall|j: int| 0 <= j < r.nodes.len() implies #[trigger] r.from(
        r.node(j).start as int,
    ).contains(j as usize) by {
        lemma_starting_at(nodes, r.node(j).start as int, nodes.len());
        assert(nodes[j].start < nodes[j].end);
    }
    assert forall|j: int| 0 <= j < r.nodes.len() implies #[trigger] r.upto(
        r.node(j).end as int,
    ).contains(j as usize) by {
        lemma_ending_at(nodes, r.node(j).end as int, nodes.len());
        assert(nodes[j].start < nodes[j].end);
    }
}

/// Makes a lattice of `nodes`, with the two indexes.
pub fn index_nodes(input: String, char_count: usize, nodes: Vec<LatticeNode>) -> (r: Lattice)
    requires
        char_count < usize::MAX,
        forall|i: int|
            0 <= i < nodes@.len() ==> (#[trigger] nodes@[i]).start < nodes@[i].end <= char_count,
    ensures
        r@ == indexed(char_count, text::views(nodes@)),
        r@.wf(),
        r.input == input,
        r.nodes == nodes,
{
    let ghost vs = text::views(nodes@);
    let mut by_start: Vec<Vec<usize>> = empty_lists(char_count + 1);
    let mut by_end: Vec<Vec<usize>> = empty_lists(char_count + 1);
    let mut i: usize = 0;
    while i < nodes.len()
        invariant
            i <= nodes@.len(),
            vs == text::views(nodes@),
            by_start@.len() == char_count + 1,
            by_end@.len() == char_count + 1,
            forall|k: int|
                0 <= k < nodes@.len() ==> (#[trigger] nodes@[k]).start < nodes@[k].end
                    <= char_count,
            forall|p: int|
                0 <= p <= char_count ==> (#[trigger] by_start@[p])@ == starting_at(
                    vs,
                    p,
                    i as nat,
                ),
            forall|p: int|
                0 <= p <= char_count ==> (#[trigger] by_end@[p])@ == ending_at(vs, p, i as nat),
        decreases nodes.len() - i,
    {
        let s: usize = nodes[i].start;
        let e: usize = nodes[i].end;
        proof {
            assert(vs[i as int] == nodes@[i as int]@);
        }
        by_start[s].push(i);
        by_end[e].push(i);
        i = i + 1;
    }
    let r = Lattice { input, char_count, nodes, nodes_by_start: by_start, nodes_by_end: by_end };
    proof {
        let goal = indexed(char_count, vs);
        assert(nodes.len() == vs.len());
        assert forall|k: int| 0 <= k < vs.len() implies (#[trigger] vs[k]).start < vs[k].end
            <= char_count by {
            assert(nodes@[k].start < nodes@[k].end);
        }
        lemma_indexed(char_count, vs);
        assert(r@.starts =~= goal.starts) by {
            assert forall|p: int| 0 <= p <= char_count implies r@.starts[p]
                == #[trigger] goal.starts[p] by {
                assert(by_start@[p]@ == starting_at(vs, p, i as nat));
            }
        }
        assert(r@.ends =~= goal.ends) by {
            assert forall|p: int| 0 <= p <= char_count implies r@.ends[p]
                == #[trigger] goal.ends[p] by {
                assert(by_end@[p]@ == ending_at(vs, p, i as nat));
            }
        }
    }
    r
}

fn push_entry_nodes(nodes: &mut Vec<LatticeNode>, start: usize, end: usize, r: &SearchResult)
    requires
        end == start + r@.reading.len(),
    ensures
        text::views(final(nodes)@) == text::views(old(nodes)@) + entry_nodes(start, r@),
{
    let ghost before = text::views(nodes@);
    let ghost all = entry_nodes(start, r@);
    let mut i: usize = 0;
    while i < r.entries.len()
        invariant
            i <= r.entries@.len(),
            end == start + r@.reading.len(),
            all == entry_nodes(start, r@),
            text::views(nodes@) =~= before + all.take(i as int),
        decreases r.entries.len() - i,
    {
        let e: &DictEntry = &r.entries[i];
        let ghost prior = nodes@;
        nodes.push(
            LatticeNode {
                start,
                end,
                reading: r.reading.clone(),
                surface: e.surface.clone(),
                cost: e.cost,
                left_id: e.left_id,
                right_id: e.right_id,
            },
        );
        proof {
            assert(r@.entries[i as int] == e@);
            assert(text::views(nodes@) =~= text::views(prior).push(nodes@.last()@));
            assert(nodes@.last()@ == all[i as int]);
            assert(all.take(i + 1) =~= all.take(i as int).push(all[i as int]));
        }
        i = i + 1;
    }
    proof {
        assert(all.take(all.len() as int) =~= all);
    }
}

proof fn lemma_prefix_lengths(
    words: Map<Seq<char>, Seq<EntryView>>,
    query: Seq<char>,
    k: nat,
)
    requires
        k <= query.len() + 1,
    ensures
        forall|i: int|
            0 <= i < dict::prefixes_below(words, query, k).len() ==> {
                let r = #[trigger] dict::prefixes_below(words, query, k)[i];
                r.reading.len() <= query.len() && r.reading == query.take(r.reading.len() as int)
            },
    decreases k,
{
    if k > 0 {
        lemma_prefix_lengths(words, query, (k - 1) as nat);
        let found = dict::prefixes_below(words, query, (k - 1) as nat);
        let all = dict::prefixes_below(words, query, k);
        assert forall|i: int| 0 <= i < all.len() implies ({
            let r = #[trigger] all[i];
            r.reading.len() <= query.len() && r.reading == query.take(r.reading.len() as int)
        }) by {
            if i < found.len() {
                assert(all[i] == found[i]);
            }
        }
    }
}

/// The words of the nodes that were found start at `start` and end inside the
/// string.
proof fn lemma_found_nodes(start: usize, rs: Seq<ResultView>, k: nat, kana: Seq<char>)
    requires
        k <= rs.len(),
        start < kana.len() <= usize::MAX,
        forall|i: int|
            0 <= i < rs.len() ==> (#[trigger] rs[i]).reading.len() <= kana.len() - start
                && rs[i].reading == kana.skip(start as int).take(rs[i].reading.len() as int),
    ensures
        forall|i: int|
            0 <= i < found_nodes(start, rs, k).len() ==> {
                let n = #[trigger] found_nodes(start, rs, k)[i];
                &&& n.start == start
                &&& start < n.end <= kana.len()
                &&& n.reading == kana.subrange(start as int, n.end as int)
            },
    decreases k,
{
    if k > 0 {
        lemma_found_nodes(start, rs, (k - 1) as nat, kana);
        let r = rs[k - 1];
        let before = found_nodes(start, rs, (k - 1) as nat);
        let all = found_nodes(start, rs, k);
        assert forall|i: int| 0 <= i < all.len() implies ({
            let n = #[trigger] all[i];
            &&& n.start == start
            &&& start < n.end <= kana.len()
            &&& n.reading == kana.subrange(start as int, n.end as int)
        }) by {
            if i < before.len() {
                assert(all[i] == before[i]);
            } else {
                assert(all[i] == entry_nodes(start, r)[i - before.len()]);
                assert(kana.skip(start as int).take(r.reading.len() as int) =~= kana.subrange(
                    start as int,
                    start + r.reading.len(),
                ));
            }
        }
    }
}

/// A node that covers a part of `kana`, and reads as that part.
pub open spec fn covers_part(n: NodeView, kana: Seq<char>) -> bool {
    &&& n.start < n.end <= kana.len()
    &&& n.reading == kana.subrange(n.start as int, n.end as int)
}

proof fn lemma_nodes_at(words: Map<Seq<char>, Seq<EntryView>>, kana: Seq<char>, start: int)
    requires
        0 <= start < kana.len() <= usize::MAX,
    ensures
        forall|i: int|
            0 <= i < nodes_at(words, kana, start).len() ==> covers_part(
                #[trigger] nodes_at(words, kana, start)[i],
                kana,
            ) && nodes_at(words, kana, start)[i].start == start,
        exists|i: int|
            0 <= i < nodes_at(words, kana, start).len() && (#[trigger] nodes_at(
                words,
                kana,
                start,
            )[i]).end == start + 1,
{
    let query = kana.skip(start);
    let rs = dict::prefixes_of(words, query);
    lemma_prefix_lengths(words, query, query.len() + 1);
    lemma_found_nodes(start as usize, rs, rs.len(), kana);
    let found = found_nodes(start as usize, rs, rs.len());
    let all = nodes_at(words, kana, start);
    if !(exists|i: int| 0 <= i < found.len() && (#[trigger] found[i]).end == start + 1) {
        assert(all[found.len() as int] == unknown_node(start as usize, kana[start]));
        assert(seq![kana[start]] =~= kana.subrange(start, start + 1));
        assert(all[found.len() as int].end == start + 1);
    }
}

proof fn lemma_nodes_before(words: Map<Seq<char>, Seq<EntryView>>, kana: Seq<char>, upto: nat)
    requires
        upto <= kana.len() <= usize::MAX,
    ensures
        forall|i: int|
            0 <= i < nodes_before(words, kana, upto).len() ==> covers_part(
                #[trigger] nodes_before(words, kana, upto)[i],
                kana,
            ) && nodes_before(words, kana, upto)[i].start < upto,
        forall|p: int|
            0 <= p < upto ==> #[trigger] has_step(nodes_before(words, kana, upto), p),
    decreases upto,
{
    if upto > 0 {
        let u1 = (upto - 1) as nat;
        lemma_nodes_before(words, kana, u1);
        lemma_nodes_at(words, kana, u1 as int);
        let a = nodes_before(words, kana, u1);
        let b = nodes_at(words, kana, u1 as int);
        let all = nodes_before(words, kana, upto);
        assert forall|i: int| 0 <= i < all.len() implies covers_part(#[trigger] all[i], kana)
            && all[i].start < upto by {
            if i < a.len() {
                assert(all[i] == a[i]);
            } else {
                assert(all[i] == b[i - a.len()]);
            }
        }
        assert forall|p: int| 0 <= p < upto implies #[trigger] has_step(all, p) by {
            if p < u1 {
                assert(has_step(a, p));
                let i = choose|i: int|
                    0 <= i < a.len() && (#[trigger] a[i]).start == p && a[i].end == p + 1;
                assert(all[i] == a[i]);
            } else {
                let i = choose|i: int| 0 <= i < b.len() && (#[trigger] b[i]).end == p + 1;
                assert(all[a.len() + i] == b[i]);
            }
        }
    }
}

/// Some node covers just the character at `p`.
pub open spec fn has_step(nodes: Seq<NodeView>, p: int) -> bool {
    exists|i: int| 0 <= i < nodes.len() && (#[trigger] nodes[i]).start == p && nodes[i].end == p + 1
}

/// Adds the nodes that start at `start`.
fn push_nodes_at<D: Dictionary>(
    nodes: &mut Vec<LatticeNode>,
    dict: &D,
    chars: &Vec<char>,
    start: usize,
)
    requires
        dict.valid(),
        start < chars@.len(),
    ensures
        text::views(final(nodes)@) == text::views(old(nodes)@) + nodes_at(
            dict.words(),
            chars@,
            start as int,
        ),
{
    let ghost before = text::views(nodes@);
    let first: usize = nodes.len();
    let suffix: String = text_between(chars, start, chars.len());
    let results: Vec<SearchResult> = dict.common_prefix_search(suffix.as_str());
    let ghost rs = dict::prefixes_of(dict.words(), chars@.skip(start as int));
    proof {
        assert(suffix@ =~= chars@.skip(start as int));
        lemma_prefix_lengths(dict.words(), suffix@, suffix@.len() + 1);
        assert(before + found_nodes(start, rs, 0) =~= before);
    }
    let mut k: usize = 0;
    while k < results.len()
        invariant
            k <= results@.len(),
            start < chars@.len() <= usize::MAX,
            rs == text::views(results@),
            forall|i: int|
                0 <= i < rs.len() ==> (#[trigger] rs[i]).reading.len() <= chars@.len() - start,
            text::views(nodes@) == before + found_nodes(start, rs, k as nat),
        decreases results.len() - k,
    {
        let r: &SearchResult = &results[k];
        proof {
            assert(rs[k as int] == r@);
        }
        let len: usize = r.reading.as_str().unicode_len();
        if len > 0 {
            push_entry_nodes(nodes, start, start + len, r);
            proof {
                assert(text::views(nodes@) =~= before + found_nodes(start, rs, (k + 1) as nat));
            }
        }
        k = k + 1;
    }
    let ghost found = found_nodes(start, rs, rs.len());
    let mut has_single: bool = false;
    let mut i: usize = first;
    while i < nodes.len()
        invariant
            first <= i <= nodes@.len(),
            start < chars@.len() <= usize::MAX,
            first == before.len(),
            text::views(nodes@) == before + found,
            has_single == exists|j: int|
                0 <= j < i - first && (#[trigger] found[j]).end == start + 1,
        decreases nodes.len() - i,
    {
        proof {
            assert(text::views(nodes@).len() == (before + found).len());
            assert(text::views(nodes@)[i as int] == nodes@[i as int]@);
            assert((before + found)[i as int] == found[i - first]);
            assert(found[i - first] == nodes@[i as int]@);
        }
        if nodes[i].end == start + 1 {
            has_single = true;
        }
        i = i + 1;
    }
    if !has_single {
        let mut text = String::new();
        text.push(chars[start]);
        let ghost prior = nodes@;
        nodes.push(
            LatticeNode {
                start,
                end: start + 1,
                reading: text.clone(),
                surface: text,
                cost: UNKNOWN_WORD_COST,
                left_id: 0,
                right_id: 0,
            },
        );
        proof {
            assert(text::views(nodes@) =~= text::views(prior).push(nodes@.last()@));
            assert(nodes@.last()@.reading =~= seq![chars@[start as int]]);
            assert(nodes@.last()@ == unknown_node(start, chars@[start as int]));
        }
    }
    proof {
        assert(text::views(nodes@) =~= before + nodes_at(dict.words(), chars@, start as int));
    }
}

/// Builds the lattice of all dictionary words in `kana`. A character that is no
/// word by itself stands for itself, so that the lattice always has a path.
pub fn build_lattice<D: Dictionary>(dict: &D, kana: &str) -> (r: Lattice)
    requires
        dict.valid(),
    ensures
        r@ == lattice_of(dict.words(), kana@),
        r@.wf(),
        r.input@ == kana@,
{
    let mut chars: Vec<char> = chars_of(kana);
    // The end of the input is a position too: there is one more position than
    // there are characters.
    chars.push(' ');
    let positions: usize = chars.len();
    chars.truncate(positions - 1);
    let mut nodes: Vec<LatticeNode> = Vec::new();
    let mut start: usize = 0;
    proof {
        assert(chars@ =~= kana@);
        assert(text::views(nodes@) =~= Seq::empty());
    }
    while start < chars.len()
        invariant
            start <= chars@.len(),
            dict.valid(),
            text::views(nodes@) == nodes_before(dict.words(), chars@, start as nat),
        decreases chars.len() - start,
    {
        push_nodes_at(&mut nodes, dict, &chars, start);
        start = start + 1;
    }
    proof {
        lemma_nodes_before(dict.words(), chars@, chars@.len());
        assert forall|i: int| 0 <= i < nodes@.len() implies (#[trigger] nodes@[i]).start
            < nodes@[i].end <= chars@.len() by {
            assert(covers_part(text::views(nodes@)[i], kana@));
        }
    }
    index_nodes(kana.to_owned(), chars.len(), nodes)
}

/// A lattice over `kana`: each node reads as the part that it covers, and each
/// single character is a node.
pub open spec fn reads(l: LatticeView, kana: Seq<char>) -> bool {
    &&& l.wf()
    &&& l.char_count == kana.len()
    &&& forall|i: int| 0 <= i < l.nodes.len() ==> covers_part(#[trigger] l.node(i), kana)
    &&& forall|p: int| 0 <= p < kana.len() ==> #[trigger] has_step(l.nodes, p)
}

/// The lattice that is built over a string reads as that string.
pub proof fn lattice_reads_input(words: Map<Seq<char>, Seq<EntryView>>, kana: Seq<char>)
    requires
        kana.len() <= usize::MAX,
        nodes_before(words, kana, kana.len()).len() <= usize::MAX,
    ensures
        reads(lattice_of(words, kana), kana),
{
    lemma_nodes_before(words, kana, kana.len());
    let l = lattice_of(words, kana);
    assert forall|k: int| 0 <= k < l.nodes.len() implies (#[trigger] l.nodes[k]).start
        < l.nodes[k].end <= kana.len() by {
        assert(covers_part(l.nodes[k], kana));
    }
    lemma_indexed(kana.len() as usize, l.nodes);
}

} // verus!
