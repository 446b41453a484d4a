//! A trie of romaji sequences.

use vstd::prelude::*;

use super::table::{MAPPINGS, MAPPING_COUNT};
use crate::text::chars_of;

verus! {

/// What is known of a romaji sequence.
#[derive(Debug, PartialEq)]
pub enum TrieLookupResult {
    /// Neither a sequence nor the beginning of one.
    NoMatch,
    /// The beginning of a longer sequence.
    Prefix,
    /// A sequence, with its kana.
    Exact(String),
    /// A sequence that is also the beginning of a longer one.
    ExactAndPrefix(String),
}

/// What a `TrieLookupResult` holds.
pub enum LookupView {
    NoMatch,
    Prefix,
    Exact(Seq<char>),
    ExactAndPrefix(Seq<char>),
}

impl View for TrieLookupResult {
    type V = LookupView;

    open spec fn view(&self) -> LookupView {
        match *self {
            TrieLookupResult::NoMatch => LookupView::NoMatch,
            TrieLookupResult::Prefix => LookupView::Prefix,
            TrieLookupResult::Exact(k) => LookupView::Exact(k@),
            TrieLookupResult::ExactAndPrefix(k) => LookupView::ExactAndPrefix(k@),
        }
    }
}

/// Whether `a` begins `b` and is shorter.
pub open spec fn begins(a: Seq<char>, b: Seq<char>) -> bool {
    a.len() < b.len() && a.is_prefix_of(b)
}

/// Whether a table has a sequence that is longer than `romaji` and begins with it.
pub open spec fn has_longer(table: Map<Seq<char>, Seq<char>>, romaji: Seq<char>) -> bool {
    exists|k: Seq<char>| #[trigger] table.contains_key(k) && begins(romaji, k)
}

/// What a table knows of a sequence.
pub open spec fn known(table: Map<Seq<char>, Seq<char>>, romaji: Seq<char>) -> LookupView {
    if table.contains_key(romaji) {
        if has_longer(table, romaji) {
            LookupView::ExactAndPrefix(table[romaji])
        } else {
            LookupView::Exact(table[romaji])
        }
    } else if has_longer(table, romaji) {
        LookupView::Prefix
    } else {
        LookupView::NoMatch
    }
}

/// The first `n` rows of a list of mappings, as a table; a later row replaces an
/// earlier one.
pub open spec fn rows_table(rows: Seq<(&str, &str)>, n: nat) -> Map<Seq<char>, Seq<char>>
    decreases n,
{
    if n == 0 {
        Map::empty()
    } else {
        rows_table(rows, (n - 1) as nat).insert(rows[n - 1].0@, rows[n - 1].1@)
    }
}

/// The romaji table.
pub open spec fn romaji_table() -> Map<Seq<char>, Seq<char>> {
    rows_table(MAPPINGS@, MAPPING_COUNT as nat)
}

struct Node {
    children: Vec<(char, usize)>,
    kana: Option<String>,
}

/// A trie of romaji sequences: nodes in the order in which they were made, the
/// root first. With each node goes the sequence that leads to it.
pub struct RomajiTrie {
    nodes: Vec<Node>,
    paths: Ghost<Seq<Seq<char>>>,
}

impl View for RomajiTrie {
    type V = Map<Seq<char>, Seq<char>>;

    closed spec fn view(&self) -> Map<Seq<char>, Seq<char>> {
        Map::new(
            |k: Seq<char>| exists|i: int| self.ends_at(k, i),
            |k: Seq<char>| self.nodes@[choose|i: int| self.ends_at(k, i)].kana->0@,
        )
    }
}

impl RomajiTrie {
    /// Whether the sequence `k` ends at node `i` and has a kana there.
    spec fn ends_at(&self, k: Seq<char>, i: int) -> bool {
        0 <= i < self.nodes@.len() && self.paths@[i] == k && self.nodes@[i].kana is Some
    }

    /// Whether node `j` is the child of node `i` by `c`.
    spec fn links(&self, i: int, c: char, j: int) -> bool {
        0 <= i < self.nodes@.len() && self.nodes@[i].children@.contains((c, j as usize))
    }

    /// The nodes form a tree, and the paths are those of the tree.
    spec fn is_tree(&self) -> bool {
        let n = self.nodes@.len() as int;
        &&& n >= 1
        &&& self.paths@.len() == n
        &&& self.paths@[0] == Seq::<char>::empty()
        &&& forall|i: int, k: int|
            #![trigger self.nodes@[i].children@[k]]
            0 <= i < n && 0 <= k < self.nodes@[i].children@.len() ==> {
                let (c, j) = self.nodes@[i].children@[k];
                i < j < n && self.paths@[j as int] == self.paths@[i].push(c)
            }
        &&& forall|i: int, j: int|
            0 <= i < n && 0 <= j < n && i != j ==> #[trigger] self.paths@[i] != #[trigger] self.paths@[j]
        &&& forall|j: int|
            0 < j < n ==> self.has_parent(j, #[trigger] self.paths@[j])
    }

    spec fn has_parent(&self, j: int, path: Seq<char>) -> bool {
        path.len() > 0 && exists|i: int| #[trigger]
            self.links(i, path.last(), j) && self.paths@[i] == path.drop_last()
    }

    /// Every node but the root, and but the node `open`, leads to a kana.
    spec fn is_closed_but(&self, open: int) -> bool {
        forall|j: int|
            0 < j < self.nodes@.len() && j != open ==> (#[trigger] self.nodes@[j]).kana is Some
                || self.nodes@[j].children@.len() > 0
    }

    pub closed spec fn wf(&self) -> bool {
        self.is_tree() && self.is_closed_but(0)
    }

    /// Two nodes with the same path are one.
    proof fn lemma_key(&self, k: Seq<char>, i: int)
        requires
            self.is_tree(),
            self.ends_at(k, i),
        ensures
            self@.contains_key(k),
            self@[k] == self.nodes@[i].kana->0@,
    {
        let j = choose|j: int| self.ends_at(k, j);
        assert(self.paths@[i] == self.paths@[j]);
        assert(i == j);
    }

    /// A path that begins the path of a node is the path of a node.
    proof fn lemma_prefix_is_path(&self, p: Seq<char>, j: int) -> (i: int)
        requires
            self.is_tree(),
            0 <= j < self.nodes@.len(),
            p.is_prefix_of(self.paths@[j]),
        ensures
            0 <= i < self.nodes@.len(),
            self.paths@[i] == p,
        decreases self.paths@[j].len(),
    {
        let q = self.paths@[j];
        if p.len() == q.len() {
            assert(q.subrange(0, p.len() as int) =~= q);
            j
        } else {
            assert(j > 0) by {
                if j == 0 {
                    assert(q.len() == 0);
                }
            }
            assert(self.has_parent(j, self.paths@[j]));
            let i = choose|i: int| #[trigger]
                self.links(i, q.last(), j) && self.paths@[i] == q.drop_last();
            assert(q.drop_last().subrange(0, p.len() as int) =~= q.subrange(0, p.len() as int));
            self.lemma_prefix_is_path(p, i)
        }
    }

    /// A node other than the root leads to a key.
    proof fn lemma_leads_to_key(&self, j: int) -> (k: Seq<char>)
        requires
            self.wf(),
            0 < j < self.nodes@.len(),
        ensures
            self@.contains_key(k),
            self.paths@[j].is_prefix_of(k),
        decreases self.nodes@.len() - j,
    {
        let p = self.paths@[j];
        if self.nodes@[j].kana is Some {
            assert(self.ends_at(p, j));
            self.lemma_key(p, j);
            assert(p.subrange(0, p.len() as int) =~= p);
            p
        } else {
            let (c, m) = self.nodes@[j].children@[0];
            let k = self.lemma_leads_to_key(m as int);
            assert(self.paths@[m as int] == p.push(c));
            assert(k.subrange(0, p.len() as int) =~= p) by {
                assert(k.subrange(0, p.len() as int + 1) == p.push(c));
                assert forall|x: int| 0 <= x < p.len() implies k[x] == p[x] by {
                    assert(k.subrange(0, p.len() as int + 1)[x] == p.push(c)[x]);
                }
            }
            k
        }
    }

    /// A node with a child is the beginning of a longer key.
    proof fn lemma_child_is_longer(&self, i: int)
        requires
            self.wf(),
            0 <= i < self.nodes@.len(),
            self.nodes@[i].children@.len() > 0,
        ensures
            has_longer(self@, self.paths@[i]),
    {
        let p = self.paths@[i];
        let (c, j) = self.nodes@[i].children@[0];
        let k = self.lemma_leads_to_key(j as int);
        let q = p.push(c);
        assert(self.paths@[j as int] == q);
        assert(k.subrange(0, p.len() as int) =~= p) by {
            assert(k.subrange(0, q.len() as int) == q);
            assert forall|x: int| 0 <= x < p.len() implies k[x] == p[x] by {
                assert(k.subrange(0, q.len() as int)[x] == q[x]);
            }
        }
        assert(begins(p, k));
    }

    /// The node of the beginning of a longer key has a child.
    proof fn lemma_longer_has_child(&self, i: int, k: Seq<char>)
        requires
            self.is_tree(),
            0 <= i < self.nodes@.len(),
            self@.contains_key(k),
            begins(self.paths@[i], k),
        ensures
            self.nodes@[i].children@.len() > 0,
    {
        let p = self.paths@[i];
        let j = choose|j: int| self.ends_at(k, j);
        let q = k.take(p.len() as int + 1);
        assert(q.is_prefix_of(k)) by {
            assert(k.subrange(0, q.len() as int) =~= q);
        }
        let m = self.lemma_prefix_is_path(q, j);
        assert(q.len() > 0);
        assert(self.paths@[0].len() == 0);
        assert(m != 0);
        assert(self.has_parent(m, self.paths@[m]));
        let i2 = choose|i2: int| #[trigger]
            self.links(i2, q.last(), m) && self.paths@[i2] == q.drop_last();
        assert(q.drop_last() =~= p) by {
            assert(k.subrange(0, p.len() as int) == p);
        }
        assert(i2 == i);
    }

    /// At a node, having children is being the beginning of a longer key.
    proof fn lemma_children(&self, i: int)
        requires
            self.wf(),
            0 <= i < self.nodes@.len(),
        ensures
            has_longer(self@, self.paths@[i]) <==> self.nodes@[i].children@.len() > 0,
    {
        let p = self.paths@[i];
        if self.nodes@[i].children@.len() > 0 {
            self.lemma_child_is_longer(i);
        } else if has_longer(self@, p) {
            let k = choose|k: Seq<char>| #[trigger] self@.contains_key(k) && begins(p, k);
            self.lemma_longer_has_child(i, k);
        }
    }

    /// The node that `c` leads to from node `i`, if there is one.
    fn child(&self, i: usize, c: char) -> (r: Option<usize>)
        requires
            self.is_tree(),
            i < self.nodes@.len(),
        ensures
            match r {
                Some(j) => i < j < self.nodes@.len() && self.paths@[j as int]
                    == self.paths@[i as int].push(c),
                None => forall|j: int|
                    0 <= j < self.nodes@.len() ==> #[trigger] self.paths@[j]
                        != self.paths@[i as int].push(c),
            },
    {
        let children = &self.nodes[i].children;
        let mut k: usize = 0;
        while k < children.len()
            invariant
                self.is_tree(),
                i < self.nodes@.len(),
                children == self.nodes@[i as int].children,
                k <= children@.len(),
                forall|m: int| 0 <= m < k ==> (#[trigger] children@[m]).0 != c,
            decreases children@.len() - k,
        {
            if children[k].0 == c {
                let j: usize = children[k].1;
                proof {
                    assert(self.nodes@[i as int].children@[k as int] == (c, j));
                }
                return Some(j);
            }
            k = k + 1;
        }
        proof {
            let want = self.paths@[i as int].push(c);
            assert forall|j: int| 0 <= j < self.nodes@.len() implies #[trigger] self.paths@[j]
                != want by {
                if self.paths@[j] == want {
                    assert(want.len() > 0);
                    assert(self.paths@[0].len() == 0);
                    assert(j != 0);
                    assert(self.has_parent(j, self.paths@[j]));
                    let i2 = choose|i2: int| #[trigger]
                        self.links(i2, want.last(), j) && self.paths@[i2] == want.drop_last();
                    assert(want.drop_last() =~= self.paths@[i as int]);
                    assert(i2 == i);
                    assert(children@.contains((c, j as usize)));
                }
            }
        }
        None
    }

    /// What the trie knows of a romaji sequence.
    pub fn lookup(&self, romaji: &str) -> (r: TrieLookupResult)
        requires
            self.wf(),
        ensures
            r@ == known(self@, romaji@),
    {
        let chars = chars_of(romaji);
        let mut node: usize = 0;
        let mut k: usize = 0;
        while k < chars.len()
            invariant
                self.wf(),
                chars@ == romaji@,
                k <= chars@.len(),
                node < self.nodes@.len(),
                self.paths@[node as int] == chars@.take(k as int),
            decreases chars@.len() - k,
        {
            proof {
                assert(chars@.take(k as int + 1) =~= chars@.take(k as int).push(chars@[k as int]));
            }
            match self.child(node, chars[k]) {
                Some(j) => {
                    node = j;
                },
                None => {
                    proof {
                        self.lemma_no_path(romaji@, k as int + 1);
                    }
                    return TrieLookupResult::NoMatch;
                },
            }
            k = k + 1;
        }
        proof {
            assert(chars@.take(chars@.len() as int) =~= chars@);
            self.lemma_children(node as int);
            if self.nodes@[node as int].kana is Some {
                assert(self.ends_at(romaji@, node as int));
                self.lemma_key(romaji@, node as int);
            } else if self@.contains_key(romaji@) {
                let j = choose|j: int| self.ends_at(romaji@, j);
                assert(self.paths@[j] == self.paths@[node as int]);
            }
        }
        let has_children = self.nodes[node].children.len() > 0;
        match &self.nodes[node].kana {
            Some(kana) => {
                if has_children {
                    TrieLookupResult::ExactAndPrefix(kana.clone())
                } else {
                    TrieLookupResult::Exact(kana.clone())
                }
            },
            None => {
                if has_children {
                    TrieLookupResult::Prefix
                } else {
                    TrieLookupResult::NoMatch
                }
            },
        }
    }

    /// A sequence with a beginning that no node has is not known at all.
    proof fn lemma_no_path(&self, romaji: Seq<char>, n: int)
        requires
            self.wf(),
            0 <= n <= romaji.len(),
            forall|j: int| 0 <= j < self.nodes@.len() ==> #[trigger] self.paths@[j] != romaji.take(n),
        ensures
            known(self@, romaji) == LookupView::NoMatch,
    {
        let p = romaji.take(n);
        if self@.contains_key(romaji) {
            let j = choose|j: int| self.ends_at(romaji, j);
            assert(romaji.subrange(0, p.len() as int) =~= p);
            let i = self.lemma_prefix_is_path(p, j);
        }
        if has_longer(self@, romaji) {
            let k = choose|k: Seq<char>| #[trigger] self@.contains_key(k) && begins(romaji, k);
            let j = choose|j: int| self.ends_at(k, j);
            assert(k.subrange(0, p.len() as int) =~= p) by {
                assert(k.subrange(0, romaji.len() as int) == romaji);
                assert forall|x: int| 0 <= x < p.len() implies k[x] == p[x] by {
                    assert(k.subrange(0, romaji.len() as int)[x] == romaji[x]);
                }
            }
            let i = self.lemma_prefix_is_path(p, j);
        }
    }

    /// An empty trie.
    fn empty() -> (r: Self)
        ensures
            r.wf(),
            r@ == Map::<Seq<char>, Seq<char>>::empty(),
    {
        let mut nodes: Vec<Node> = Vec::new();
        nodes.push(Node { children: Vec::new(), kana: None });
        let ghost root: Seq<Seq<char>> = Seq::empty().push(Seq::empty());
        let r = RomajiTrie { nodes, paths: Ghost(root) };
        proof {
            assert forall|k: Seq<char>| !r@.contains_key(k) by {
                if r@.contains_key(k) {
                    let i = choose|i: int| r.ends_at(k, i);
                    assert(i == 0);
                }
            }
            assert(r@ =~= Map::<Seq<char>, Seq<char>>::empty());
        }
        r
    }

    /// The child of `i` by `c`, made if there is none.
    fn child_or_new(&mut self, i: usize, c: char) -> (r: usize)
        requires
            old(self).is_tree(),
            i < old(self).nodes@.len(),
            old(self).is_closed_but(i as int),
        ensures
            final(self).is_tree(),
            final(self).is_closed_but(r as int),
            r < final(self).nodes@.len(),
            final(self).paths@[r as int] == old(self).paths@[i as int].push(c),
            final(self)@ == old(self)@,
    {
        if let Some(j) = self.child(i, c) {
            proof {
                let q = self.paths@[j as int];
                assert(self.has_parent(j as int, q));
                let i2 = choose|i2: int| #[trigger]
                    self.links(i2, q.last(), j as int) && self.paths@[i2] == q.drop_last();
                assert(q.drop_last() =~= self.paths@[i as int]);
                assert(i2 == i);
                assert(self.nodes@[i as int].children@.len() > 0);
            }
            return j;
        }
        let j: usize = self.nodes.len();
        let ghost before = *self;
        let ghost path = self.paths@[i as int].push(c);
        self.nodes.push(Node { children: Vec::new(), kana: None });
        self.nodes[i].children.push((c, j));
        proof {
            assert(self.nodes.len() <= usize::MAX);
            self.paths@ = self.paths@.push(path);
            lemma_grown(before, *self, i as int, c);
        }
        j
    }

    /// Adds a sequence.
    fn insert(&mut self, romaji: &str, kana: &str)
        requires
            old(self).wf(),
        ensures
            final(self).wf(),
            final(self)@ == old(self)@.insert(romaji@, kana@),
    {
        let chars = chars_of(romaji);
        let ghost table = self@;
        let mut node: usize = 0;
        let mut k: usize = 0;
        while k < chars.len()
            invariant
                chars@ == romaji@,
                k <= chars@.len(),
                self.is_tree(),
                self.is_closed_but(node as int),
                node < self.nodes@.len(),
                self.paths@[node as int] == chars@.take(k as int),
                self@ == table,
            decreases chars@.len() - k,
        {
            proof {
                assert(chars@.take(k as int + 1) =~= chars@.take(k as int).push(chars@[k as int]));
            }
            node = self.child_or_new(node, chars[k]);
            k = k + 1;
        }
        let ghost before = *self;
        self.nodes[node].kana = Some(kana.to_owned());
        proof {
            assert(chars@.take(chars@.len() as int) =~= chars@);
            lemma_marked(before, *self, node as int, kana@);
        }
    }

    /// The trie of the romaji table.
    pub fn global() -> (r: Self)
        ensures
            r.wf(),
            r@ == romaji_table(),
    {
        let mut trie = RomajiTrie::empty();
        let mut i: usize = 0;
        while i < MAPPING_COUNT
            invariant
                i <= MAPPING_COUNT,
                trie.wf(),
                trie@ == rows_table(MAPPINGS@, i as nat),
            decreases MAPPING_COUNT - i,
        {
            let (romaji, kana) = MAPPINGS[i];
            trie.insert(romaji, kana);
            i = i + 1;
        }
        trie
    }
}

/// A new child of a node keeps the tree and adds no key.
proof fn lemma_grown(before: RomajiTrie, after: RomajiTrie, i: int, c: char)
    requires
        before.is_tree(),
        before.is_closed_but(i),
        0 <= i < before.nodes@.len() < usize::MAX,
        forall|j: int|
            0 <= j < before.nodes@.len() ==> #[trigger] before.paths@[j]
                != before.paths@[i].push(c),
        after.paths@ == before.paths@.push(before.paths@[i].push(c)),
        after.nodes@.len() == before.nodes@.len() + 1,
        forall|k: int|
            0 <= k < before.nodes@.len() ==> (#[trigger] after.nodes@[k]).kana
                == before.nodes@[k].kana,
        forall|k: int|
            0 <= k < before.nodes@.len() && k != i ==> (#[trigger] after.nodes@[k]).children@
                == before.nodes@[k].children@,
        after.nodes@[i].children@ == before.nodes@[i].children@.push(
            (c, before.nodes@.len() as usize),
        ),
        after.nodes@[before.nodes@.len() as int].kana is None,
        after.nodes@[before.nodes@.len() as int].children@.len() == 0,
    ensures
        after.is_tree(),
        after.is_closed_but(before.nodes@.len() as int),
        after@ == before@,
{
    let n = before.nodes@.len() as int;
    assert forall|a: int, k: int|
        #![trigger after.nodes@[a].children@[k]]
        0 <= a < n + 1 && 0 <= k < after.nodes@[a].children@.len() implies ({
        let (x, j) = after.nodes@[a].children@[k];
        a < j < n + 1 && after.paths@[j as int] == after.paths@[a].push(x)
    }) by {
        if a == i && k == before.nodes@[i].children@.len() {
        } else {
            assert(a < n);
            assert(after.nodes@[a].children@[k] == before.nodes@[a].children@[k]);
        }
    }
    assert forall|a: int, b: int| 0 <= a < n + 1 && 0 <= b < n + 1 && a != b implies
        #[trigger] after.paths@[a] != #[trigger] after.paths@[b] by {
        if a < n {
            assert(after.paths@[a] == before.paths@[a]);
        }
        if b < n {
            assert(after.paths@[b] == before.paths@[b]);
        }
    }
    assert forall|j: int| 0 < j < n + 1 implies after.has_parent(j, #[trigger] after.paths@[j]) by {
        let q = after.paths@[j];
        if j < n {
            assert(q == before.paths@[j]);
            assert(before.has_parent(j, before.paths@[j]));
            let p = choose|p: int| #[trigger]
                before.links(p, q.last(), j) && before.paths@[p] == q.drop_last();
            let m = choose|m: int|
                0 <= m < before.nodes@[p].children@.len() && before.nodes@[p].children@[m] == (
                    q.last(),
                    j as usize,
                );
            assert(after.nodes@[p].children@[m] == before.nodes@[p].children@[m]);
            assert(after.links(p, q.last(), j));
            assert(after.paths@[p] == before.paths@[p]);
        } else {
            assert(q.drop_last() =~= before.paths@[i]);
            assert(after.nodes@[i].children@[before.nodes@[i].children@.len() as int] == (
                c,
                n as usize,
            ));
            assert(after.links(i, q.last(), n));
            assert(after.paths@[i] == before.paths@[i]);
        }
    }
    assert(after.is_closed_but(n)) by {
        assert forall|j: int| 0 < j < after.nodes@.len() && j != n implies (
        #[trigger] after.nodes@[j]).kana is Some || after.nodes@[j].children@.len() > 0 by {
            if j != i {
                assert(before.nodes@[j].kana is Some || before.nodes@[j].children@.len() > 0);
            }
        }
    }
    lemma_same_keys(before, after);
}

/// Nodes with the same kana hold the same keys.
proof fn lemma_same_keys(before: RomajiTrie, after: RomajiTrie)
    requires
        before.is_tree(),
        after.is_tree(),
        before.nodes@.len() <= after.nodes@.len(),
        forall|k: int|
            0 <= k < before.nodes@.len() ==> after.paths@[k] == #[trigger] before.paths@[k],
        forall|k: int|
            0 <= k < before.nodes@.len() ==> (#[trigger] after.nodes@[k]).kana
                == before.nodes@[k].kana,
        forall|k: int|
            before.nodes@.len() <= k < after.nodes@.len() ==> (#[trigger] after.nodes@[k]).kana
                is None,
    ensures
        after@ == before@,
{
    assert forall|k: Seq<char>| after@.contains_key(k) == #[trigger] before@.contains_key(k) by {
        if after@.contains_key(k) {
            let i = choose|i: int| after.ends_at(k, i);
            assert(i < before.nodes@.len());
            assert(before.paths@[i] == k);
            assert(before.ends_at(k, i));
        }
        if before@.contains_key(k) {
            let i = choose|i: int| before.ends_at(k, i);
            assert(after.nodes@[i].kana is Some);
            assert(after.paths@[i] == before.paths@[i]);
            assert(after.ends_at(k, i));
        }
    }
    assert forall|k: Seq<char>| #[trigger] after@.contains_key(k) implies after@[k]
        == before@[k] by {
        assert(before@.contains_key(k));
        let i = choose|i: int| before.ends_at(k, i);
        assert(after.nodes@[i].kana is Some);
        assert(after.paths@[i] == before.paths@[i]);
        assert(after.ends_at(k, i));
        after.lemma_key(k, i);
        before.lemma_key(k, i);
    }
    assert(after@ =~= before@);
}

/// A kana at a node is the kana of the path of the node.
proof fn lemma_marked(before: RomajiTrie, after: RomajiTrie, node: int, kana: Seq<char>)
    requires
        before.is_tree(),
        before.is_closed_but(node),
        0 <= node < before.nodes@.len(),
        after.paths@ == before.paths@,
        after.nodes@.len() == before.nodes@.len(),
        forall|k: int|
            0 <= k < before.nodes@.len() ==> (#[trigger] after.nodes@[k]).children
                == before.nodes@[k].children,
        forall|k: int|
            0 <= k < before.nodes@.len() && k != node ==> (#[trigger] after.nodes@[k]).kana
                == before.nodes@[k].kana,
        after.nodes@[node].kana is Some,
        after.nodes@[node].kana->0@ == kana,
    ensures
        after.wf(),
        after@ == before@.insert(before.paths@[node], kana),
{
    let n = before.nodes@.len() as int;
    assert forall|j: int| 0 < j < n implies after.has_parent(j, #[trigger] after.paths@[j]) by {
        let q = after.paths@[j];
        assert(before.has_parent(j, before.paths@[j]));
        let p = choose|p: int| #[trigger]
            before.links(p, q.last(), j) && before.paths@[p] == q.drop_last();
        assert(after.nodes@[p].children == before.nodes@[p].children);
        assert(after.links(p, q.last(), j));
    }
    assert forall|a: int, k: int|
        #![trigger after.nodes@[a].children@[k]]
        0 <= a < n && 0 <= k < after.nodes@[a].children@.len() implies ({
        let (x, j) = after.nodes@[a].children@[k];
        a < j < n && after.paths@[j as int] == after.paths@[a].push(x)
    }) by {
        assert(after.nodes@[a].children@[k] == before.nodes@[a].children@[k]);
    }
    assert(after.is_tree());
    assert(after.is_closed_but(0)) by {
        assert forall|j: int| 0 < j < n implies (#[trigger] after.nodes@[j]).kana is Some
            || after.nodes@[j].children@.len() > 0 by {
            if j != node {
                assert(before.nodes@[j].kana is Some || before.nodes@[j].children@.len() > 0);
            }
        }
    }
    let path = before.paths@[node];
    let want = before@.insert(path, kana);
    assert forall|k: Seq<char>| after@.contains_key(k) == #[trigger] want.contains_key(k) by {
        if after@.contains_key(k) {
            let i = choose|i: int| after.ends_at(k, i);
            if i != node {
                assert(before.ends_at(k, i));
            }
        }
        if before@.contains_key(k) {
            let i = choose|i: int| before.ends_at(k, i);
            if i != node {
                assert(after.nodes@[i].kana is Some);
            }
            assert(after.ends_at(k, i));
        }
        assert(after.ends_at(path, node));
    }
    assert forall|k: Seq<char>| #[trigger] after@.contains_key(k) implies after@[k] == want[k] by {
        let i = choose|i: int| after.ends_at(k, i);
        after.lemma_key(k, i);
        if i != node {
            assert(before.ends_at(k, i));
            before.lemma_key(k, i);
            assert(k != path);
        }
    }
    assert(after@ =~= want);
}

/// The kana that a lookup carries.
pub open spec fn kana_of(found: LookupView) -> Option<Seq<char>> {
    match found {
        LookupView::Exact(kana) => Some(kana),
        LookupView::ExactAndPrefix(kana) => Some(kana),
        _ => None,
    }
}

/// A sequence that is inserted is found with its kana, in place of any that it had,
/// and every other sequence keeps the kana that it had, or has none as before.
pub proof fn insertion_changes_one_sequence(
    table: Map<Seq<char>, Seq<char>>,
    romaji: Seq<char>,
    kana: Seq<char>,
)
    ensures
        kana_of(known(table.insert(romaji, kana), romaji)) == Some(kana),
        forall|s: Seq<char>|
            s != romaji ==> kana_of(#[trigger] known(table.insert(romaji, kana), s)) == kana_of(
                known(table, s),
            ),
{
}

} // verus!
