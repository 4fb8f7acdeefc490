//! Radix prefix index over block-sized token chunks.
//!
//! Each non-root node stands for a path of chunks from the root and names the
//! physical block that caches the last chunk of that path.

use vstd::prelude::*;

verus! {

/// A node of the radix prefix index.
#[derive(Debug, Clone, Default)]
pub struct RadixTrieNode {
    /// Physical block holding this node's chunk (`None` only at the root).
    pub physical_block_id: Option<usize>,
    /// The chunk of tokens on the edge into this node.
    pub token_chunk: Vec<u32>,
    /// Outgoing edges: a chunk and the index of the child node it leads to.
    /// Kept as a list searched by chunk comparison, each chunk leading to at
    /// most one child; a hash map keyed by token vectors gives Verus no model
    /// of its keys to reason with.
    pub children: Vec<(Vec<u32>, usize)>,
}

/// Radix prefix index used to identify shared prompt prefixes.
#[derive(Clone)]
pub struct RadixPrefixCache {
    nodes: Vec<RadixTrieNode>,
    /// The chunk path from the root to each node.
    paths: Ghost<Seq<Seq<Seq<u32>>>>,
    /// For each indexed path, the node that stands for it.
    index: Ghost<Map<Seq<Seq<u32>>, usize>>,
    /// For each node but the root, its parent and its slot in the parent's edge list.
    parent: Ghost<Seq<usize>>,
    slot: Ghost<Seq<int>>,
}

/// Compares two token chunks element by element.
fn chunks_equal(a: &Vec<u32>, b: &Vec<u32>) -> (r: bool)
    ensures
        r == (a@ == b@),
{
    if a.len() != b.len() {
        return false;
    }
    let mut i: usize = 0;
    while i < a.len()
        invariant
            a@.len() == b@.len(),
            0 <= i <= a@.len(),
            forall|j: int| 0 <= j < i ==> a@[j] == b@[j],
        decreases a@.len() - i,
    {
        if a[i] != b[i] {
            return false;
        }
        i = i + 1;
    }
    assert(a@ =~= b@);
    true
}

/// Copies a token chunk.
fn copy_chunk(a: &Vec<u32>) -> (r: Vec<u32>)
    ensures
        r@ == a@,
{
    let mut r: Vec<u32> = Vec::new();
    let mut i: usize = 0;
    while i < a.len()
        invariant
            0 <= i <= a@.len(),
            r@ == a@.take(i as int),
        decreases a@.len() - i,
    {
        r.push(a[i]);
        i = i + 1;
        assert(r@ =~= a@.take(i as int));
    }
    assert(r@ =~= a@);
    r
}

/// Every indexed path is non-empty and its parent path, if non-empty, is indexed too.
pub open spec fn prefix_closed(m: Map<Seq<Seq<u32>>, usize>) -> bool {
    forall|p: Seq<Seq<u32>>| #[trigger]
        m.contains_key(p) ==> p.len() >= 1 && (p.len() > 1 ==> m.contains_key(p.drop_last()))
}

/// A fresh index holding only the root.
pub open spec fn root_only(c: RadixPrefixCache) -> bool {
    &&& c.wf()
    &&& c@ == Map::<Seq<Seq<u32>>, usize>::empty()
    &&& c.node_count() == 1
    &&& c.path_of(0) == Seq::<Seq<u32>>::empty()
}

impl Default for RadixPrefixCache {
    /// An index holding only the root.
    fn default() -> (c: Self)
        ensures
            root_only(c),
    {
        Self::new()
    }
}

impl View for RadixPrefixCache {
    type V = Map<Seq<Seq<u32>>, usize>;

    /// Maps each indexed chunk path to the physical block caching its last chunk.
    closed spec fn view(&self) -> Map<Seq<Seq<u32>>, usize> {
        Map::new(
            |p: Seq<Seq<u32>>| self.index@.contains_key(p),
            |p: Seq<Seq<u32>>| self.nodes@[self.index@[p] as int].physical_block_id.unwrap(),
        )
    }
}

impl RadixPrefixCache {
    /// Number of nodes, the root included.
    pub closed spec fn node_count(&self) -> nat {
        self.nodes@.len()
    }

    /// The chunk path from the root to node `i`.
    pub closed spec fn path_of(&self, i: int) -> Seq<Seq<u32>> {
        self.paths@[i]
    }

    /// Internal well-formedness of the node array.
    pub closed spec fn wf(&self) -> bool {
        let n = self.nodes@.len();
        &&& n >= 1
        &&& self.paths@.len() == n
        &&& self.parent@.len() == n
        &&& self.slot@.len() == n
        &&& self.paths@[0] == Seq::<Seq<u32>>::empty()
        &&& self.nodes@[0].physical_block_id is None
        &&& forall|i: int|
            #![trigger self.paths@[i]]
            1 <= i < n ==> {
                &&& self.paths@[i].len() >= 1
                &&& self.nodes@[i].physical_block_id is Some
                &&& self.index@.contains_key(self.paths@[i])
                &&& self.index@[self.paths@[i]] == i
                &&& 0 <= self.parent@[i] < n
                &&& self.paths@[self.parent@[i] as int] == self.paths@[i].drop_last()
                &&& 0 <= self.slot@[i] < self.nodes@[self.parent@[i] as int].children@.len()
                &&& self.nodes@[self.parent@[i] as int].children@[self.slot@[i]].1 == i
            }
        &&& forall|p: Seq<Seq<u32>>|
            #![trigger self.index@[p]]
            self.index@.contains_key(p) ==> 1 <= self.index@[p] < n && self.paths@[
                self.index@[p] as int
            ] == p
        &&& forall|i: int, k: int|
            #![trigger self.nodes@[i].children@[k]]
            0 <= i < n && 0 <= k < self.nodes@[i].children@.len() ==> {
                let e = self.nodes@[i].children@[k];
                &&& 1 <= e.1 < n
                &&& self.paths@[e.1 as int] == self.paths@[i].push(e.0@)
            }
    }

    /// The indexed paths are closed under taking parents; the root stands for
    /// the empty path and every other node for an indexed path.
    pub proof fn lemma_view_facts(&self)
        requires
            self.wf(),
        ensures
            prefix_closed(self@),
            self.node_count() >= 1,
            self.path_of(0) == Seq::<Seq<u32>>::empty(),
            forall|i: int|
                1 <= i < self.node_count() ==> #[trigger] self@.contains_key(self.path_of(i)),
    {
        assert forall|p: Seq<Seq<u32>>| #[trigger]
            self@.contains_key(p) implies p.len() >= 1 && (p.len() > 1 ==> self@.contains_key(
            p.drop_last(),
        )) by {
            let i = self.index@[p] as int;
            assert(self.paths@[i] == p);
            let q = self.parent@[i] as int;
            if p.len() > 1 {
                assert(self.paths@[q] == p.drop_last());
                if q == 0 {
                    assert(self.paths@[q].len() == 0);
                } else {
                    assert(self.index@.contains_key(self.paths@[q]));
                }
            }
        }
    }

    /// Distinct nodes other than the root stand for distinct paths.
    pub proof fn lemma_path_injective(&self, i: int, j: int)
        requires
            self.wf(),
            1 <= i < self.node_count(),
            1 <= j < self.node_count(),
            self.path_of(i) == self.path_of(j),
        ensures
            i == j,
    {
        assert(self.index@[self.paths@[i]] == i);
        assert(self.index@[self.paths@[j]] == j);
    }

    /// Looks up the child of `node` reached by the edge `chunk`.
    pub(crate) fn find_child(&self, node: usize, chunk: &Vec<u32>) -> (r: Option<usize>)
        requires
            self.wf(),
            node < self.node_count(),
        ensures
            match r {
                Some(j) => {
                    &&& 1 <= j < self.node_count()
                    &&& self.path_of(j as int) == self.path_of(node as int).push(chunk@)
                    &&& self@.contains_key(self.path_of(j as int))
                },
                None => !self@.contains_key(self.path_of(node as int).push(chunk@)),
            },
    {
        let children = &self.nodes[node].children;
        let mut k: usize = 0;
        while k < children.len()
            invariant
                self.wf(),
                node < self.node_count(),
                children@ == self.nodes@[node as int].children@,
                0 <= k <= children@.len(),
                forall|kk: int| 0 <= kk < k ==> #[trigger] children@[kk].0@ != chunk@,
            decreases children@.len() - k,
        {
            if chunks_equal(&children[k].0, chunk) {
                let j = children[k].1;
                proof {
                    let e = self.nodes@[node as int].children@[k as int];
                    assert(self.paths@[e.1 as int] == self.paths@[node as int].push(e.0@));
                    assert(self.index@.contains_key(self.paths@[j as int]));
                }
                return Some(j);
            }
            k = k + 1;
        }
        proof {
            let p = self.paths@[node as int].push(chunk@);
            if self.index@.contains_key(p) {
                let j = self.index@[p] as int;
                assert(self.paths@[j] == p);
                let q = self.parent@[j] as int;
                assert(self.paths@[q] == p.drop_last());
                assert(p.drop_last() =~= self.paths@[node as int]);
                if q != node as int {
                    if q >= 1 && node >= 1 {
                        assert(self.index@[self.paths@[q]] == q);
                        assert(self.index@[self.paths@[node as int]] == node);
                    } else if q == 0 {
                        assert(self.paths@[node as int].len() >= 1);
                    } else {
                        assert(self.paths@[q].len() >= 1);
                    }
                }
                let sl = self.slot@[j];
                let e = self.nodes@[q].children@[sl];
                assert(e.1 == j);
                assert(self.paths@[j] == self.paths@[q].push(e.0@));
                assert(self.paths@[j].last() == e.0@);
                assert(p.last() == chunk@);
                assert(children@[sl].0@ != chunk@);
            }
        }
        None
    }

    /// The physical block recorded at `node` (`None` at the root).
    pub(crate) fn block_of(&self, node: usize) -> (r: Option<usize>)
        requires
            self.wf(),
            node < self.node_count(),
        ensures
            node == 0 ==> r is None,
            node >= 1 ==> r == Some(self@[self.path_of(node as int)]),
    {
        self.nodes[node].physical_block_id
    }

    /// Adds a child of `node` along the edge `chunk`, recording `block` for it.
    /// Returns the index of the new node.
    pub(crate) fn add_child(&mut self, node: usize, chunk: Vec<u32>, block: usize) -> (r: usize)
        requires
            old(self).wf(),
            node < old(self).node_count(),
            !old(self)@.contains_key(old(self).path_of(node as int).push(chunk@)),
        ensures
            final(self).wf(),
            r == old(self).node_count(),
            final(self).node_count() == old(self).node_count() + 1,
            final(self).path_of(r as int) == old(self).path_of(node as int).push(chunk@),
            forall|i: int|
                0 <= i < old(self).node_count() ==> #[trigger] final(self).path_of(i) == old(
                    self,
                ).path_of(i),
            final(self)@ == old(self)@.insert(old(self).path_of(node as int).push(chunk@), block),
    {
        let new_idx = self.nodes.len();
        let ghost p = self.paths@[node as int].push(chunk@);
        let ghost old_self = *self;
        let key = copy_chunk(&chunk);
        self.nodes.push(
            RadixTrieNode { physical_block_id: Some(block), token_chunk: chunk, children: Vec::new() },
        );
        let ghost slot_k = self.nodes@[node as int].children@.len() as int;
        self.nodes[node].children.push((key, new_idx));
        proof {
            self.paths@ = self.paths@.push(p);
            self.index@ = self.index@.insert(p, new_idx);
            self.parent@ = self.parent@.push(node);
            self.slot@ = self.slot@.push(slot_k);
            let n = self.nodes@.len();
            assert(p.drop_last() =~= old_self.paths@[node as int]);
            assert forall|i: int|
                #![trigger self.paths@[i]]
                1 <= i < n implies {
                    &&& self.paths@[i].len() >= 1
                    &&& self.nodes@[i].physical_block_id is Some
                    &&& self.index@.contains_key(self.paths@[i])
                    &&& self.index@[self.paths@[i]] == i
                    &&& 0 <= self.parent@[i] < n
                    &&& self.paths@[self.parent@[i] as int] == self.paths@[i].drop_last()
                    &&& 0 <= self.slot@[i] < self.nodes@[self.parent@[i] as int].children@.len()
                    &&& self.nodes@[self.parent@[i] as int].children@[self.slot@[i]].1 == i
                } by {
                if i < n - 1 {
                    assert(old_self.paths@[i] == self.paths@[i]);
                    assert(old_self.index@.contains_key(old_self.paths@[i]));
                    assert(old_self.paths@[i] != p);
                    let q = old_self.parent@[i] as int;
                    if q == node as int {
                        assert(self.nodes@[q].children@ == old_self.nodes@[q].children@.push(
                            (key, new_idx),
                        ));
                    }
                }
            }
            assert forall|q: Seq<Seq<u32>>|
                #![trigger self.index@[q]]
                self.index@.contains_key(q) implies 1 <= self.index@[q] < n && self.paths@[
                    self.index@[q] as int
                ] == q by {
                if q != p {
                    assert(old_self.index@.contains_key(q));
                }
            }
            assert forall|i: int, k: int|
                #![trigger self.nodes@[i].children@[k]]
                0 <= i < n && 0 <= k < self.nodes@[i].children@.len() implies {
                    let e = self.nodes@[i].children@[k];
                    &&& 1 <= e.1 < n
                    &&& self.paths@[e.1 as int] == self.paths@[i].push(e.0@)
                } by {
                if i < n - 1 && !(i == node as int && k == slot_k) {
                    assert(self.nodes@[i].children@[k] == old_self.nodes@[i].children@[k]);
                }
            }
            assert(self@ =~= old_self@.insert(p, block));
        }
        new_idx
    }

    /// Records `block` as the block of `node`, which is not the root.
    pub(crate) fn set_block(&mut self, node: usize, block: usize)
        requires
            old(self).wf(),
            1 <= node < old(self).node_count(),
        ensures
            final(self).wf(),
            final(self).node_count() == old(self).node_count(),
            forall|i: int|
                0 <= i < old(self).node_count() ==> #[trigger] final(self).path_of(i) == old(
                    self,
                ).path_of(i),
            final(self)@ == old(self)@.insert(old(self).path_of(node as int), block),
    {
        let ghost old_self = *self;
        self.nodes[node].physical_block_id = Some(block);
        proof {
            assert forall|i: int, k: int|
                #![trigger self.nodes@[i].children@[k]]
                0 <= i < self.nodes@.len() && 0 <= k < self.nodes@[i].children@.len() implies
                    self.nodes@[i].children@[k] == old_self.nodes@[i].children@[k] by {}
            assert forall|i: int| 0 <= i < self.nodes@.len() implies #[trigger] self.nodes@[i].children@
                == old_self.nodes@[i].children@ by {}
            let p = old_self.paths@[node as int];
            assert(old_self.index@[p] == node);
            assert(self@ =~= old_self@.insert(p, block));
        }
    }

    /// Creates an index holding only the root.
    pub fn new() -> (c: Self)
        ensures
            root_only(c),
    {
        let mut nodes: Vec<RadixTrieNode> = Vec::new();
        nodes.push(RadixTrieNode { physical_block_id: None, token_chunk: Vec::new(), children: Vec::new() });
        let c = RadixPrefixCache {
            nodes,
            paths: Ghost(Seq::<Seq<Seq<u32>>>::empty().push(Seq::empty())),
            index: Ghost(Map::empty()),
            parent: Ghost(Seq::<usize>::empty().push(0usize)),
            slot: Ghost(Seq::<int>::empty().push(0int)),
        };
        assert(c@ =~= Map::<Seq<Seq<u32>>, usize>::empty());
        c
    }

    /// Clears the index back to the root alone.
    pub fn clear(&mut self)
        ensures
            root_only(*final(self)),
    {
        self.nodes.clear();
        self.nodes.push(RadixTrieNode { physical_block_id: None, token_chunk: Vec::new(), children: Vec::new() });
        proof {
            self.paths@ = seq![Seq::<Seq<u32>>::empty()];
            self.index@ = Map::empty();
            self.parent@ = seq![0usize];
            self.slot@ = seq![0int];
        }
        assert(self@ =~= Map::<Seq<Seq<u32>>, usize>::empty());
    }
}

} // verus!
