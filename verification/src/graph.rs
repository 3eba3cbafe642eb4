//! Adjacency lists of a directed graph of numbered nodes: for each node,
//! the nodes that feed it, in the order the links were declared.
//!
//! Both hierarchies — of cortical columns and of cortical regions — keep
//! their wiring in this form.
use std::collections::HashMap;
use vstd::prelude::*;

verus! {

broadcast use vstd::std_specs::hash::group_hash_axioms;

/// The sources of `node` in `m`: its list, or no sources if it has no entry.
pub open spec fn sources_in(m: Map<u32, Seq<u32>>, node: u32) -> Seq<u32> {
    if m.contains_key(node) {
        m[node]
    } else {
        Seq::empty()
    }
}

/// `m` after `from` is declared a source of `to`: appended to the list of
/// `to`, which is created if it did not exist.
pub open spec fn linked(m: Map<u32, Seq<u32>>, from: u32, to: u32) -> Map<u32, Seq<u32>> {
    m.insert(to, sources_in(m, to).push(from))
}

/// `m` with an empty entry for `node` if it had none; unchanged otherwise.
pub open spec fn with_node(m: Map<u32, Seq<u32>>, node: u32) -> Map<u32, Seq<u32>> {
    if m.contains_key(node) {
        m
    } else {
        m.insert(node, Seq::empty())
    }
}

/// Every list of sources in `m` either lacks `node` or is `[node]` alone.
pub open spec fn alone_wherever_listed(m: Map<u32, Seq<u32>>, node: u32) -> bool {
    forall|k: u32| #[trigger]
        m.contains_key(k) ==> (!m[k].contains(node) || m[k] == seq![node])
}

/// Appending `x` to a list of distinct numbers that lacks it keeps them
/// distinct, and adds exactly `x` to what it contains.
proof fn lemma_push_fresh(s: Seq<u32>, x: u32)
    requires
        s.no_duplicates(),
        !s.contains(x),
    ensures
        s.push(x).no_duplicates(),
        forall|k: u32| #[trigger] s.push(x).contains(k) <==> (s.contains(k) || k == x),
{
    let t = s.push(x);
    assert forall|k: u32| #[trigger] t.contains(k) <==> (s.contains(k) || k == x) by {
        if t.contains(k) {
            let j = choose|j: int| 0 <= j < t.len() && t[j] == k;
            if j < s.len() {
                assert(s[j] == k);
            }
        }
        if s.contains(k) {
            let j = choose|j: int| 0 <= j < s.len() && s[j] == k;
            assert(t[j] == k);
        }
        if k == x {
            assert(t[s.len() as int] == x);
        }
    }
    assert forall|a: int, b: int| 0 <= a < t.len() && 0 <= b < t.len() && a != b implies t[a] != t[b] by {
        if a < s.len() && b < s.len() {
        } else if a < s.len() {
            assert(s.contains(s[a]));
        } else {
            assert(s.contains(s[b]));
        }
    }
}

/// Removing the element at `i` from a list of distinct numbers keeps them
/// distinct and removes exactly that number from what it contains.
proof fn lemma_remove_distinct(s: Seq<u32>, i: int)
    requires
        s.no_duplicates(),
        0 <= i < s.len(),
    ensures
        s.remove(i).no_duplicates(),
        forall|k: u32| #[trigger] s.remove(i).contains(k) <==> (s.contains(k) && k != s[i]),
{
    let t = s.remove(i);
    assert forall|k: u32| #[trigger] t.contains(k) <==> (s.contains(k) && k != s[i]) by {
        if t.contains(k) {
            let j = choose|j: int| 0 <= j < t.len() && t[j] == k;
            if j < i {
                assert(s[j] == k);
            } else {
                assert(s[j + 1] == k);
            }
        }
        if s.contains(k) && k != s[i] {
            let j = choose|j: int| 0 <= j < s.len() && s[j] == k;
            if j < i {
                assert(t[j] == k);
            } else {
                assert(j != i);
                assert(t[j - 1] == k);
            }
        }
    }
    assert forall|a: int, b: int| 0 <= a < t.len() && 0 <= b < t.len() && a != b implies t[a] != t[b] by {
        let a1 = if a < i { a } else { a + 1 };
        let b1 = if b < i { b } else { b + 1 };
        assert(t[a] == s[a1] && t[b] == s[b1]);
    }
}

/// Adjacency lists: node → the nodes that feed it.
#[derive(Debug)]
pub struct Links {
    nodes: Vec<u32>,
    sources: HashMap<u32, Vec<u32>>,
}

impl View for Links {
    type V = Map<u32, Seq<u32>>;

    closed spec fn view(&self) -> Map<u32, Seq<u32>> {
        Map::new(|k: u32| self.sources@.contains_key(k), |k: u32| self.sources@[k]@)
    }
}

impl Links {
    /// The node list and the map agree: every entry is listed exactly once.
    pub closed spec fn wf(&self) -> bool {
        &&& self.nodes@.no_duplicates()
        &&& forall|k: u32| #[trigger] self.nodes@.contains(k) <==> self.sources@.contains_key(k)
    }

    /// No nodes, no links.
    pub fn new() -> (r: Links)
        ensures
            r.wf(),
            r@ == Map::<u32, Seq<u32>>::empty(),
    {
        let r = Links { nodes: Vec::new(), sources: HashMap::new() };
        assert(r@ =~= Map::<u32, Seq<u32>>::empty());
        r
    }

    /// Give `node` an empty list of sources if it has none yet.
    pub fn add_node(&mut self, node: u32)
        requires
            old(self).wf(),
        ensures
            final(self).wf(),
            final(self)@ == with_node(old(self)@, node),
    {
        if !self.sources.contains_key(&node) {
            self.sources.insert(node, Vec::new());
            self.nodes.push(node);
            proof {
                lemma_push_fresh(old(self).nodes@, node);
                assert(self@ =~= with_node(old(self)@, node));
            }
        } else {
            assert(self@ =~= with_node(old(self)@, node));
        }
    }

    /// Declare `from` a source of `to`; `to` gets a list if it had none.
    pub fn link(&mut self, from: u32, to: u32)
        requires
            old(self).wf(),
        ensures
            final(self).wf(),
            final(self)@ == linked(old(self)@, from, to),
    {
        match self.sources.remove(&to) {
            Some(mut list) => {
                list.push(from);
                self.sources.insert(to, list);
                proof {
                    assert(self.nodes@ == old(self).nodes@);
                    assert(self@ =~= linked(old(self)@, from, to));
                }
            },
            None => {
                let mut list: Vec<u32> = Vec::new();
                list.push(from);
                self.sources.insert(to, list);
                self.nodes.push(to);
                proof {
                    lemma_push_fresh(old(self).nodes@, to);
                    assert(list@ == seq![from]);
                    assert(self@ =~= linked(old(self)@, from, to));
                }
            },
        }
    }

    /// Drop `node`'s entry (its list of sources); lists that name it as a
    /// source are left as they are.
    pub fn remove_node(&mut self, node: u32)
        requires
            old(self).wf(),
        ensures
            final(self).wf(),
            final(self)@ == old(self)@.remove(node),
    {
        if self.sources.contains_key(&node) {
            self.sources.remove(&node);
            let mut i: usize = 0;
            while i < self.nodes.len() && self.nodes[i] != node
                invariant
                    i <= self.nodes@.len(),
                    self.nodes@ == old(self).nodes@,
                    self.nodes@.contains(node),
                    forall|j: int| 0 <= j < i ==> #[trigger] self.nodes@[j] != node,
                decreases self.nodes@.len() - i,
            {
                i += 1;
            }
            if i == self.nodes.len() {
                proof {
                    let j = choose|j: int| 0 <= j < self.nodes@.len() && self.nodes@[j] == node;
                    assert(self.nodes@[j] != node);
                }
                return;
            }
            let ghost before = self.nodes@;
            self.nodes.remove(i);
            proof {
                lemma_remove_distinct(before, i as int);
                assert(self@ =~= old(self)@.remove(node));
            }
        } else {
            assert(self@ =~= old(self)@.remove(node));
        }
    }

    /// The sources of `node`, in declaration order.
    pub fn sources_of(&self, node: u32) -> (r: Vec<u32>)
        requires
            self.wf(),
        ensures
            r@ == sources_in(self@, node),
    {
        match self.sources.get(&node) {
            Some(list) => {
                let mut r: Vec<u32> = Vec::new();
                let mut i: usize = 0;
                while i < list.len()
                    invariant
                        i <= list@.len(),
                        r@ == list@.subrange(0, i as int),
                    decreases list@.len() - i,
                {
                    r.push(list[i]);
                    i += 1;
                    assert(r@ =~= list@.subrange(0, i as int));
                }
                assert(r@ =~= list@);
                r
            },
            None => Vec::new(),
        }
    }

    /// Whether every list of sources either lacks `node` or is `[node]`
    /// alone.
    pub fn alone_wherever_listed(&self, node: u32) -> (r: bool)
        requires
            self.wf(),
        ensures
            r == alone_wherever_listed(self@, node),
    {
        let mut i: usize = 0;
        while i < self.nodes.len()
            invariant
                self.wf(),
                i <= self.nodes@.len(),
                forall|j: int| #![trigger self.nodes@[j]]
                    0 <= j < i ==> {
                        let l = self.sources@[self.nodes@[j]]@;
                        !l.contains(node) || l == seq![node]
                    },
            decreases self.nodes@.len() - i,
        {
            let k = self.nodes[i];
            assert(self.nodes@.contains(k));
            let list = match self.sources.get(&k) {
                Some(l) => l,
                None => {
                    assert(false);
                    return false;
                },
            };
            let mut has: bool = false;
            let mut j: usize = 0;
            while j < list.len()
                invariant
                    j <= list@.len(),
                    has == list@.subrange(0, j as int).contains(node),
                decreases list@.len() - j,
            {
                if list[j] == node {
                    has = true;
                }
                proof {
                    let s = list@.subrange(0, j as int + 1);
                    assert(s == list@.subrange(0, j as int).push(list@[j as int]));
                    if has {
                        if list@[j as int] == node {
                            assert(s[j as int] == node);
                        } else {
                            let w = choose|w: int| 0 <= w < j && list@.subrange(0, j as int)[w] == node;
                            assert(s[w] == node);
                        }
                    } else {
                        assert forall|w: int| 0 <= w < s.len() implies s[w] != node by {
                            if w < j {
                                assert(s[w] == list@.subrange(0, j as int)[w]);
                            }
                        }
                    }
                }
                j += 1;
            }
            assert(list@.subrange(0, list@.len() as int) =~= list@);
            let alone = list.len() == 1 && list[0] == node;
            proof {
                if alone {
                    assert(list@ =~= seq![node]);
                }
                if list@ == seq![node] {
                    assert(list@[0] == node);
                }
            }
            if has && !alone {
                proof {
                    assert(self@.contains_key(k));
                    assert(self@[k] == list@);
                }
                return false;
            }
            i += 1;
        }
        proof {
            assert forall|k: u32| #[trigger] self@.contains_key(k) implies (!self@[k].contains(node)
                || self@[k] == seq![node]) by {
                assert(self.nodes@.contains(k));
                let j = choose|j: int| 0 <= j < self.nodes@.len() && self.nodes@[j] == k;
                assert(self.nodes@[j] == k);
            }
        }
        true
    }
}

} // verus!
