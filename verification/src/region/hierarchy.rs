//! The wiring of a hierarchy of cortical regions — the neocortex in
//! miniature. Regions are numbered in insertion order; each region's input
//! on a tick is the union of what its declared sources produced or were
//! given, and the topmost region's output is the hierarchy's broadcast.
use crate::graph::{alone_wherever_listed, linked, sources_in, with_node, Links};
use crate::region::region::RegionId;
use crate::sdr::Sdr;
use vstd::prelude::*;

verus! {

/// The links of a region hierarchy: which regions feed which.
#[derive(Debug)]
pub struct RegionGraph {
    edges: Links,
    next_id: u32,
}

impl RegionGraph {
    #[verifier::type_invariant]
    closed spec fn inv(&self) -> bool {
        self.edges.wf()
    }

    /// Each region's bottom-up sources, by region number, in connection order.
    pub closed spec fn links(&self) -> Map<u32, Seq<u32>> {
        self.edges@
    }

    /// The number the next region will get; the regions so far are
    /// numbered from 0 below it.
    pub closed spec fn next_number(&self) -> u32 {
        self.next_id
    }

    /// The number the next added one will get.
    pub fn next_id(&self) -> (r: u32)
        ensures
            r == self.next_number(),
    {
        self.next_id
    }

    /// No regions, no links.
    pub fn new() -> (r: RegionGraph)
        ensures
            r.links() == Map::<u32, Seq<u32>>::empty(),
            r.next_number() == 0,
    {
        RegionGraph { edges: Links::new(), next_id: 0 }
    }

    /// Add a region: it gets the next number and an (empty) list of sources.
    pub fn add_region(&mut self) -> (id: RegionId)
        requires
            old(self).next_number() < u32::MAX,
        ensures
            id == RegionId(old(self).next_number()),
            final(self).next_number() == old(self).next_number() + 1,
            final(self).links() == with_node(old(self).links(), id.0),
    {
        proof {
            use_type_invariant(&*self);
        }
        let id = RegionId(self.next_id);
        self.next_id = self.next_id + 1;
        let mut l = Links::new();
        std::mem::swap(&mut l, &mut self.edges);
        l.add_node(id.0);
        self.edges = l;
        id
    }

    /// Declare `from` a bottom-up source for `to`.
    pub fn connect(&mut self, from: RegionId, to: RegionId)
        ensures
            final(self).links() == linked(old(self).links(), from.0, to.0),
            final(self).next_number() == old(self).next_number(),
    {
        proof {
            use_type_invariant(&*self);
        }
        let mut l = Links::new();
        std::mem::swap(&mut l, &mut self.edges);
        l.link(from.0, to.0);
        self.edges = l;
    }

    /// The bottom-up sources of `to`, in connection order.
    pub fn sources(&self, to: RegionId) -> (r: Vec<RegionId>)
        ensures
            r@.len() == sources_in(self.links(), to.0).len(),
            forall|i: int| 0 <= i < r@.len() ==> #[trigger] r@[i].0 == sources_in(
                self.links(),
                to.0,
            )[i],
    {
        proof {
            use_type_invariant(self);
        }
        let numbers = self.edges.sources_of(to.0);
        let mut r: Vec<RegionId> = Vec::new();
        let mut i: usize = 0;
        while i < numbers.len()
            invariant
                i <= numbers@.len(),
                r@.len() == i,
                forall|j: int| 0 <= j < i ==> #[trigger] r@[j].0 == numbers@[j],
            decreases numbers@.len() - i,
        {
            r.push(RegionId(numbers[i]));
            i += 1;
        }
        r
    }

    /// The topmost region: the highest-numbered region such that every
    /// list of sources either lacks it or consists of it alone. `None` when
    /// no region qualifies.
    pub fn top_region(&self) -> (r: Option<RegionId>)
        ensures
            r matches Some(id) ==> {
                &&& id.0 < self.next_number()
                &&& alone_wherever_listed(self.links(), id.0)
                &&& forall|k: u32|
                    id.0 < k < self.next_number() ==> !#[trigger] alone_wherever_listed(self.links(), k)
            },
            r is None ==> forall|k: u32|
                k < self.next_number() ==> !#[trigger] alone_wherever_listed(self.links(), k),
    {
        proof {
            use_type_invariant(self);
        }
        let mut n: u32 = self.next_id;
        while n > 0
            invariant
                self.edges.wf(),
                n <= self.next_id,
                forall|k: u32| n <= k < self.next_id ==> !#[trigger] alone_wherever_listed(self.edges@, k),
            decreases n,
        {
            n = n - 1;
            if self.edges.alone_wherever_listed(n) {
                return Some(RegionId(n));
            }
        }
        None
    }
}

/// The union of a list of active sets.
pub open spec fn union_of(sets: Seq<Set<usize>>) -> Set<usize>
    decreases sets.len(),
{
    if sets.len() == 0 {
        Set::empty()
    } else {
        union_of(sets.drop_last()).union(sets.last())
    }
}

/// A region's input for one tick: the union of the upstream signals; when
/// that union has no active bit, the region's own input if it has one (an
/// empty SDR otherwise).
pub fn fan_in(upstream: &Vec<Sdr>, own: Option<&Sdr>) -> (r: Sdr)
    ensures
        r@ == (if union_of(upstream@.map_values(|s: Sdr| s@)).len() > 0 {
            union_of(upstream@.map_values(|s: Sdr| s@))
        } else {
            match own {
                Some(s) => s@,
                None => Set::<usize>::empty(),
            }
        }),
{
    let ghost views = upstream@.map_values(|s: Sdr| s@);
    let mut combined = Sdr::empty();
    let mut i: usize = 0;
    while i < upstream.len()
        invariant
            i <= upstream@.len(),
            views == upstream@.map_values(|s: Sdr| s@),
            combined@ == union_of(views.subrange(0, i as int)),
        decreases upstream@.len() - i,
    {
        proof {
            let pre = views.subrange(0, i as int);
            let post = views.subrange(0, i as int + 1);
            assert(post.drop_last() =~= pre);
            assert(post.last() == upstream@[i as int]@);
        }
        combined.union_with(&upstream[i]);
        i += 1;
    }
    assert(views.subrange(0, upstream@.len() as int) =~= views);
    if combined.active_count() == 0 {
        proof {
            combined.lemma_view_finite();
        }
        match own {
            Some(s) => {
                return s.clone();
            },
            None => {},
        }
    }
    combined
}

} // verus!
