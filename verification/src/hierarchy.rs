//! The wiring of the cortical column hierarchy: column identifiers, the
//! three kinds of links between columns, and which columns take sensory
//! input or give motor output.
//!
//! The hierarchy is a DAG of columns wired bottom-up (child → parent
//! feed-forward), top-down (parent → child feedback, delivered to L1) and
//! laterally (peer → peer). The columns themselves are simulated outside
//! the library; the wiring is kept here.
use crate::graph::{linked, sources_in, with_node, Links};
use vstd::prelude::*;

verus! {

/// Stable identifier of a column in a hierarchy.
#[derive(Debug, Clone, Copy, PartialEq, Eq, Hash, Structural)]
pub struct ColumnId(pub u32);

/// Topology descriptor of a link between two columns.
#[derive(Debug, Clone, Copy, PartialEq, Eq, Structural)]
pub enum Connection {
    /// Bottom-up sensory feed-forward.
    BottomUp,
    /// Top-down contextual feedback.
    TopDown,
    /// Lateral peer link.
    Lateral,
}

/// The wiring of a column hierarchy.
#[derive(Debug)]
pub struct Topology {
    bottom_up: Links,
    top_down: Links,
    lateral: Links,
    input_sinks: Vec<ColumnId>,
    output_sources: Vec<ColumnId>,
    next_id: u32,
}

impl Topology {
    #[verifier::type_invariant]
    closed spec fn inv(&self) -> bool {
        &&& self.bottom_up.wf()
        &&& self.top_down.wf()
        &&& self.lateral.wf()
    }

    /// Links of one kind, by column number: each column's sources, in the
    /// order they were connected.
    pub closed spec fn links(&self, kind: Connection) -> Map<u32, Seq<u32>> {
        match kind {
            Connection::BottomUp => self.bottom_up@,
            Connection::TopDown => self.top_down@,
            Connection::Lateral => self.lateral@,
        }
    }

    /// Columns that receive external (thalamic) input, in insertion order.
    pub closed spec fn sink_ids(&self) -> Seq<ColumnId> {
        self.input_sinks@
    }

    /// Columns whose L5 output is exposed, in insertion order.
    pub closed spec fn source_ids(&self) -> Seq<ColumnId> {
        self.output_sources@
    }

    /// The number the next column will get; columns so far are numbered
    /// from 0 below it.
    pub closed spec fn next_number(&self) -> u32 {
        self.next_id
    }

    /// The number the next added one will get.
    pub fn next_id(&self) -> (r: u32)
        ensures
            r == self.next_number(),
    {
        self.next_id
    }

    /// A hierarchy with no columns and no links.
    pub fn new() -> (r: Topology)
        ensures
            forall|kind: Connection| #[trigger] r.links(kind) == Map::<u32, Seq<u32>>::empty(),
            r.sink_ids() == Seq::<ColumnId>::empty(),
            r.source_ids() == Seq::<ColumnId>::empty(),
            r.next_number() == 0,
    {
        Topology {
            bottom_up: Links::new(),
            top_down: Links::new(),
            lateral: Links::new(),
            input_sinks: Vec::new(),
            output_sources: Vec::new(),
            next_id: 0,
        }
    }

    /// Add a column: it gets the next number and an (empty) entry in each
    /// kind of link; `is_input` marks it as a sensory recipient, `is_output`
    /// as a motor / command column.
    pub fn add_column(&mut self, is_input: bool, is_output: bool) -> (id: ColumnId)
        requires
            old(self).next_number() < u32::MAX,
        ensures
            id == ColumnId(old(self).next_number()),
            final(self).next_number() == old(self).next_number() + 1,
            forall|kind: Connection| #[trigger] final(self).links(kind) == with_node(
                old(self).links(kind),
                id.0,
            ),
            final(self).sink_ids() == (if is_input {
                old(self).sink_ids().push(id)
            } else {
                old(self).sink_ids()
            }),
            final(self).source_ids() == (if is_output {
                old(self).source_ids().push(id)
            } else {
                old(self).source_ids()
            }),
    {
        proof {
            use_type_invariant(&*self);
        }
        let id = ColumnId(self.next_id);
        self.next_id = self.next_id + 1;
        let mut l = Links::new();
        std::mem::swap(&mut l, &mut self.bottom_up);
        l.add_node(id.0);
        self.bottom_up = l;
        let mut l = Links::new();
        std::mem::swap(&mut l, &mut self.top_down);
        l.add_node(id.0);
        self.top_down = l;
        let mut l = Links::new();
        std::mem::swap(&mut l, &mut self.lateral);
        l.add_node(id.0);
        self.lateral = l;
        if is_input {
            let mut sinks: Vec<ColumnId> = Vec::new();
            std::mem::swap(&mut sinks, &mut self.input_sinks);
            sinks.push(id);
            self.input_sinks = sinks;
        }
        if is_output {
            let mut outs: Vec<ColumnId> = Vec::new();
            std::mem::swap(&mut outs, &mut self.output_sources);
            outs.push(id);
            self.output_sources = outs;
        }
        proof {
            assert forall|kind: Connection| #[trigger] self.links(kind) == with_node(
                old(self).links(kind),
                id.0,
            ) by {
                match kind {
                    Connection::BottomUp => {},
                    Connection::TopDown => {},
                    Connection::Lateral => {},
                }
            }
        }
        id
    }

    /// Declare `from` a source of `to` in links of the given kind; the other
    /// kinds and the columns' roles are unchanged.
    pub fn connect(&mut self, from: ColumnId, to: ColumnId, kind: Connection)
        ensures
            final(self).links(kind) == linked(old(self).links(kind), from.0, to.0),
            forall|other: Connection| other != kind ==> #[trigger] final(self).links(other)
                == old(self).links(other),
            final(self).sink_ids() == old(self).sink_ids(),
            final(self).source_ids() == old(self).source_ids(),
            final(self).next_number() == old(self).next_number(),
    {
        proof {
            use_type_invariant(&*self);
        }
        let mut l = Links::new();
        match kind {
            Connection::BottomUp => {
                std::mem::swap(&mut l, &mut self.bottom_up);
                l.link(from.0, to.0);
                self.bottom_up = l;
            },
            Connection::TopDown => {
                std::mem::swap(&mut l, &mut self.top_down);
                l.link(from.0, to.0);
                self.top_down = l;
            },
            Connection::Lateral => {
                std::mem::swap(&mut l, &mut self.lateral);
                l.link(from.0, to.0);
                self.lateral = l;
            },
        }
        proof {
            assert forall|other: Connection| other != kind implies #[trigger] self.links(other)
                == old(self).links(other) by {
                match other {
                    Connection::BottomUp => {},
                    Connection::TopDown => {},
                    Connection::Lateral => {},
                }
            }
        }
    }

    /// The sources of `to` in links of the given kind, in connection order.
    pub fn sources(&self, to: ColumnId, kind: Connection) -> (r: Vec<ColumnId>)
        ensures
            r@.len() == sources_in(self.links(kind), to.0).len(),
            forall|i: int| 0 <= i < r@.len() ==> #[trigger] r@[i].0 == sources_in(
                self.links(kind),
                to.0,
            )[i],
    {
        proof {
            use_type_invariant(self);
        }
        let numbers = match kind {
            Connection::BottomUp => self.bottom_up.sources_of(to.0),
            Connection::TopDown => self.top_down.sources_of(to.0),
            Connection::Lateral => self.lateral.sources_of(to.0),
        };
        let mut r: Vec<ColumnId> = Vec::new();
        let mut i: usize = 0;
        while i < numbers.len()
            invariant
                i <= numbers@.len(),
                r@.len() == i,
                forall|j: int| 0 <= j < i ==> #[trigger] r@[j].0 == numbers@[j],
            decreases numbers@.len() - i,
        {
            r.push(ColumnId(numbers[i]));
            i += 1;
        }
        r
    }

    /// Remove a column from the wiring: its entries in every kind of link
    /// and its input / output roles. Lists of other columns that name it
    /// as a source keep it; numbers are never reused.
    pub fn remove_column(&mut self, id: ColumnId)
        ensures
            forall|kind: Connection| #[trigger] final(self).links(kind) == old(self).links(
                kind,
            ).remove(id.0),
            final(self).sink_ids() == old(self).sink_ids().filter(|c: ColumnId| c != id),
            final(self).source_ids() == old(self).source_ids().filter(|c: ColumnId| c != id),
            final(self).next_number() == old(self).next_number(),
    {
        proof {
            use_type_invariant(&*self);
        }
        let mut l = Links::new();
        std::mem::swap(&mut l, &mut self.bottom_up);
        l.remove_node(id.0);
        self.bottom_up = l;
        let mut l = Links::new();
        std::mem::swap(&mut l, &mut self.top_down);
        l.remove_node(id.0);
        self.top_down = l;
        let mut l = Links::new();
        std::mem::swap(&mut l, &mut self.lateral);
        l.remove_node(id.0);
        self.lateral = l;
        let sinks = without(&self.input_sinks, id);
        self.input_sinks = sinks;
        let outs = without(&self.output_sources, id);
        self.output_sources = outs;
        proof {
            assert forall|kind: Connection| #[trigger] self.links(kind) == old(self).links(
                kind,
            ).remove(id.0) by {
                match kind {
                    Connection::BottomUp => {},
                    Connection::TopDown => {},
                    Connection::Lateral => {},
                }
            }
        }
    }

    /// The wiring of a linear chain of `n` columns, numbered in order:
    /// each column feeds the next bottom-up and receives top-down feedback
    /// from it. With `hierarchical_io` the first column takes the sensory
    /// input and the last gives the output; without it neither role is set.
    pub fn linear_chain(n: u32, hierarchical_io: bool) -> (r: Topology)
        ensures
            r.next_number() == n,
            r.links(Connection::BottomUp) == chain_feed(n),
            r.links(Connection::TopDown) == chain_feedback(n),
            r.links(Connection::Lateral) == unlinked(n),
            r.sink_ids() == (if hierarchical_io && n > 0 {
                seq![ColumnId(0)]
            } else {
                Seq::<ColumnId>::empty()
            }),
            r.source_ids() == (if hierarchical_io && n > 0 {
                seq![ColumnId((n - 1) as u32)]
            } else {
                Seq::<ColumnId>::empty()
            }),
    {
        let mut t = Topology::new();
        let mut i: u32 = 0;
        while i < n
            invariant
                i <= n,
                t.next_number() == i,
                forall|kind: Connection| #[trigger] t.links(kind) == unlinked(i),
                t.sink_ids() == (if hierarchical_io && i > 0 {
                    seq![ColumnId(0)]
                } else {
                    Seq::<ColumnId>::empty()
                }),
                t.source_ids() == (if hierarchical_io && i == n && n > 0 {
                    seq![ColumnId((n - 1) as u32)]
                } else {
                    Seq::<ColumnId>::empty()
                }),
            decreases n - i,
        {
            let is_input = hierarchical_io && i == 0;
            let is_output = hierarchical_io && i + 1 == n;
            let ghost before = t;
            let id = t.add_column(is_input, is_output);
            proof {
                assert forall|kind: Connection| #[trigger] t.links(kind) == unlinked((i + 1) as u32) by {
                    assert(t.links(kind) == with_node(before.links(kind), i));
                    assert(with_node(unlinked(i), i) =~= unlinked((i + 1) as u32));
                }
            }
            i = i + 1;
        }
        let mut w: u32 = 0;
        while w + 1 < n
            invariant
                0 < n || w == 0,
                w < n || n == 0,
                t.next_number() == n,
                t.links(Connection::BottomUp) == chain_feed_upto(n, w),
                t.links(Connection::TopDown) == chain_feedback_upto(n, w),
                t.links(Connection::Lateral) == unlinked(n),
                t.sink_ids() == (if hierarchical_io && n > 0 {
                    seq![ColumnId(0)]
                } else {
                    Seq::<ColumnId>::empty()
                }),
                t.source_ids() == (if hierarchical_io && n > 0 {
                    seq![ColumnId((n - 1) as u32)]
                } else {
                    Seq::<ColumnId>::empty()
                }),
            decreases n - w,
        {
            let ghost b0 = t;
            t.connect(ColumnId(w), ColumnId(w + 1), Connection::BottomUp);
            let ghost b1 = t;
            t.connect(ColumnId(w + 1), ColumnId(w), Connection::TopDown);
            proof {
                assert(b1.links(Connection::BottomUp) == linked(b0.links(Connection::BottomUp), w, (w + 1) as u32));
                assert(t.links(Connection::BottomUp) == b1.links(Connection::BottomUp));
                assert(t.links(Connection::TopDown) == linked(b1.links(Connection::TopDown), (w + 1) as u32, w));
                assert(b1.links(Connection::TopDown) == b0.links(Connection::TopDown));
                assert(t.links(Connection::Lateral) == b0.links(Connection::Lateral));
                assert(linked(chain_feed_upto(n, w), w, (w + 1) as u32) =~= chain_feed_upto(n, (w + 1) as u32));
                assert(linked(chain_feedback_upto(n, w), (w + 1) as u32, w) =~= chain_feedback_upto(n, (w + 1) as u32));
            }
            w = w + 1;
        }
        proof {
            if n > 0 {
                assert(chain_feed_upto(n, w) =~= chain_feed(n));
                assert(chain_feedback_upto(n, w) =~= chain_feedback(n));
            } else {
                assert(chain_feed_upto(n, w) =~= chain_feed(n));
                assert(chain_feedback_upto(n, w) =~= chain_feedback(n));
            }
        }
        t
    }

    /// Columns that receive external input, in insertion order.
    pub fn input_sinks(&self) -> (r: Vec<ColumnId>)
        ensures
            r@ == self.sink_ids(),
    {
        let mut r: Vec<ColumnId> = Vec::new();
        let mut i: usize = 0;
        while i < self.input_sinks.len()
            invariant
                i <= self.input_sinks@.len(),
                r@ == self.input_sinks@.subrange(0, i as int),
            decreases self.input_sinks@.len() - i,
        {
            r.push(self.input_sinks[i]);
            i += 1;
            assert(r@ =~= self.input_sinks@.subrange(0, i as int));
        }
        assert(r@ =~= self.input_sinks@);
        r
    }

    /// Columns whose L5 output is exposed, in insertion order.
    pub fn output_sources(&self) -> (r: Vec<ColumnId>)
        ensures
            r@ == self.source_ids(),
    {
        let mut r: Vec<ColumnId> = Vec::new();
        let mut i: usize = 0;
        while i < self.output_sources.len()
            invariant
                i <= self.output_sources@.len(),
                r@ == self.output_sources@.subrange(0, i as int),
            decreases self.output_sources@.len() - i,
        {
            r.push(self.output_sources[i]);
            i += 1;
            assert(r@ =~= self.output_sources@.subrange(0, i as int));
        }
        assert(r@ =~= self.output_sources@);
        r
    }

    /// Whether the column's L5 output is exposed.
    pub fn is_output(&self, id: ColumnId) -> (r: bool)
        ensures
            r == self.source_ids().contains(id),
    {
        let mut i: usize = 0;
        while i < self.output_sources.len()
            invariant
                i <= self.output_sources@.len(),
                forall|j: int| 0 <= j < i ==> #[trigger] self.output_sources@[j] != id,
            decreases self.output_sources@.len() - i,
        {
            if self.output_sources[i].0 == id.0 {
                assert(self.output_sources@[i as int] == id);
                return true;
            }
            i += 1;
        }
        false
    }
}

/// `ids` without `id`, order kept.
fn without(ids: &Vec<ColumnId>, id: ColumnId) -> (r: Vec<ColumnId>)
    ensures
        r@ == ids@.filter(|c: ColumnId| c != id),
{
    let mut r: Vec<ColumnId> = Vec::new();
    let mut i: usize = 0;
    while i < ids.len()
        invariant
            i <= ids@.len(),
            r@ == ids@.subrange(0, i as int).filter(|c: ColumnId| c != id),
        decreases ids@.len() - i,
    {
        let c = ids[i];
        proof {
            let pre = ids@.subrange(0, i as int);
            let post = ids@.subrange(0, i as int + 1);
            assert(post.drop_last() =~= pre);
            assert(post.last() == c);
            reveal_with_fuel(Seq::filter, 1);
        }
        if c.0 != id.0 {
            r.push(c);
        }
        i += 1;
    }
    assert(ids@.subrange(0, ids@.len() as int) =~= ids@);
    r
}

/// Columns `0..n`, none linked to any other.
pub open spec fn unlinked(n: u32) -> Map<u32, Seq<u32>> {
    Map::new(|k: u32| k < n, |k: u32| Seq::<u32>::empty())
}

/// Bottom-up links of a chain of `n`: each column fed by the one before it.
pub open spec fn chain_feed(n: u32) -> Map<u32, Seq<u32>> {
    chain_feed_upto(n, if n > 0 { (n - 1) as u32 } else { 0 })
}

/// Top-down links of a chain of `n`: each column fed back by the one after it.
pub open spec fn chain_feedback(n: u32) -> Map<u32, Seq<u32>> {
    chain_feedback_upto(n, if n > 0 { (n - 1) as u32 } else { 0 })
}

/// Bottom-up chain links of columns `0..n` declared for the first `w`
/// pairs: columns `1..=w` fed by their predecessors.
pub open spec fn chain_feed_upto(n: u32, w: u32) -> Map<u32, Seq<u32>> {
    Map::new(
        |k: u32| k < n,
        |k: u32|
            if 0 < k <= w {
                seq![(k - 1) as u32]
            } else {
                Seq::<u32>::empty()
            },
    )
}

/// Top-down chain links of columns `0..n` declared for the first `w` pairs:
/// columns `0..w` fed back by their successors.
pub open spec fn chain_feedback_upto(n: u32, w: u32) -> Map<u32, Seq<u32>> {
    Map::new(
        |k: u32| k < n,
        |k: u32|
            if k < w {
                seq![(k + 1) as u32]
            } else {
                Seq::<u32>::empty()
            },
    )
}

/// Whether some train in `trains` fires at step `i`.
pub open spec fn fires_at(trains: Seq<Vec<bool>>, i: int) -> bool {
    exists|j: int| 0 <= j < trains.len() && i < trains[j]@.len() && #[trigger] trains[j]@[i]
}

/// L1 context of a column from its top-down parents' L5 trains: `None`
/// without parents; otherwise `l1_width` steps, each firing iff some parent
/// fires there (steps a parent's train does not reach stay silent).
pub fn top_down_context(l1_width: usize, parent_l5: &Vec<Vec<bool>>) -> (r: Option<Vec<bool>>)
    ensures
        r is None <==> parent_l5@.len() == 0,
        r matches Some(v) ==> v@.len() == l1_width && forall|i: int|
            0 <= i < l1_width ==> #[trigger] v@[i] == fires_at(parent_l5@, i),
{
    if parent_l5.len() == 0 {
        return None;
    }
    let mut acc: Vec<bool> = Vec::new();
    let mut i: usize = 0;
    while i < l1_width
        invariant
            i <= l1_width,
            acc@.len() == i,
            forall|k: int| 0 <= k < i ==> !#[trigger] acc@[k],
        decreases l1_width - i,
    {
        acc.push(false);
        i += 1;
    }
    let mut j: usize = 0;
    while j < parent_l5.len()
        invariant
            j <= parent_l5@.len(),
            acc@.len() == l1_width,
            forall|k: int| 0 <= k < l1_width ==> #[trigger] acc@[k] == fires_at(
                parent_l5@.subrange(0, j as int),
                k,
            ),
        decreases parent_l5@.len() - j,
    {
        let train = &parent_l5[j];
        let ghost before = acc@;
        let mut k: usize = 0;
        while k < l1_width
            invariant
                j < parent_l5@.len(),
                *train == parent_l5@[j as int],
                k <= l1_width,
                acc@.len() == l1_width,
                forall|m: int| 0 <= m < k ==> #[trigger] acc@[m] == (before[m] || (m
                    < train@.len() && train@[m])),
                forall|m: int| k <= m < l1_width ==> #[trigger] acc@[m] == before[m],
            decreases l1_width - k,
        {
            if k < train.len() && train[k] {
                acc.set(k, true);
            }
            k += 1;
        }
        proof {
            let pre = parent_l5@.subrange(0, j as int);
            let post = parent_l5@.subrange(0, j as int + 1);
            assert forall|m: int| 0 <= m < l1_width implies #[trigger] acc@[m] == fires_at(
                post,
                m,
            ) by {
                if fires_at(pre, m) {
                    let w = choose|w: int| 0 <= w < pre.len() && m < pre[w]@.len() && #[trigger] pre[w]@[m];
                    assert(post[w] == pre[w]);
                }
                if m < train@.len() && train@[m] {
                    assert(post[j as int] == *train);
                }
                if fires_at(post, m) {
                    let w = choose|w: int| 0 <= w < post.len() && m < post[w]@.len() && #[trigger] post[w]@[m];
                    if w < j {
                        assert(pre[w] == post[w]);
                    } else {
                        assert(post[w] == *train);
                    }
                }
            }
        }
        j += 1;
    }
    assert(parent_l5@.subrange(0, parent_l5@.len() as int) =~= parent_l5@);
    Some(acc)
}

/// Column ids in ascending order of their numbers, as the hierarchy runs
/// them (bottom-up, in insertion order) and lists them.
pub fn sorted_column_ids(ids: Vec<ColumnId>) -> (r: Vec<ColumnId>)
    ensures
        r@.len() == ids@.len(),
        r@.to_multiset() == ids@.to_multiset(),
        forall|i: int, j: int| 0 <= i < j < r@.len() ==> r@[i].0 <= r@[j].0,
{
    let mut v = ids;
    let n = v.len();
    let mut i: usize = 1;
    if n == 0 {
        return v;
    }
    proof {
        assert(v@ =~= ids@);
    }
    // Insertion sort: the first `i` ids are sorted.
    while i < n
        invariant
            1 <= i <= n,
            v@.len() == n,
            n == ids@.len(),
            v@.to_multiset() == ids@.to_multiset(),
            forall|a: int, b: int| 0 <= a < b < i ==> v@[a].0 <= v@[b].0,
        decreases n - i,
    {
        let mut j: usize = i;
        while j > 0 && v[j - 1].0 > v[j].0
            invariant
                0 <= j <= i < n,
                v@.len() == n,
                v@.to_multiset() == ids@.to_multiset(),
                forall|a: int, b: int| 0 <= a < b <= i && b != j ==> v@[a].0 <= v@[b].0,
                0 < j < i ==> v@[j - 1].0 <= v@[j + 1].0,
            decreases j,
        {
            let x = v[j - 1];
            let y = v[j];
            let ghost s = v@;
            v.set(j - 1, y);
            v.set(j, x);
            proof {
                broadcast use vstd::multiset::group_multiset_axioms;

                let s1 = s.update(j - 1, y);
                vstd::seq_lib::to_multiset_update(s, j - 1, y);
                vstd::seq_lib::to_multiset_update(s1, j as int, x);
                assert(v@ == s1.update(j as int, x));
                assert(s[j - 1] == x && s1[j as int] == y);
                assert(s.contains(x));
                s.to_multiset_ensures();
                assert(s.to_multiset().count(x) > 0);
                let m0 = s.to_multiset();
                let m1 = m0.insert(y).remove(x);
                let m2 = m1.insert(x).remove(y);
                assert forall|a: ColumnId| #[trigger] m2.count(a) == m0.count(a) by {}
                assert(v@.to_multiset() =~= s.to_multiset());
            }
            j -= 1;
        }
        i += 1;
    }
    v
}

} // verus!
