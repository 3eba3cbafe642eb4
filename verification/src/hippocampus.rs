//! The hippocampus's episodic store: episodes by id, sequential ids that
//! are never reused, and the capacity ceiling that bounds the store.
//!
//! What an episode holds (its SDR, float salience and valence, timestamp,
//! metadata) is opaque here: the store is generic in it. Which episode is
//! evicted when the store is full is chosen by salience outside the
//! library and handed in.
use std::collections::HashMap;
use vstd::prelude::*;

verus! {

broadcast use vstd::std_specs::hash::group_hash_axioms;

/// Null sink — records nothing. Used when the hippocampus is created
/// without a backing store (e.g. inside a short-lived test).
#[derive(Debug, Default, Clone, Copy)]
pub struct NullEpisodeSink;

/// The store before a new episode goes in: when it already holds
/// `capacity` episodes or more and a victim is named, the victim is gone.
pub open spec fn after_eviction<E>(m: Map<u64, E>, capacity: usize, victim: Option<u64>) -> Map<
    u64,
    E,
> {
    match victim {
        Some(v) => if m.len() >= capacity {
            m.remove(v)
        } else {
            m
        },
        None => m,
    }
}

/// Episodes by id, with the id the next recorded episode gets.
#[derive(Debug)]
pub struct EpisodeStore<E> {
    episodes: HashMap<u64, E>,
    next_id: u64,
}

impl<E> View for EpisodeStore<E> {
    type V = Map<u64, E>;

    closed spec fn view(&self) -> Map<u64, E> {
        self.episodes@
    }
}

impl<E> EpisodeStore<E> {
    #[verifier::type_invariant]
    closed spec fn inv(&self) -> bool {
        forall|id: u64| #[trigger] self.episodes@.contains_key(id) ==> id < self.next_id
    }

    /// The id the next recorded episode gets; every stored id is below it.
    pub closed spec fn next_number(&self) -> u64 {
        self.next_id
    }

    /// An empty store; ids start at 0.
    pub fn new() -> (r: EpisodeStore<E>)
        ensures
            r@ == Map::<u64, E>::empty(),
            r.next_number() == 0,
    {
        EpisodeStore { episodes: HashMap::new(), next_id: 0 }
    }

    /// The id the next recorded episode gets.
    pub fn next_id(&self) -> (r: u64)
        ensures
            r == self.next_number(),
    {
        self.next_id
    }

    /// Number of stored episodes.
    pub fn len(&self) -> (r: usize)
        ensures
            r == self@.len(),
    {
        self.episodes.len()
    }

    /// The stored episodes, by id.
    pub fn episodes(&self) -> (r: &HashMap<u64, E>)
        ensures
            r@ == self@,
    {
        &self.episodes
    }

    /// Look up an episode by id.
    pub fn get(&self, id: u64) -> (r: Option<&E>)
        ensures
            match r {
                Some(e) => self@.contains_key(id) && *e == self@[id],
                None => !self@.contains_key(id),
            },
    {
        self.episodes.get(&id)
    }

    /// Record `episode` under the next id and return that id. When the
    /// store already holds `capacity` episodes or more, `victim` (if any)
    /// is evicted first.
    ///
    /// Once the store is within a capacity of at least one, it stays
    /// within it as long as a victim is named whenever the store is full.
    pub fn record(&mut self, capacity: usize, victim: Option<u64>, episode: E) -> (id: u64)
        requires
            old(self).next_number() < u64::MAX,
            victim matches Some(v) ==> old(self)@.contains_key(v),
        ensures
            id == old(self).next_number(),
            !old(self)@.contains_key(id),
            final(self).next_number() == old(self).next_number() + 1,
            final(self)@ == after_eviction(old(self)@, capacity, victim).insert(id, episode),
            1 <= capacity && old(self)@.len() <= capacity && (old(self)@.len() >= capacity
                ==> victim is Some) ==> final(self)@.len() <= capacity,
    {
        proof {
            use_type_invariant(&*self);
        }
        let ghost before = self@;
        let mut episodes: HashMap<u64, E> = HashMap::new();
        std::mem::swap(&mut episodes, &mut self.episodes);
        if episodes.len() >= capacity {
            match victim {
                Some(v) => {
                    episodes.remove(&v);
                },
                None => {},
            }
        }
        let ghost kept = episodes@;
        assert(kept == after_eviction(before, capacity, victim));
        let id = self.next_id;
        episodes.insert(id, episode);
        proof {
            assert(!kept.contains_key(id));
            assert(kept.dom().finite());
            if 1 <= capacity && before.len() <= capacity && (before.len() >= capacity ==> victim is Some) {
                if before.len() >= capacity {
                    let v = victim.unwrap();
                    assert(kept == before.remove(v));
                    assert(kept.len() == before.len() - 1);
                }
                assert(episodes@.len() == kept.len() + 1);
            }
        }
        self.next_id = id + 1;
        self.episodes = episodes;
        id
    }

    /// Put back an episode loaded from persistence under its own id; the
    /// next id moves past it if needed.
    pub fn restore(&mut self, id: u64, episode: E)
        requires
            id < u64::MAX,
        ensures
            final(self)@ == old(self)@.insert(id, episode),
            final(self).next_number() == if id >= old(self).next_number() {
                (id + 1) as u64
            } else {
                old(self).next_number()
            },
    {
        proof {
            use_type_invariant(&*self);
        }
        let next = if id >= self.next_id {
            id + 1
        } else {
            self.next_id
        };
        let mut episodes: HashMap<u64, E> = HashMap::new();
        std::mem::swap(&mut episodes, &mut self.episodes);
        episodes.insert(id, episode);
        self.next_id = next;
        self.episodes = episodes;
    }

    /// Replace a stored episode in place (same id).
    pub fn replace(&mut self, id: u64, episode: E)
        requires
            old(self)@.contains_key(id),
        ensures
            final(self)@ == old(self)@.insert(id, episode),
            final(self).next_number() == old(self).next_number(),
    {
        proof {
            use_type_invariant(&*self);
        }
        let mut episodes: HashMap<u64, E> = HashMap::new();
        std::mem::swap(&mut episodes, &mut self.episodes);
        episodes.insert(id, episode);
        self.episodes = episodes;
    }

    /// Remove an episode, handing it back.
    pub fn remove(&mut self, id: u64) -> (r: Option<E>)
        ensures
            final(self)@ == old(self)@.remove(id),
            final(self).next_number() == old(self).next_number(),
            match r {
                Some(e) => old(self)@.contains_key(id) && e == old(self)@[id],
                None => !old(self)@.contains_key(id),
            },
    {
        proof {
            use_type_invariant(&*self);
        }
        let mut episodes: HashMap<u64, E> = HashMap::new();
        std::mem::swap(&mut episodes, &mut self.episodes);
        let r = episodes.remove(&id);
        self.episodes = episodes;
        r
    }
}

} // verus!
