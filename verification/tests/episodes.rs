use nexus_cog_neural::hippocampus::EpisodeStore;
use nexus_cog_neural::Sdr;

/// The fields of a hippocampal episode that the store carries.
#[derive(Clone)]
struct Episode {
    id: u64,
    sdr: Sdr,
    source: String,
    timestamp: i64,
    salience: f32,
    valence: [f32; 3],
    replay_count: u32,
    metadata: (String, String),
}

fn episode(id: u64, source: &str, salience: f32) -> Episode {
    Episode {
        id,
        sdr: Sdr::empty(),
        source: source.to_string(),
        timestamp: 1,
        salience,
        valence: [0.0; 3],
        replay_count: 0,
        metadata: (String::new(), String::new()),
    }
}

/// Record as the hippocampus does: when full, the lowest-salience episode
/// is the one evicted.
fn record(store: &mut EpisodeStore<Episode>, capacity: usize, source: &str, salience: f32) -> u64 {
    let victim = if store.len() >= capacity {
        store
            .episodes()
            .iter()
            .min_by(|a, b| a.1.salience.partial_cmp(&b.1.salience).unwrap())
            .map(|(&id, _)| id)
    } else {
        None
    };
    let id = store.next_id();
    store.record(capacity, victim, episode(id, source, salience))
}

#[test]
fn restore_all_preserves_ids_and_next_id() {
    let mut h: EpisodeStore<Episode> = EpisodeStore::new();
    let a = Episode { metadata: ("k".to_string(), "v".to_string()), salience: 0.5, ..episode(0, "x", 0.5) };
    let b = Episode { id: 7, ..a.clone() };
    for ep in vec![a, b] {
        h.restore(ep.id, ep);
    }
    assert_eq!(h.next_id(), 8);
    assert_eq!(h.len(), 2);
    let fresh = record(&mut h, 100_000, "new", 0.5);
    assert_eq!(fresh, 8);
    assert_eq!(h.get(7).map(|e| e.metadata.1.clone()), Some("v".to_string()));
}

#[test]
fn capacity_evicts_lowest() {
    let mut h: EpisodeStore<Episode> = EpisodeStore::new();
    let capacity = 2;
    record(&mut h, capacity, "low", 0.3);
    record(&mut h, capacity, "mid", 0.5);
    record(&mut h, capacity, "high", 0.9);
    assert_eq!(h.len(), 2);
    assert!(h.get(0).is_none(), "low-salience id 0 should be evicted");
    assert!(h.get(1).is_some());
    assert!(h.get(2).is_some());
}

#[test]
fn ids_are_sequential_and_never_reused() {
    let mut h: EpisodeStore<Episode> = EpisodeStore::new();
    assert_eq!(record(&mut h, 1, "a", 0.1), 0);
    assert_eq!(record(&mut h, 1, "b", 0.2), 1);
    assert_eq!(h.len(), 1);
    assert!(h.get(0).is_none());
    let removed = h.remove(1).expect("stored");
    assert_eq!(removed.source, "b");
    assert_eq!(h.len(), 0);
    assert_eq!(record(&mut h, 1, "c", 0.3), 2);
}

#[test]
fn replace_keeps_id_and_updates_the_episode() {
    let mut h: EpisodeStore<Episode> = EpisodeStore::new();
    let id = record(&mut h, 10, "x", 0.9);
    let mut updated = h.get(id).cloned().expect("stored");
    updated.replay_count += 1;
    h.replace(id, updated);
    assert_eq!(h.get(id).map(|e| e.replay_count), Some(1));
    assert_eq!(h.next_id(), 1);
    let e = h.get(id).expect("stored");
    assert_eq!((e.timestamp, e.valence, e.sdr.active_count()), (1, [0.0; 3], 0));
}
