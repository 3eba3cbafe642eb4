use nexus_cog_neural::astrocyte::ring_neighbours;
use nexus_cog_neural::hierarchy::{top_down_context, Topology};
use nexus_cog_neural::region::hierarchy::{fan_in, RegionGraph};
use nexus_cog_neural::replay::record_bounded;
use nexus_cog_neural::sdr::encoder::seeded_bits;
use nexus_cog_neural::thalamus::gate;
use rand::rngs::StdRng;
use rand::SeedableRng;
use nexus_cog_neural::{ColumnId, Connection, GatingDecision, RegionId, Sdr, SDR_WIDTH};

#[test]
fn columns_are_numbered_in_insertion_order() {
    let mut t = Topology::new();
    let a = t.add_column(true, false);
    let b = t.add_column(false, true);
    let c = t.add_column(true, true);
    assert_eq!((a, b, c), (ColumnId(0), ColumnId(1), ColumnId(2)));
    assert_eq!(t.next_id(), 3);
    assert_eq!(t.input_sinks(), vec![ColumnId(0), ColumnId(2)]);
    assert_eq!(t.output_sources(), vec![ColumnId(1), ColumnId(2)]);
    assert!(t.is_output(ColumnId(1)));
    assert!(!t.is_output(ColumnId(0)));
}

#[test]
fn connect_appends_sources_per_kind() {
    let mut t = Topology::new();
    let a = t.add_column(false, false);
    let b = t.add_column(false, false);
    let c = t.add_column(false, false);
    t.connect(a, c, Connection::BottomUp);
    t.connect(b, c, Connection::BottomUp);
    t.connect(c, a, Connection::TopDown);
    assert_eq!(t.sources(c, Connection::BottomUp), vec![a, b]);
    assert!(t.sources(c, Connection::TopDown).is_empty());
    assert_eq!(t.sources(a, Connection::TopDown), vec![c]);
    assert!(t.sources(a, Connection::Lateral).is_empty());
    // A link to a column that was never added is still recorded.
    t.connect(a, ColumnId(9), Connection::Lateral);
    assert_eq!(t.sources(ColumnId(9), Connection::Lateral), vec![a]);
}

#[test]
fn removed_column_loses_roles_and_links_but_ids_stay_fresh() {
    let mut t = Topology::new();
    let a = t.add_column(true, true);
    let b = t.add_column(false, true);
    t.connect(b, a, Connection::TopDown);
    t.connect(a, b, Connection::BottomUp);
    t.remove_column(a);
    assert!(t.input_sinks().is_empty());
    assert_eq!(t.output_sources(), vec![b]);
    assert!(t.sources(a, Connection::TopDown).is_empty());
    // b's own list still names a.
    assert_eq!(t.sources(b, Connection::BottomUp), vec![a]);
    let c = t.add_column(false, false);
    assert_eq!(c, ColumnId(2));
}

#[test]
fn linear_chain_links_neighbours_both_ways() {
    let t = Topology::linear_chain(3, true);
    assert_eq!(t.next_id(), 3);
    assert_eq!(t.input_sinks(), vec![ColumnId(0)]);
    assert_eq!(t.output_sources(), vec![ColumnId(2)]);
    assert!(t.sources(ColumnId(0), Connection::BottomUp).is_empty());
    assert_eq!(t.sources(ColumnId(1), Connection::BottomUp), vec![ColumnId(0)]);
    assert_eq!(t.sources(ColumnId(2), Connection::BottomUp), vec![ColumnId(1)]);
    assert_eq!(t.sources(ColumnId(0), Connection::TopDown), vec![ColumnId(1)]);
    assert_eq!(t.sources(ColumnId(1), Connection::TopDown), vec![ColumnId(2)]);
    assert!(t.sources(ColumnId(2), Connection::TopDown).is_empty());
    let single = Topology::linear_chain(1, true);
    assert_eq!(single.input_sinks(), vec![ColumnId(0)]);
    assert_eq!(single.output_sources(), vec![ColumnId(0)]);
    let plain = Topology::linear_chain(4, false);
    assert!(plain.input_sinks().is_empty());
    assert!(plain.output_sources().is_empty());
}

#[test]
fn top_down_context_ors_parents_to_width() {
    assert_eq!(top_down_context(4, &vec![]), None);
    let parents = vec![vec![true, false, false], vec![false, false, true, true, true], vec![]];
    assert_eq!(top_down_context(4, &parents), Some(vec![true, false, true, true]));
    assert_eq!(top_down_context(0, &parents), Some(vec![]));
    assert_eq!(top_down_context(2, &vec![vec![]]), Some(vec![false, false]));
}

#[test]
fn top_region_is_highest_region_feeding_no_other() {
    let mut g = RegionGraph::new();
    assert_eq!(g.top_region(), None);
    let r1 = g.add_region();
    let r2 = g.add_region();
    g.connect(r1, r2);
    assert_eq!(g.sources(r2), vec![r1]);
    assert_eq!(g.top_region(), Some(r2));
    // A list naming a region as its only source does not count against it.
    let mut cyc = RegionGraph::new();
    let a = cyc.add_region();
    let b = cyc.add_region();
    cyc.connect(a, b);
    cyc.connect(b, a);
    assert_eq!(cyc.top_region(), Some(b));
    // Every region appears in a list with another source: no top region.
    let mut busy = RegionGraph::new();
    let x = busy.add_region();
    let y = busy.add_region();
    busy.connect(x, y);
    busy.connect(y, y);
    assert_eq!(busy.sources(y), vec![x, y]);
    assert_eq!(busy.top_region(), None);
    assert_eq!(x, RegionId(0));
}

#[test]
fn fan_in_unions_upstream_or_falls_back_to_own_input() {
    let a = Sdr::from_bits(&[1, 2]);
    let b = Sdr::from_bits(&[2, 7]);
    let own = Sdr::from_bits(&[100]);
    let combined = fan_in(&vec![a, b], Some(&own));
    assert_eq!(combined.active_bits(), &[1, 2, 7]);
    let fallback = fan_in(&vec![Sdr::empty()], Some(&own));
    assert_eq!(fallback.active_bits(), &[100]);
    let nothing = fan_in(&vec![], None);
    assert_eq!(nothing.active_count(), 0);
}

#[test]
fn small_rings_couple_only_ring_neighbours() {
    let mut rng = StdRng::seed_from_u64(3);
    let ring = ring_neighbours(3, &mut rng);
    assert_eq!(ring, vec![vec![2, 1], vec![0, 2], vec![1, 0]]);
    assert!(ring_neighbours(0, &mut rng).is_empty());
    assert_eq!(ring_neighbours(1, &mut rng), vec![vec![0, 0]]);
}

#[test]
fn large_rings_add_at_most_one_long_range_link() {
    let mut rng = StdRng::seed_from_u64(11);
    let n = 9;
    let ring = ring_neighbours(n, &mut rng);
    assert_eq!(ring.len(), n);
    for (i, nb) in ring.iter().enumerate() {
        assert_eq!(nb[0], if i == 0 { n - 1 } else { i - 1 });
        assert_eq!(nb[1], if i == n - 1 { 0 } else { i + 1 });
        assert!(nb.len() == 2 || nb.len() == 3);
        if nb.len() == 3 {
            assert!(nb[2] < n && nb[2] != i);
        }
    }
}

#[test]
fn seeded_bits_draws_within_width_and_count() {
    let s = seeded_bits(&[1, 2, 3], 4);
    assert!(s.active_count() >= 1 && s.active_count() <= 12);
    assert!(s.active_bits().iter().all(|&b| b < SDR_WIDTH));
    assert_eq!(seeded_bits(&[], 4).active_count(), 0);
    assert_eq!(seeded_bits(&[5], 0).active_count(), 0);
    // The same seeds draw the same bits.
    assert_eq!(seeded_bits(&[42, 43], 8), seeded_bits(&[42, 43], 8));
}

#[test]
fn gate_forwards_halves_or_blocks() {
    let input = Sdr::from_bits(&[1, 3, 5, 7, 9]);
    let fwd = gate(GatingDecision::Forward, input.clone()).expect("forwarded");
    assert_eq!(fwd, input);
    let att = gate(GatingDecision::Attenuate, input.clone()).expect("attenuated");
    assert_eq!(att.active_count(), 3);
    assert!(att.active_bits().iter().all(|b| input.get(*b)));
    assert!(gate(GatingDecision::Block, input).is_none());
    let empty = gate(GatingDecision::Attenuate, Sdr::empty()).expect("attenuated");
    assert_eq!(empty.active_count(), 0);
}

#[test]
fn bounded_recording_drops_oldest_first() {
    let mut buf: Vec<u32> = Vec::new();
    for x in 1..=5 {
        record_bounded(&mut buf, 3, x);
    }
    assert_eq!(buf, vec![3, 4, 5]);
    let mut over: Vec<u32> = vec![1, 2, 3, 4];
    record_bounded(&mut over, 2, 9);
    assert_eq!(over, vec![2, 3, 4, 9]);
}

#[test]
fn add_column_returns_unique_ids() {
    let mut h = Topology::new();
    let a = h.add_column(true, false);
    let b = h.add_column(false, true);
    assert_ne!(a, b);
    assert_eq!(h.next_id(), 2);
}

#[test]
fn connect_records_topology() {
    let mut h = Topology::new();
    let a = h.add_column(true, false);
    let b = h.add_column(false, true);
    h.connect(a, b, Connection::BottomUp);
    h.connect(b, a, Connection::TopDown);
    assert_eq!(h.sources(b, Connection::BottomUp).len(), 1);
    assert_eq!(h.sources(a, Connection::TopDown).len(), 1);
}

/// The fields of a replay frame, as the cortex records them.
struct Frame {
    tick: u64,
    timestamp: i64,
    per_region: Vec<f32>,
    workspace: Sdr,
    modulators: [f32; 3],
}

#[test]
fn capacity_drops_oldest() {
    let mut buf: Vec<Frame> = Vec::new();
    for i in 0..5 {
        record_bounded(
            &mut buf,
            3,
            Frame {
                tick: i,
                timestamp: 0,
                per_region: vec![],
                workspace: Sdr::empty(),
                modulators: [0.5, 0.5, 0.5],
            },
        );
    }
    assert_eq!(buf.len(), 3);
    assert_eq!(buf[0].tick, 2);
    assert_eq!(buf[2].tick, 4);
    assert!(buf.iter().all(|f| f.timestamp == 0
        && f.per_region.is_empty()
        && f.workspace.active_count() == 0
        && f.modulators == [0.5, 0.5, 0.5]));
}

#[test]
fn history_capped() {
    let mut history: Vec<(Vec<String>, Sdr)> = Vec::new();
    for _ in 0..1500 {
        record_bounded(&mut history, 1024, (vec!["x".to_string()], Sdr::empty()));
    }
    assert!(history.len() <= 1024);
}
