use nexus_cog_neural::neurogenesis::apoptosis_tick;
use nexus_cog_neural::sensorimotor::next_phase;
use nexus_cog_neural::working_memory::choose_slot;
use nexus_cog_neural::{CorticalLayer, LayerSpec, LoopPhase, NeurogenicVerdict, SleepCycle};

/// Which columns are below a permanence floor.
fn below(perms: &[f32], floor: f32) -> Vec<bool> {
    perms.iter().map(|&p| p < floor).collect()
}

#[test]
fn l5_is_marked_output_layer() {
    let specs = LayerSpec::default_column();
    assert!(specs[3].is_output);
    assert!(specs[2].is_input);
    assert!(!specs[0].is_output);
}

#[test]
fn layer_indices_follow_canonical_order() {
    for (i, layer) in CorticalLayer::ALL.iter().enumerate() {
        assert_eq!(layer.index(), i);
    }
    assert_eq!(CorticalLayer::L5.index(), 3);
}

#[test]
fn low_permanence_triggers_apoptosis() {
    let mut streaks: Vec<u32> = Vec::new();
    let mut verdicts = apoptosis_tick(&mut streaks, &below(&[0.1, 0.6], 0.5), 3, 0);
    assert_eq!(verdicts[0], NeurogenicVerdict::Survive);
    for _ in 0..3 {
        verdicts = apoptosis_tick(&mut streaks, &below(&[0.1, 0.6], 0.5), 3, 0);
    }
    assert_eq!(verdicts[0], NeurogenicVerdict::Apoptose);
    assert_eq!(verdicts[1], NeurogenicVerdict::Survive);
}

#[test]
fn minimum_columns_protected() {
    let mut streaks: Vec<u32> = Vec::new();
    let verdicts = apoptosis_tick(&mut streaks, &below(&[0.0, 0.0, 0.0], 0.1), 1, 2);
    assert_eq!(verdicts[1], NeurogenicVerdict::Survive);
}

#[test]
fn spared_columns_are_the_shortest_streaks() {
    let mut streaks: Vec<u32> = vec![5, 1, 3, 0];
    let verdicts = apoptosis_tick(&mut streaks, &[true, true, true, true], 1, 2);
    assert_eq!(streaks, vec![6, 2, 4, 1]);
    assert_eq!(
        verdicts,
        vec![
            NeurogenicVerdict::Apoptose,
            NeurogenicVerdict::Survive,
            NeurogenicVerdict::Apoptose,
            NeurogenicVerdict::Survive,
        ]
    );
    let resets = apoptosis_tick(&mut streaks, &[false, true, false, true], 1, 0);
    assert_eq!(streaks, vec![0, 3, 0, 2]);
    assert_eq!(resets[0], NeurogenicVerdict::Survive);
    assert_eq!(resets[1], NeurogenicVerdict::Apoptose);
}

#[test]
fn phase_cycles_through_loop() {
    let start = LoopPhase::default();
    let mut phase = start;
    for _ in 0..4 {
        phase = next_phase(phase);
    }
    assert_ne!(phase, start);
    assert_eq!(phase, LoopPhase::Effecting);
    assert_eq!(next_phase(phase), LoopPhase::Sensing);
    assert_eq!(next_phase(LoopPhase::Sleeping), LoopPhase::Sensing);
}

#[test]
fn sleep_cycle_is_stateless() {
    let _ = SleepCycle::new();
}

#[test]
fn slot_choice_prefers_empty_then_stale_then_growth() {
    assert_eq!(choose_slot(&[true, false, false], &[true, false, false], 7), Some(1));
    assert_eq!(choose_slot(&[true, true], &[false, true], 7), Some(1));
    assert_eq!(choose_slot(&[true, true], &[false, false], 7), Some(2));
    assert_eq!(choose_slot(&[true, true, true], &[false, false, false], 3), None);
}

#[test]
fn capacity_enforced() {
    let mut occupied: Vec<bool> = Vec::new();
    let mut stale: Vec<bool> = Vec::new();
    for _ in 0..3 {
        let idx = choose_slot(&occupied, &stale, 3).unwrap();
        assert_eq!(idx, occupied.len());
        occupied.push(true);
        stale.push(false);
    }
    assert!(choose_slot(&occupied, &stale, 3).is_none());
}

#[test]
fn no_column_is_pruned_at_or_below_the_floor() {
    let mut streaks: Vec<u32> = Vec::new();
    let v = apoptosis_tick(&mut streaks, &below(&[0.0, 0.0], 0.1), 1, 3);
    assert_eq!(v, vec![NeurogenicVerdict::Survive, NeurogenicVerdict::Survive]);
    let mut streaks: Vec<u32> = Vec::new();
    let v = apoptosis_tick(&mut streaks, &below(&[0.0, 0.0, 0.0], 0.1), 1, 3);
    assert!(v.iter().all(|x| *x == NeurogenicVerdict::Survive));
}
