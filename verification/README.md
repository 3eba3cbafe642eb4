# nexus-cog-neural

A brain-like cognitive architecture whose discrete core is verified with
Verus. Every brain state is a 2048-bit sparse distributed representation
(SDR); spike trains carry the temporal code; columns, regions and
subsystems are wired into hierarchies.

## Layout

- `src/` — the verified library. Each public function states in its
  contract what it returns or changes, over mathematical views (`Set`,
  `Seq`, `Map`):
  - `sdr/` — the SDR bit set (`Sdr`, viewed as the set of its active
    bits), overlap and distance counts with their laws, and the encoders
    (category, sequence, bucketed scalar layout).
  - `spike.rs`, `cortex.rs` — spike trains and their folding into SDRs.
  - `graph.rs`, `hierarchy.rs`, `region/hierarchy.rs` — the wiring of the
    column and region hierarchies, the chain built by the cortex, the
    merge of top-down context and the choice of the top region.
  - `region/` — temporal memory and the spatial pooler's integer kernels.
  - `hippocampus.rs` — the episodic store: sequential ids never reused,
    restore from persistence, and the capacity ceiling.
  - `neurogenesis.rs`, `sensorimotor.rs`, `working_memory.rs`,
    `attention.rs`, `thalamus.rs`, `astrocyte.rs`, `replay.rs` — the
    decisions of those subsystems on integer and boolean state.
  - `rng.rs`, `sdr/packed.rs` — the trusted declarations of the `rand`
    and `bitvec` calls the library makes.
- `tests/` — tests on concrete values, run against the compiled library.
- `app/` — the floating-point simulation around the core (activation
  levels, permanences, neuromodulators, salience), serde forms, the
  thread-safe replay buffer and the cortex orchestrator.
