use kogic::component::{Component, InPinId, OutPinId, Updater};
use kogic::components::Clock;
use kogic::simulation::{create_component, Simulation};

fn out_pin(node: usize) -> OutPinId {
    OutPinId { node, output: 0 }
}

fn in_pin(node: usize, input: usize) -> InPinId {
    InPinId { node, input }
}

fn indicator_lit(c: &Component) -> bool {
    match &c.updater {
        Updater::Indicator { is_lit, .. } => *is_lit,
        _ => panic!("not an indicator"),
    }
}

#[test]
fn finalize_idempotent() {
    // A second finalize without an intervening update reports no change.
    let mut c = Component::new(Updater::Constant { state: true });
    c.next_state = vec![vec![true]];
    assert!(c.finalize());
    assert!(!c.finalize());
}

#[test]
fn finalize_without_difference_reports_no_change() {
    let mut c = Component::new(Updater::Constant { state: true });
    assert!(!c.finalize());
    assert_eq!(c.state, vec![vec![false]]);
}

#[test]
fn create_component_hands_out_sequential_ids() {
    let mut comps: Vec<Component> = Vec::new();
    let a = create_component(&mut comps, Updater::Constant { state: true });
    let b = create_component(&mut comps, Updater::NAND);
    assert_eq!((a, b), (0, 1));
    assert_eq!(comps.len(), 2);
    assert_eq!(comps[1].state, vec![vec![false]]);
}

#[test]
fn component_new_shapes_states() {
    let c = Component::new(Updater::NAND);
    assert_eq!(c.state, vec![vec![false]]);
    assert_eq!(c.next_state, vec![vec![false]]);
    assert!(c.depends_on.is_empty());
    assert!(c.connected_to.is_empty());

    let d = Component::new(Updater::Decompositor { split_into: 3 });
    assert_eq!(d.state, vec![Vec::<bool>::new(), Vec::new(), Vec::new()]);
}

#[test]
fn decompositor_widths() {
    // Width 10 split into 3 buses: widths [3, 3, 4], contiguous and in
    // order, summing back to the input.
    let bits: Vec<bool> = vec![
        true, false, true, true, false, false, true, false, true, true,
    ];
    let mut u = Updater::Decompositor { split_into: 3 };
    let input = vec![bits.clone()];
    let mut output: Vec<Vec<bool>> = vec![Vec::new(), Vec::new(), Vec::new()];
    u.update(&input, &mut output);
    assert_eq!(output[0].len(), 3);
    assert_eq!(output[1].len(), 3);
    assert_eq!(output[2].len(), 4);
    let mut joined: Vec<bool> = Vec::new();
    for part in &output {
        joined.extend_from_slice(part);
    }
    assert_eq!(joined, bits);
}

#[test]
fn decompositor_single_bus_is_identity() {
    let bits = vec![true, false, true];
    let mut u = Updater::Decompositor { split_into: 1 };
    let mut output: Vec<Vec<bool>> = vec![Vec::new()];
    u.update(&vec![bits.clone()], &mut output);
    assert_eq!(output, vec![bits]);
}

#[test]
fn unwired_inputs_read_as_zero() {
    // A NAND with nothing wired reads (false, false) and so goes high.
    let mut comps = vec![Component::new(Updater::NAND)];
    let mut sim = Simulation::default();
    sim.add_to_queue(0);
    sim.tick(&mut comps);
    assert_eq!(comps[0].read_output(0), vec![true]);
}

#[test]
fn add_to_queue_ignores_duplicates() {
    let mut sim = Simulation::default();
    sim.add_to_queue(7);
    sim.add_to_queue(7);
    sim.add_to_queue(3);
    assert_eq!(sim.queue, vec![7, 3]);
}

#[test]
fn convergence_acyclic_network_empties_queue() {
    // An acyclic network with no forcing behaviors reaches an empty queue
    // within at most one tick per node.
    let mut comps = vec![
        Component::new(Updater::Constant { state: true }),
        Component::new(Updater::Constant { state: false }),
        Component::new(Updater::AND),
        Component::new(Updater::Indicator {
            name: "lamp".to_string(),
            is_lit: false,
        }),
    ];
    let mut sim = Simulation::default();
    sim.connect(out_pin(0), in_pin(2, 0), &mut comps);
    sim.connect(out_pin(1), in_pin(2, 1), &mut comps);
    sim.connect(out_pin(2), in_pin(3, 0), &mut comps);
    for id in 0..4 {
        sim.add_to_queue(id);
    }
    for _ in 0..4 {
        sim.tick(&mut comps);
    }
    assert!(sim.queue.is_empty());
}

#[test]
fn propagation_chain_one_hop_per_tick() {
    // A switch driving a chain of three inverters (NAND gates with both
    // inputs on the same pin). Once the switch's own output commits, the
    // last inverter reflects the toggle after exactly three further ticks.
    let mut comps = vec![
        Component::new(Updater::Switch { is_toggled: false }),
        Component::new(Updater::NAND),
        Component::new(Updater::NAND),
        Component::new(Updater::NAND),
    ];
    let mut sim = Simulation::default();
    for g in 1..4 {
        sim.connect(out_pin(g - 1), in_pin(g, 0), &mut comps);
        sim.connect(out_pin(g - 1), in_pin(g, 1), &mut comps);
    }
    for id in 0..4 {
        sim.add_to_queue(id);
    }
    // Settle: low switch, so the chain reads true, false, true.
    for _ in 0..5 {
        sim.tick(&mut comps);
    }
    assert_eq!(comps[3].read_output(0), vec![true]);

    assert!(sim.set_source_state(&mut comps, 0, true));
    sim.tick(&mut comps); // the switch's output commits high
    assert_eq!(comps[0].read_output(0), vec![true]);
    assert_eq!(comps[3].read_output(0), vec![true]);
    sim.tick(&mut comps); // hop 1: first inverter
    assert_eq!(comps[3].read_output(0), vec![true]);
    sim.tick(&mut comps); // hop 2: second inverter
    assert_eq!(comps[3].read_output(0), vec![true]);
    sim.tick(&mut comps); // hop 3: the last inverter reflects the toggle
    assert_eq!(comps[3].read_output(0), vec![false]);
}

#[test]
fn feedback_loop_oscillates_one_hop_per_tick() {
    // Feedback cycles are legal: an inverter wired to itself flips once per
    // tick and keeps itself queued, with no cycle detection needed.
    let mut comps = vec![Component::new(Updater::NAND)];
    let mut sim = Simulation::default();
    sim.connect(out_pin(0), in_pin(0, 0), &mut comps);
    sim.connect(out_pin(0), in_pin(0, 1), &mut comps);
    sim.add_to_queue(0);
    let mut expected = true;
    for _ in 0..4 {
        sim.tick(&mut comps);
        assert_eq!(comps[0].read_output(0), vec![expected]);
        assert!(!sim.queue.is_empty());
        expected = !expected;
    }
}

#[test]
fn fan_in_override_keeps_newest_driver() {
    // Connecting a second driver to a simple input disconnects the first;
    // later ticks reflect only the newest driver.
    let mut comps = vec![
        Component::new(Updater::Constant { state: true }),
        Component::new(Updater::Constant { state: false }),
        Component::new(Updater::Indicator {
            name: "lamp".to_string(),
            is_lit: false,
        }),
    ];
    let mut sim = Simulation::default();
    sim.add_to_queue(0);
    sim.add_to_queue(1);
    sim.tick(&mut comps);

    sim.connect(out_pin(0), in_pin(2, 0), &mut comps);
    sim.tick(&mut comps);
    assert!(indicator_lit(&comps[2]));

    sim.connect(out_pin(1), in_pin(2, 0), &mut comps);
    assert_eq!(comps[2].depends_on, vec![(out_pin(1), 0)]);
    assert!(comps[0].connected_to.is_empty());
    sim.tick(&mut comps);
    assert!(!indicator_lit(&comps[2]));
    sim.tick(&mut comps);
    assert!(!indicator_lit(&comps[2]));
}

#[test]
fn compositor_concatenates_wired_inputs() {
    let mut comps = vec![
        Component::new(Updater::Constant { state: true }),
        Component::new(Updater::Constant { state: false }),
        Component::new(Updater::Compositor),
    ];
    let mut sim = Simulation::default();
    sim.add_to_queue(0);
    sim.add_to_queue(1);
    sim.tick(&mut comps);
    // A Compositor input accepts several drivers side by side.
    sim.connect(out_pin(0), in_pin(2, 0), &mut comps);
    sim.connect(out_pin(1), in_pin(2, 0), &mut comps);
    assert_eq!(comps[2].depends_on.len(), 2);
    sim.tick(&mut comps);
    assert_eq!(comps[2].read_output(0), vec![true, false]);
}

#[test]
fn disconnect_removes_wire_and_requeues() {
    let mut comps = vec![
        Component::new(Updater::Constant { state: true }),
        Component::new(Updater::Indicator {
            name: "lamp".to_string(),
            is_lit: false,
        }),
    ];
    let mut sim = Simulation::default();
    sim.add_to_queue(0);
    sim.tick(&mut comps);
    sim.connect(out_pin(0), in_pin(1, 0), &mut comps);
    sim.tick(&mut comps);
    assert!(indicator_lit(&comps[1]));

    sim.disconnect(out_pin(0), in_pin(1, 0), &mut comps);
    assert!(comps[1].depends_on.is_empty());
    assert!(comps[0].connected_to.is_empty());
    // The driver carried an asserted value, so the target was enqueued and
    // now reads the unwired zero.
    sim.tick(&mut comps);
    assert!(!indicator_lit(&comps[1]));
}

#[test]
fn set_source_state_switch_propagates() {
    let mut comps = vec![
        Component::new(Updater::Switch { is_toggled: false }),
        Component::new(Updater::Indicator {
            name: "lamp".to_string(),
            is_lit: false,
        }),
    ];
    let mut sim = Simulation::default();
    sim.connect(out_pin(0), in_pin(1, 0), &mut comps);
    assert!(sim.set_source_state(&mut comps, 0, true));
    assert_eq!(sim.queue, vec![0]);
    sim.tick(&mut comps); // switch output commits
    sim.tick(&mut comps); // indicator reads it
    assert!(indicator_lit(&comps[1]));
}

#[test]
fn set_source_state_button_is_momentary() {
    let mut comps = vec![Component::new(Updater::Button { is_pressed: false })];
    let mut sim = Simulation::default();
    assert!(sim.set_source_state(&mut comps, 0, true));
    sim.tick(&mut comps);
    assert_eq!(comps[0].read_output(0), vec![true]);
    assert!(sim.set_source_state(&mut comps, 0, false));
    sim.tick(&mut comps);
    assert_eq!(comps[0].read_output(0), vec![false]);
}

#[test]
fn set_source_state_rejects_other_behaviors() {
    let mut comps = vec![Component::new(Updater::NAND)];
    let mut sim = Simulation::default();
    assert!(!sim.set_source_state(&mut comps, 0, true));
    assert!(sim.queue.is_empty());
}

#[test]
fn clock_in_network_follows_its_gate() {
    let mut comps = vec![
        Component::new(Updater::Constant { state: true }),
        Component::new(Updater::Clock {
            clock: Clock::new(1, 2),
        }),
    ];
    let mut sim = Simulation::default();
    sim.connect(out_pin(0), in_pin(1, 0), &mut comps);
    sim.add_to_queue(0);
    sim.add_to_queue(1);
    sim.tick(&mut comps); // gate still reads the pre-tick low constant
    assert_eq!(comps[1].read_output(0), vec![false]);
    sim.tick(&mut comps); // gated: count 1 <= off_period, stays low
    assert_eq!(comps[1].read_output(0), vec![false]);
    sim.tick(&mut comps); // count 2 reaches cycle_length: high, counter wraps
    assert_eq!(comps[1].read_output(0), vec![true]);
    sim.tick(&mut comps);
    assert_eq!(comps[1].read_output(0), vec![false]);
}

#[test]
fn bus_splits_across_the_network() {
    // Two one-bit sources joined by a Compositor into a two-bit bus, split
    // back by a Decompositor into two one-bit buses feeding indicators.
    let mut comps = vec![
        Component::new(Updater::Constant { state: true }),
        Component::new(Updater::Constant { state: false }),
        Component::new(Updater::Compositor),
        Component::new(Updater::Decompositor { split_into: 2 }),
        Component::new(Updater::Indicator {
            name: "high".to_string(),
            is_lit: false,
        }),
        Component::new(Updater::Indicator {
            name: "low".to_string(),
            is_lit: true,
        }),
    ];
    let mut sim = Simulation::default();
    sim.connect(out_pin(0), in_pin(2, 0), &mut comps);
    sim.connect(out_pin(1), in_pin(2, 0), &mut comps);
    sim.connect(out_pin(2), in_pin(3, 0), &mut comps);
    for id in 0..4 {
        sim.add_to_queue(id);
    }
    // Let the bus widths settle before wiring the fixed-width indicators.
    for _ in 0..4 {
        sim.tick(&mut comps);
    }
    assert!(sim.queue.is_empty());
    assert_eq!(comps[2].read_output(0), vec![true, false]);
    assert_eq!(comps[3].read_output(0), vec![true]);
    assert_eq!(comps[3].read_output(1), vec![false]);

    sim.connect(OutPinId { node: 3, output: 0 }, in_pin(4, 0), &mut comps);
    sim.connect(OutPinId { node: 3, output: 1 }, in_pin(5, 0), &mut comps);
    sim.add_to_queue(4);
    sim.add_to_queue(5);
    sim.tick(&mut comps);
    assert!(indicator_lit(&comps[4]));
    assert!(!indicator_lit(&comps[5]));
}

#[test]
fn out_pseudo_node_records_its_input() {
    let mut comps = vec![
        Component::new(Updater::Constant { state: true }),
        Component::new(Updater::Out {
            name: "port".to_string(),
            size: 1,
            port: 0,
            value: Vec::new(),
        }),
    ];
    let mut sim = Simulation::default();
    sim.add_to_queue(0);
    sim.tick(&mut comps);
    sim.connect(out_pin(0), in_pin(1, 0), &mut comps);
    sim.tick(&mut comps);
    match &comps[1].updater {
        Updater::Out { value, .. } => assert_eq!(value, &vec![true]),
        _ => panic!("not an out node"),
    }
}

#[test]
fn in_pseudo_node_holds_written_state() {
    // An In pseudo-node computes nothing: its output is whatever was
    // written into it from outside.
    let mut comps = vec![Component::new(Updater::In {
        name: "port".to_string(),
        size: 2,
        port: 0,
    })];
    comps[0].state = vec![vec![true, false]];
    comps[0].next_state = vec![vec![true, false]];
    let mut sim = Simulation::default();
    sim.add_to_queue(0);
    sim.tick(&mut comps);
    assert_eq!(comps[0].read_output(0), vec![true, false]);
    assert!(sim.queue.is_empty());
}

fn inverter_composite() -> Updater {
    // Internally: an In pseudo-node feeding both pins of a NAND, whose
    // output feeds an Out pseudo-node. One external one-bit port each way.
    let mut inner_in = Component::new(Updater::In {
        name: "a".to_string(),
        size: 1,
        port: 0,
    });
    inner_in.connected_to = vec![1];
    let mut gate = Component::new(Updater::NAND);
    gate.depends_on = vec![
        (OutPinId { node: 0, output: 0 }, 0),
        (OutPinId { node: 0, output: 0 }, 1),
    ];
    gate.connected_to = vec![2];
    let mut inner_out = Component::new(Updater::Out {
        name: "y".to_string(),
        size: 1,
        port: 0,
        value: Vec::new(),
    });
    inner_out.depends_on = vec![(OutPinId { node: 1, output: 0 }, 0)];
    Updater::Composite {
        name: "inverter".to_string(),
        components: vec![inner_in, gate, inner_out],
        queue: vec![0, 1, 2],
        in_ports: vec![(0, 1)],
        out_ports: vec![(2, 1)],
    }
}

#[test]
fn composite_runs_one_internal_tick_per_evaluation() {
    let mut u = inverter_composite();
    let mut output: Vec<Vec<bool>> = vec![vec![false]];
    // Hold the external input low: the inverter goes high one
    // internal tick after the Out-node last looked, so the output appears
    // one evaluation later - one level of propagation delay per tick.
    u.update(&vec![vec![false]], &mut output);
    u.update(&vec![vec![false]], &mut output);
    assert_eq!(output, vec![vec![true]]);
    // Drive the input high: the inverter falls, then the Out-node records it.
    u.update(&vec![vec![true]], &mut output);
    u.update(&vec![vec![true]], &mut output);
    u.update(&vec![vec![true]], &mut output);
    assert_eq!(output, vec![vec![false]]);
}

#[test]
fn composite_in_a_network_inverts_a_switch() {
    let mut comps = vec![
        Component::new(Updater::Switch { is_toggled: false }),
        Component::new(inverter_composite()),
        Component::new(Updater::Indicator {
            name: "lamp".to_string(),
            is_lit: false,
        }),
    ];
    let mut sim = Simulation::default();
    sim.connect(out_pin(0), in_pin(1, 0), &mut comps);
    sim.connect(out_pin(1), in_pin(2, 0), &mut comps);
    for id in 0..3 {
        sim.add_to_queue(id);
    }
    for _ in 0..6 {
        sim.tick(&mut comps);
    }
    // A low switch reads back inverted.
    assert!(indicator_lit(&comps[2]));
    assert!(sim.set_source_state(&mut comps, 0, true));
    for _ in 0..6 {
        sim.tick(&mut comps);
    }
    assert!(!indicator_lit(&comps[2]));
}

#[test]
fn updater_names() {
    assert_eq!(Updater::NAND.name(), "NAND");
    assert_eq!(Updater::Constant { state: false }.name(), "Constant");
    assert_eq!(
        Updater::Clock {
            clock: Clock::new(2, 4)
        }
        .name(),
        "Clock 2/4"
    );
    assert_eq!(
        Updater::Clock {
            clock: Clock::new(100, 205)
        }
        .name(),
        "Clock 100/205"
    );
    assert_eq!(
        Updater::Indicator {
            name: "Very Important".to_string(),
            is_lit: false
        }
        .name(),
        "Indicator \u{ab}Very Important\u{bb}"
    );
    assert_eq!(
        Updater::In {
            name: "a".to_string(),
            size: 1,
            port: 0
        }
        .name(),
        "In \u{ab}a\u{bb}"
    );
    assert_eq!(
        inverter_composite().name(),
        "Composite \u{ab}inverter\u{bb}"
    );
}

#[test]
fn register_bookkeeping_removes_first_match() {
    let mut c = Component::new(Updater::NAND);
    c.register_dependency(out_pin(5), 0);
    c.register_dependency(out_pin(6), 1);
    c.register_undepending(0);
    assert_eq!(c.depends_on, vec![(out_pin(6), 1)]);

    c.register_connection(9);
    c.register_connection(9);
    c.register_disconnection(9);
    assert_eq!(c.connected_to, vec![9]);
}
