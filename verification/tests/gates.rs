use kogic::components::{Clock, AND, NAND, NOR, OR, XNOR, XOR};

#[test]
fn nand_truth_table() {
    assert_eq!(NAND.update(&[false, false]), vec![true]);
    assert_eq!(NAND.update(&[false, true]), vec![true]);
    assert_eq!(NAND.update(&[true, false]), vec![true]);
    assert_eq!(NAND.update(&[true, true]), vec![false]);
}

#[test]
fn and_truth_table() {
    assert_eq!(AND.update(&[false, false]), vec![false]);
    assert_eq!(AND.update(&[false, true]), vec![false]);
    assert_eq!(AND.update(&[true, false]), vec![false]);
    assert_eq!(AND.update(&[true, true]), vec![true]);
}

#[test]
fn or_truth_table() {
    assert_eq!(OR.update(&[false, false]), vec![false]);
    assert_eq!(OR.update(&[false, true]), vec![true]);
    assert_eq!(OR.update(&[true, false]), vec![true]);
    assert_eq!(OR.update(&[true, true]), vec![true]);
}

#[test]
fn xor_truth_table() {
    assert_eq!(XOR.update(&[false, false]), vec![false]);
    assert_eq!(XOR.update(&[false, true]), vec![true]);
    assert_eq!(XOR.update(&[true, false]), vec![true]);
    assert_eq!(XOR.update(&[true, true]), vec![false]);
}

#[test]
fn nor_truth_table() {
    assert_eq!(NOR.update(&[false, false]), vec![true]);
    assert_eq!(NOR.update(&[false, true]), vec![false]);
    assert_eq!(NOR.update(&[true, false]), vec![false]);
    assert_eq!(NOR.update(&[true, true]), vec![false]);
}

#[test]
fn xnor_truth_table() {
    assert_eq!(XNOR.update(&[false, false]), vec![true]);
    assert_eq!(XNOR.update(&[false, true]), vec![false]);
    assert_eq!(XNOR.update(&[true, false]), vec![false]);
    assert_eq!(XNOR.update(&[true, true]), vec![true]);
}

#[test]
fn clock_new_starts_at_zero() {
    let c = Clock::new(2, 4);
    assert_eq!(c.off_period, 2);
    assert_eq!(c.cycle_length, 4);
    assert_eq!(c.state, 0);
}

#[test]
fn clock_gating_sequence() {
    // off_period 2, cycle_length 4, gate held high: two low steps then two
    // high steps, repeating.
    let mut c = Clock::new(2, 4);
    let mut outputs: Vec<bool> = Vec::new();
    for _ in 0..8 {
        outputs.push(c.step(true).unwrap());
    }
    assert_eq!(
        outputs,
        vec![false, false, true, true, false, false, true, true]
    );
}

#[test]
fn clock_gate_low_freezes() {
    let mut c = Clock::new(1, 2);
    assert_eq!(c.step(true), Some(false));
    // While the gating input is low, neither the counter nor the output moves.
    assert_eq!(c.step(false), None);
    assert_eq!(c.step(false), None);
    // The next gated step continues where the counter stood.
    assert_eq!(c.step(true), Some(true));
}
