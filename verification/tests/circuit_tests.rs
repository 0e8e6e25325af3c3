use circuits::flip_ranks;
use circuits::Circuit;

#[test]
fn test_simple_circuit() {
    let mut circuit = Circuit::new();
    let a = circuit.add_input();
    let b = circuit.add_input();
    let x = circuit.add_xor(a, b);
    let out = circuit.add_output(x);
    circuit.set_input(a, true);

    let order = circuit.update_order();
    for _ in 0..5 {
        circuit.update_signals_once(&order);
    }

    assert_eq!(circuit.get_1_in(out), true);

    let ranks = circuit.ranks();

    let flipped = flip_ranks(&ranks);
    assert_eq!(&flipped[0], &[Circuit::meta_input()]);
    assert_eq!(&flipped[1], &[a, b]);
    assert_eq!(&flipped[2], &[x]);
    assert_eq!(&flipped[3], &[out]);
}

#[test]
fn test_xor_scenario() {
    let mut circuit = Circuit::new();
    let first = circuit.add_input();
    let second = circuit.add_input();
    let x = circuit.add_xor(first, second);
    let out = circuit.add_output(x);

    let order = circuit.update_order();

    circuit.set_input(first, true);
    circuit.set_input(second, false);
    let ranks = circuit.ranks();
    let settle = flip_ranks(&ranks).len() + 1;
    for _ in 0..settle {
        circuit.update_signals_once(&order);
    }
    assert_eq!(circuit.get_1_in(out), true);

    circuit.set_input(first, true);
    circuit.set_input(second, true);
    for _ in 0..settle {
        circuit.update_signals_once(&order);
    }
    assert_eq!(circuit.get_1_in(out), false);
}

#[test]
fn test_not_gate() {
    let mut circuit = Circuit::new();
    let a = circuit.add_input();
    let n = circuit.add_not(a);
    let out = circuit.add_output(n);

    let order = circuit.update_order();
    for _ in 0..4 {
        circuit.update_signals_once(&order);
    }
    assert_eq!(circuit.get_1_in(out), true);

    circuit.set_input(a, true);
    for _ in 0..4 {
        circuit.update_signals_once(&order);
    }
    assert_eq!(circuit.get_1_in(out), false);
}

#[test]
fn test_meta_input_handle() {
    assert_eq!(Circuit::meta_input(), 0);
    let mut circuit = Circuit::new();
    let a = circuit.add_input();
    assert_eq!(a, 1);
    assert_eq!(circuit.get_1_in(a), false);
}

#[test]
fn test_check_invariants() {
    let mut circuit = Circuit::new();
    assert!(circuit.check_invariants());
    let a = circuit.add_input();
    let b = circuit.add_input();
    let o = circuit.add_or(a, b);
    circuit.add_output(o);
    assert!(circuit.check_invariants());
}

#[test]
fn test_update_order_is_creation_order() {
    let mut circuit = Circuit::new();
    let a = circuit.add_input();
    let b = circuit.add_input();
    let x = circuit.add_and(a, b);
    circuit.add_output(x);
    let order = circuit.update_order();
    assert_eq!(order, vec![0, 1, 2, 3, 4]);
}

#[test]
fn test_extra_passes_change_nothing() {
    let mut circuit = Circuit::new();
    let a = circuit.add_input();
    let b = circuit.add_input();
    let x = circuit.add_or(a, b);
    let n = circuit.add_not(x);
    let out = circuit.add_output(n);
    let order = circuit.update_order();

    circuit.set_input(a, true);
    circuit.update_signals_once(&order);
    let after_one = circuit.get_1_in(out);
    for _ in 0..10 {
        circuit.update_signals_once(&order);
    }
    assert_eq!(circuit.get_1_in(out), after_one);
    assert_eq!(after_one, false);
}

#[test]
fn test_ranks_longest_path() {
    let mut circuit = Circuit::new();
    let a = circuit.add_input();
    let b = circuit.add_input();
    let x = circuit.add_xor(a, b);
    // The And gate reads one short path (from `a`) and one long path
    // (through the Xor), so its rank must follow the longer one.
    let y = circuit.add_and(a, x);
    let out = circuit.add_output(y);
    let ranks = circuit.ranks();
    assert_eq!(ranks[Circuit::meta_input()], 0);
    assert_eq!(ranks[a], 1);
    assert_eq!(ranks[b], 1);
    assert_eq!(ranks[x], 2);
    assert_eq!(ranks[y], 3);
    assert_eq!(ranks[out], 4);
}

#[test]
fn test_flip_ranks_single() {
    let ranks = vec![0u32];
    let layers = flip_ranks(&ranks);
    assert_eq!(layers.len(), 1);
    assert_eq!(layers[0], vec![0]);
}

#[test]
fn test_flip_ranks_orders_within_layer() {
    let ranks = vec![0u32, 2, 1, 2, 1];
    let layers = flip_ranks(&ranks);
    assert_eq!(layers.len(), 3);
    assert_eq!(layers[0], vec![0]);
    assert_eq!(layers[1], vec![2, 4]);
    assert_eq!(layers[2], vec![1, 3]);
}
