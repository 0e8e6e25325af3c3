use circuits::flip_ranks;
use circuits::get_bit;
use circuits::set_bit;
use circuits::Circuit;

#[test]
fn test_full_adder() {
    let mut circuit = Circuit::new();
    let a = circuit.add_input();
    let b = circuit.add_input();
    let c_in = circuit.add_input();

    // S = A ⊕ B ⊕ Cin
    // Cout = (A ⋅ B) + (Cin ⋅ (A ⊕ B)).
    let (s, c_out) = circuit.full_adder(a, b, c_in);
    let s = circuit.add_output(s);
    let c_out = circuit.add_output(c_out);

    let order = circuit.update_order();

    for a_ in [false, true].iter() {
        for b_ in [false, true].iter() {
            for c_in_ in [false, true].iter() {
                let (a_, b_, c_in_) = (*a_, *b_, *c_in_);
                circuit.set_input(a, a_);
                circuit.set_input(b, b_);
                circuit.set_input(c_in, c_in_);
                for _ in 0..32 {
                    circuit.update_signals_once(&order);
                }
                assert_eq!(circuit.get_1_in(s), a_ ^ b_ ^ c_in_);
                assert_eq!(circuit.get_1_in(c_out), (a_ & b_) | (c_in_ & (a_ ^ b_)));
            }
        }
    }
}

#[test]
fn test_ripple_carry() {
    let mut circuit = Circuit::new();
    let n: usize = 4;
    let a = (0..n)
        .into_iter()
        .map(|_| circuit.add_input())
        .collect::<Vec<_>>();
    let b = (0..n)
        .into_iter()
        .map(|_| circuit.add_input())
        .collect::<Vec<_>>();
    let (s, c) = circuit.ripple_carry(&a, &b);
    let _c = circuit.add_output(c);
    let s = s
        .into_iter()
        .map(|si| circuit.add_output(si))
        .collect::<Vec<_>>();

    let ranks = circuit.ranks();
    let steps = flip_ranks(&ranks).len() + 1;

    let order = circuit.update_order();

    for a_ in 0..(2usize).pow(n as u32) {
        for b_ in 0..(2usize).pow(n as u32) {
            for i in 0..n {
                circuit.set_input(a[i], get_bit(a_, i));
                circuit.set_input(b[i], get_bit(b_, i));
            }
            for _ in 0..steps {
                circuit.update_signals_once(&order);
            }
            let (s_, _) = a_.overflowing_add(b_);
            let s_ = (s_ << (64 - n)) >> (64 - n);
            let mut s__: usize = 0;
            for i in 0..n {
                s__ = set_bit(s__, i, circuit.get_1_in(s[i]));
            }
            assert_eq!(
                s__, s_,
                "{:0b} + {:0b} = {:0b} [correct: {:0b}]",
                a_, b_, s__, s_
            );
        }
    }
}

#[test]
fn test_half_adder_truth_table() {
    let mut circuit = Circuit::new();
    let a = circuit.add_input();
    let b = circuit.add_input();
    let (s, c) = circuit.half_adder(a, b);
    let s = circuit.add_output(s);
    let c = circuit.add_output(c);

    let order = circuit.update_order();

    for a_ in [false, true].iter() {
        for b_ in [false, true].iter() {
            let (a_, b_) = (*a_, *b_);
            circuit.set_input(a, a_);
            circuit.set_input(b, b_);
            for _ in 0..8 {
                circuit.update_signals_once(&order);
            }
            assert_eq!(circuit.get_1_in(s), a_ ^ b_);
            assert_eq!(circuit.get_1_in(c), a_ & b_);
        }
    }
}

#[test]
fn test_ripple_carry_carry_out() {
    let mut circuit = Circuit::new();
    let n: usize = 3;
    let a = (0..n)
        .into_iter()
        .map(|_| circuit.add_input())
        .collect::<Vec<_>>();
    let b = (0..n)
        .into_iter()
        .map(|_| circuit.add_input())
        .collect::<Vec<_>>();
    let (s, c) = circuit.ripple_carry(&a, &b);
    let c = circuit.add_output(c);
    let s = s
        .into_iter()
        .map(|si| circuit.add_output(si))
        .collect::<Vec<_>>();

    let order = circuit.update_order();

    // 7 + 5 = 12: sum bits 100, carry out set.
    for i in 0..n {
        circuit.set_input(a[i], get_bit(7, i));
        circuit.set_input(b[i], get_bit(5, i));
    }
    for _ in 0..16 {
        circuit.update_signals_once(&order);
    }
    let mut total: usize = 0;
    for i in 0..n {
        total = set_bit(total, i, circuit.get_1_in(s[i]));
    }
    total = set_bit(total, n, circuit.get_1_in(c));
    assert_eq!(total, 12);
}
