use logic_gates::operations::{
    add_func, and_func, lamp_func, nand_func, not_func, or_func, switch_lamp_func, xor_func, BoolFn,
};

const PAIRS: [[bool; 2]; 4] = [[false, false], [false, true], [true, false], [true, true]];

#[test]
fn switch_lamp_func_passes_first_input() {
    assert_eq!(switch_lamp_func(&[true]), vec![true]);
    assert_eq!(switch_lamp_func(&[false]), vec![false]);
    assert_eq!(switch_lamp_func(&[false, true, true]), vec![false]);
}

#[test]
fn and_func_truth_table() {
    let expected = [false, false, false, true];
    for (inputs, want) in PAIRS.iter().zip(expected) {
        assert_eq!(and_func(inputs), vec![want]);
    }
    assert_eq!(and_func(&[true, true, true, false]), vec![false]);
    assert_eq!(and_func(&[true, true, true, true]), vec![true]);
}

#[test]
fn or_func_truth_table() {
    let expected = [false, true, true, true];
    for (inputs, want) in PAIRS.iter().zip(expected) {
        assert_eq!(or_func(inputs), vec![want]);
    }
    assert_eq!(or_func(&[false, false, false, true]), vec![true]);
}

#[test]
fn not_func_is_true_only_when_all_inputs_are_low() {
    assert_eq!(not_func(&[false]), vec![true]);
    assert_eq!(not_func(&[true]), vec![false]);
    let expected = [true, false, false, false];
    for (inputs, want) in PAIRS.iter().zip(expected) {
        assert_eq!(not_func(inputs), vec![want]);
    }
}

#[test]
fn nand_func_truth_table() {
    let expected = [true, true, true, false];
    for (inputs, want) in PAIRS.iter().zip(expected) {
        assert_eq!(nand_func(inputs), vec![want]);
    }
}

#[test]
fn xor_func_is_true_when_inputs_disagree() {
    let expected = [false, true, true, false];
    for (inputs, want) in PAIRS.iter().zip(expected) {
        assert_eq!(xor_func(inputs), vec![want]);
    }
    assert_eq!(xor_func(&[true, true, false]), vec![true]);
    assert_eq!(xor_func(&[true, true, true]), vec![false]);
    assert_eq!(xor_func(&[false, false, false]), vec![false]);
}

#[test]
fn functions_on_no_inputs() {
    assert_eq!(and_func(&[]), vec![true]);
    assert_eq!(or_func(&[]), vec![false]);
    assert_eq!(not_func(&[]), vec![true]);
    assert_eq!(nand_func(&[]), vec![false]);
    assert_eq!(xor_func(&[]), vec![false]);
    assert_eq!(lamp_func(&[]), Vec::<bool>::new());
}

#[test]
fn lamp_func_has_no_outputs() {
    assert_eq!(lamp_func(&[true]), Vec::<bool>::new());
    assert_eq!(lamp_func(&[false]), Vec::<bool>::new());
}

#[test]
fn add_func_is_a_full_adder() {
    for a in [false, true] {
        for b in [false, true] {
            for carry_in in [false, true] {
                let total = a as u8 + b as u8 + carry_in as u8;
                assert_eq!(
                    add_func(&[a, b, carry_in]),
                    vec![total % 2 == 1, total >= 2],
                    "{a} + {b} + {carry_in}"
                );
            }
        }
    }
    assert_eq!(add_func(&[true, true, false]), vec![false, true]);
    assert_eq!(add_func(&[true, true, true]), vec![true, true]);
    assert_eq!(add_func(&[true, false, false]), vec![true, false]);
}

#[test]
fn bool_fn_eval_applies_its_function() {
    assert_eq!(BoolFn::Switch.eval(&[true]), vec![true]);
    assert_eq!(BoolFn::And.eval(&[true, false]), vec![false]);
    assert_eq!(BoolFn::Or.eval(&[true, false]), vec![true]);
    assert_eq!(BoolFn::Not.eval(&[false]), vec![true]);
    assert_eq!(BoolFn::Nand.eval(&[true, true]), vec![false]);
    assert_eq!(BoolFn::Xor.eval(&[true, false]), vec![true]);
    assert_eq!(BoolFn::Lamp.eval(&[true]), Vec::<bool>::new());
    assert_eq!(BoolFn::Adder.eval(&[true, false, true]), vec![false, true]);
}

#[test]
fn bool_fn_output_and_input_counts() {
    let all = [
        BoolFn::Switch,
        BoolFn::And,
        BoolFn::Or,
        BoolFn::Not,
        BoolFn::Nand,
        BoolFn::Xor,
        BoolFn::Lamp,
        BoolFn::Adder,
    ];
    let outputs = [1, 1, 1, 1, 1, 1, 0, 2];
    let least = [1, 0, 0, 0, 0, 0, 0, 3];
    for ((func, outs), ins) in all.iter().zip(outputs).zip(least) {
        assert_eq!(func.outputs(), outs);
        assert_eq!(func.min_inputs(), ins);
        assert_eq!(func.eval(&[true, false, true]).len(), outs);
    }
}

#[test]
fn evaluation_gives_the_same_result_every_time() {
    let all = [
        BoolFn::Switch,
        BoolFn::And,
        BoolFn::Or,
        BoolFn::Not,
        BoolFn::Nand,
        BoolFn::Xor,
        BoolFn::Lamp,
        BoolFn::Adder,
    ];
    for func in all {
        for bits in 0u8..8 {
            let inputs = [bits & 1 != 0, bits & 2 != 0, bits & 4 != 0];
            let before = inputs;
            let first = func.eval(&inputs);
            let second = func.eval(&inputs);
            assert_eq!(first, second);
            assert_eq!(inputs, before);
        }
    }
}
