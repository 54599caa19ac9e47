use evm_tools::evm_trace::{
    comparison_is_defined, contains_bytes, first_divergence, first_undefined_step, is_step_line, step_differences_at, EvmStep,
    StepDifference, U64Hex,
};

fn step(pc: usize, op_name: &str, depth: usize, gas: u64, stack: &[&str]) -> EvmStep {
    EvmStep {
        original: format!("{{\"pc\":{},\"opName\":\"{}\"}}", pc, op_name),
        depth,
        gas: U64Hex(gas),
        op: 0,
        op_name: op_name.to_string(),
        pc,
        stack: stack.iter().map(|s| s.to_string()).collect(),
    }
}

fn trace() -> Vec<EvmStep> {
    vec![
        step(0, "PUSH1", 1, 100, &[]),
        step(2, "PUSH1", 1, 97, &["0x1"]),
        step(4, "ADD", 1, 94, &["0x1", "0x2"]),
    ]
}

#[test]
fn a_trace_agrees_with_itself() {
    let t = trace();
    assert!(comparison_is_defined(&t, &t));
    assert!(first_divergence(&t, &t).is_none());
}

#[test]
fn traces_of_different_lengths_agree_on_the_common_steps() {
    let t = trace();
    let shorter = &t[..2];
    assert!(first_divergence(&t, shorter).is_none());
    assert!(first_divergence(&[], &t).is_none());
}

#[test]
fn first_difference_is_found() {
    let a = trace();
    let mut b = trace();
    b[2].pc = 5;
    b[2].op_name = "MUL".to_string();
    let (n, d) = first_divergence(&a, &b).unwrap();
    assert_eq!(n, 2);
    assert_eq!(d, vec![StepDifference::Pc, StepDifference::Op]);
}

#[test]
fn depth_difference() {
    let a = trace();
    let mut b = trace();
    b[1].depth = 2;
    let (n, d) = first_divergence(&a, &b).unwrap();
    assert_eq!(n, 1);
    assert_eq!(d, vec![StepDifference::Depth]);
}

#[test]
fn gas_difference_reports_gas_used() {
    let a = trace();
    let mut b = trace();
    b[1].gas = U64Hex(90);
    assert!(comparison_is_defined(&a, &b));
    let (n, d) = first_divergence(&a, &b).unwrap();
    assert_eq!(n, 1);
    assert_eq!(d, vec![StepDifference::GasUsed { first_used: 3, second_used: 10, delta: -7 }]);
}

#[test]
fn gas_difference_at_the_first_step_cannot_be_compared() {
    let a = trace();
    let mut b = trace();
    b[0].gas = U64Hex(99);
    assert!(!comparison_is_defined(&a, &b));
}

#[test]
fn gas_above_the_previous_step_cannot_be_compared() {
    let a = trace();
    let mut b = trace();
    b[1].gas = U64Hex(101);
    assert!(!comparison_is_defined(&a, &b));
}

#[test]
fn stack_differences_by_position() {
    let a = trace();
    let mut b = trace();
    b[2].stack = vec!["0x1".to_string(), "0x3".to_string(), "0x4".to_string()];
    let d = step_differences_at(&a, &b, 2);
    assert_eq!(
        d,
        vec![
            StepDifference::Stack { index: 1, in_first: true, in_second: true },
            StepDifference::Stack { index: 2, in_first: false, in_second: true },
        ]
    );
    let d = step_differences_at(&b, &a, 2);
    assert_eq!(d[1], StepDifference::Stack { index: 2, in_first: true, in_second: false });
}

#[test]
fn all_kinds_of_difference_in_order() {
    let a = trace();
    let mut b = trace();
    b[2] = step(6, "SUB", 2, 90, &["0x9"]);
    let d = step_differences_at(&a, &b, 2);
    assert_eq!(
        d,
        vec![
            StepDifference::Pc,
            StepDifference::Op,
            StepDifference::Depth,
            StepDifference::GasUsed { first_used: 3, second_used: 7, delta: -4 },
            StepDifference::Stack { index: 0, in_first: true, in_second: true },
            StepDifference::Stack { index: 1, in_first: true, in_second: false },
        ]
    );
}

#[test]
fn step_lines_mention_op_name() {
    assert!(is_step_line("{\"pc\":0,\"op\":96,\"gas\":\"0x5f5e100\",\"opName\":\"PUSH1\"}"));
    assert!(!is_step_line("{\"output\":\"\",\"gasUsed\":\"0x3\"}"));
    assert!(!is_step_line("opNam"));
    assert!(is_step_line("opName"));
}

#[test]
fn byte_search() {
    assert!(contains_bytes(b"abcabd", b"abd"));
    assert!(!contains_bytes(b"abcab", b"abd"));
    assert!(contains_bytes(b"abc", b""));
    assert!(!contains_bytes(b"", b"a"));
}

#[test]
fn where_the_comparison_cannot_be_made() {
    let a = trace();
    assert_eq!(first_undefined_step(&a, &a), None);
    let mut b = trace();
    b[2].gas = U64Hex(200);
    assert_eq!(first_undefined_step(&a, &b), Some(2));
    let mut c = trace();
    c[0].gas = U64Hex(1);
    assert_eq!(first_undefined_step(&a, &c), Some(0));
    let mut d = trace();
    d[1].pc = 9;
    d[2].gas = U64Hex(200);
    assert_eq!(first_undefined_step(&a, &d), None);
}
