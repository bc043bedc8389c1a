//! End-to-end runs of the interpreter over whole programs.

use qivol::interp::Interpreter;
use qivol::semantics::Fault;

fn run(src: &str) -> Result<String, Fault> {
    let mut it = Interpreter::new(32, src);
    it.run_code()
}

#[test]
fn empty_program_prints_nothing() {
    assert_eq!(run("").unwrap(), "");
}

#[test]
fn assign_then_read() {
    assert_eq!(run("=[1]\"hello\"#<1>").unwrap(), "hello");
}

#[test]
fn unassigned_register_reads_empty() {
    assert_eq!(run("#<1>").unwrap(), "");
    assert_eq!(run("#<32>").unwrap(), "");
}

#[test]
fn last_assignment_wins() {
    assert_eq!(run("=[1]\"a\"=[1]\"b\"#<1>").unwrap(), "b");
}

#[test]
fn registers_are_independent() {
    assert_eq!(run("=[1]\"a\"=[2]\"b\"=[32]\"c\"#<2>#<1>#<32>").unwrap(), "bac");
}

#[test]
fn output_order_follows_instructions() {
    assert_eq!(run("=[1]\"x\"#<1>=[1]\"y\"#<1>").unwrap(), "xy");
}

#[test]
fn multi_digit_index_works() {
    assert_eq!(run("=[10]\"ten\"#<10>").unwrap(), "ten");
}

#[test]
fn empty_payload_assigns_empty() {
    assert_eq!(run("=[1]\"x\"=[1]\"\"#<1>").unwrap(), "");
}

#[test]
fn loop_zero_prints_nothing() {
    assert_eq!(run("=[1]\"x\"<[#[1]>]<0>").unwrap(), "");
}

#[test]
fn loop_literal_count_repeats() {
    assert_eq!(run("=[1]\"ab\"<[#[1]>]<3>").unwrap(), "ababab");
}

#[test]
fn loop_bracketed_count_matches_literal() {
    let lit = run("=[1]\"ab\"<[#[1]>]<3>").unwrap();
    let br = run("=[1]\"ab\"<[#[1]>]<[3]>").unwrap();
    assert_eq!(br, lit);
    assert_eq!(br, "ababab");
}

#[test]
fn loop_count_multi_digit() {
    assert_eq!(run("=[1]\"z\"<[#[1]>]<10>").unwrap(), "zzzzzzzzzz");
}

#[test]
fn loop_body_last_read_wins() {
    assert_eq!(run("=[1]\"a\"=[2]\"b\"<[#[1]>#[2]>]<2>").unwrap(), "bb");
}

#[test]
fn multi_read_body_counts_agree() {
    let lit = run("=[1]\"a\"=[2]\"b\"<[#[1]>#[2]>]<2>").unwrap();
    let br = run("=[1]\"a\"=[2]\"b\"<[#[1]>#[2]>]<[2]>").unwrap();
    assert_eq!(br, lit);
    assert_eq!(br, "bb");
}

#[test]
fn empty_loop_body_prints_nothing() {
    assert_eq!(run("<[]<5>").unwrap(), "");
}
