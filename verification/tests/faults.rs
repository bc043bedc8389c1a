//! Every fault of the taxonomy, each provoked by an input that triggers it.

use qivol::interp::Interpreter;
use qivol::semantics::Fault;

fn run(src: &str) -> Result<String, Fault> {
    let mut it = Interpreter::new(32, src);
    it.run_code()
}

#[test]
fn index_zero_is_fatal() {
    assert_eq!(run("=[0]\"x\""), Err(Fault::IndexError));
    assert_eq!(run("#<0>"), Err(Fault::IndexError));
}

#[test]
fn index_above_register_count_is_fatal() {
    assert_eq!(run("=[33]\"x\""), Err(Fault::IndexError));
    assert_eq!(run("#<33>"), Err(Fault::IndexError));
    assert_eq!(run("=[1]\"x\"<[#[33]>]<1>"), Err(Fault::IndexError));
}

#[test]
fn unrecognized_sigil_is_fatal() {
    assert_eq!(run("?"), Err(Fault::SyntaxError));
    assert_eq!(run("=[1]\"x\"?"), Err(Fault::SyntaxError));
}

#[test]
fn unrecognized_sigil_in_loop_body_is_fatal() {
    assert_eq!(run("<[?]<1>"), Err(Fault::SyntaxError));
}

#[test]
fn malformed_numeral_is_fatal() {
    assert_eq!(run("=[1a]\"x\""), Err(Fault::MalformedNumber));
    assert_eq!(run("#<1a>"), Err(Fault::MalformedNumber));
    assert_eq!(run("=[1]\"x\"<[#[1]>]<2x>"), Err(Fault::MalformedNumber));
}

#[test]
fn empty_numeral_is_fatal() {
    assert_eq!(run("=[]\"x\""), Err(Fault::MalformedNumber));
    assert_eq!(run("<[#[1]>]<>"), Err(Fault::MalformedNumber));
}

#[test]
fn overflowing_numeral_is_fatal() {
    assert_eq!(
        run("=[1]\"x\"<[#[1]>]<99999999999999999999999999>"),
        Err(Fault::MalformedNumber)
    );
}

#[test]
fn missing_closing_quote_is_fatal() {
    assert_eq!(run("=[1]\"abc"), Err(Fault::SyntaxError));
}

#[test]
fn missing_expected_delimiter_is_fatal() {
    assert_eq!(run("=1]\"x\""), Err(Fault::SyntaxError));
    assert_eq!(run("#1>"), Err(Fault::SyntaxError));
}

#[test]
fn truncated_source_is_fatal() {
    assert_eq!(run("="), Err(Fault::SyntaxError));
    assert_eq!(run("=[1]"), Err(Fault::SyntaxError));
    assert_eq!(run("<[#[1]>]"), Err(Fault::SyntaxError));
    assert_eq!(run("<[#[1]>]<3"), Err(Fault::SyntaxError));
}

#[test]
fn no_partial_write_before_fault() {
    // the faulting instruction has no effect: the run aborts as a whole
    let r = run("=[1]\"a\"#<1>=[0]\"b\"");
    assert_eq!(r, Err(Fault::IndexError));
}
