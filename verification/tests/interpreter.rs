use stack_lang::eval::RuntimeError;
use stack_lang::io::Io;
use stack_lang::parser::{ParseError, Program};

fn run(source: &str) -> Vec<u8> {
    let program = Program::parse(source).unwrap();
    let mut io = Io::new();
    program.interpret(&mut io).unwrap();
    io.bytes().clone()
}

fn run_error(source: &str) -> RuntimeError {
    let program = Program::parse(source).unwrap();
    let mut io = Io::new();
    program.interpret(&mut io).unwrap_err()
}

#[test]
fn test_interpreter() {
    let program = Program::parse(
        r#"
        fn main {
            69 putu
            10 putc
        }
        "#,
    )
    .unwrap();
    let mut io = Io::new();
    program.interpret(&mut io).unwrap();
    assert_eq!(io.bytes().as_slice(), "69\n".as_bytes());
}

#[test]
fn interpreter_parse_and_run_twice_agree() {
    let source = "fn main { 1 2 + putu 10 putc } ";
    let first = run(source);
    let second = run(source);
    assert_eq!(first, second);
    assert_eq!(first, "3\n".as_bytes().to_vec());
}

#[test]
fn interpreter_loop_break_runs_once() {
    assert_eq!(run("fn main { loop { 1 break } putu } "), "1".as_bytes().to_vec());
}

#[test]
fn interpreter_loop_continue_and_break() {
    let out = run("fn main { 0 loop { 1 + dup 3 < if { continue } dup putu dup 5 = if { break } } drop } ");
    assert_eq!(out, "345".as_bytes().to_vec());
}

#[test]
fn interpreter_while_false_condition_skips_body() {
    assert_eq!(run("fn main { 10 while { 0 } { 11 putu } putu } "), "10".as_bytes().to_vec());
}

#[test]
fn interpreter_while_counts_down() {
    assert_eq!(run("fn main { 3 while { dup } { dup putu 1 - } drop } "), "321".as_bytes().to_vec());
}

#[test]
fn interpreter_let_pops_in_declaration_order() {
    // Stack [1, 2] with 2 on top: `a` takes 2, `b` takes 1; the body pushes
    // a then b, so the output pops b (1) first, then a (2).
    assert_eq!(run("fn main { 1 2 let a b { a b } putu putu } "), "12".as_bytes().to_vec());
}

#[test]
fn interpreter_let_shadowing_keeps_parent_visible() {
    let out = run("fn main { 7 8 9 let a { let a b { a putu b putu } a putu } } ");
    // Outer let binds a = 9; inner binds a = 8 (shadowing) and b = 7;
    // after the inner block the outer binding is visible again.
    assert_eq!(out, "879".as_bytes().to_vec());
}

#[test]
fn interpreter_if_else_branches() {
    let out = run("fn main { 1 if { 7 putu } else { 8 putu } 0 if { 7 putu } else { 8 putu } } ");
    assert_eq!(out, "78".as_bytes().to_vec());
}

#[test]
fn interpreter_if_without_else_on_zero_does_nothing() {
    assert_eq!(run("fn main { 0 if { 7 putu } 9 putu } "), "9".as_bytes().to_vec());
}

#[test]
fn interpreter_comparisons_push_one_or_zero() {
    let out = run("fn main { 1 2 < putu 1 2 > putu 4 4 = putu } ");
    assert_eq!(out, "101".as_bytes().to_vec());
}

#[test]
fn interpreter_arithmetic_left_operand_is_popped_second() {
    let out = run("fn main { 7 2 - putu 32 putc 3 4 * putu } ");
    assert_eq!(out, "5 12".as_bytes().to_vec());
}

#[test]
fn interpreter_stack_words() {
    assert_eq!(run("fn main { 1 2 dup putu putu putu } "), "221".as_bytes().to_vec());
    assert_eq!(run("fn main { 1 2 swap putu putu } "), "12".as_bytes().to_vec());
    assert_eq!(run("fn main { 1 2 over putu putu putu } "), "121".as_bytes().to_vec());
    assert_eq!(run("fn main { 1 2 3 rot putu putu putu } "), "132".as_bytes().to_vec());
    assert_eq!(run("fn main { 1 2 drop putu } "), "1".as_bytes().to_vec());
}

#[test]
fn interpreter_function_calls_share_the_stack() {
    let out = run("fn double { dup + } fn main { 21 double putu } ");
    assert_eq!(out, "42".as_bytes().to_vec());
}

#[test]
fn interpreter_redefined_function_overwrites() {
    assert_eq!(run("fn main { 1 putu } fn main { 2 putu } "), "2".as_bytes().to_vec());
}

#[test]
fn interpreter_string_literal_stores_utf8_and_nul() {
    // "hé" occupies bytes 104, 195, 169, 0; the literal pushes address 0.
    let out = run("fn main { \"h\u{e9}\" putu 32 putc 1 <- putu 32 putc 2 <- putu 32 putc 3 <- putu } ");
    assert_eq!(out, "0 195 169 0".as_bytes().to_vec());
}

#[test]
fn interpreter_store_and_load_byte() {
    let out = run("fn main { \"A\" dup 66 -> <- putu } ");
    assert_eq!(out, "66".as_bytes().to_vec());
}

#[test]
fn interpreter_alloc_and_free_reuse_address() {
    let out = run("fn main { 4 alloc putu 32 putc 0 4 free 2 alloc putu } ");
    assert_eq!(out, "0 0".as_bytes().to_vec());
}

#[test]
fn interpreter_putc_encodes_non_ascii_as_utf8() {
    assert_eq!(run("fn main { 955 putc } "), vec![0xCE, 0xBB]);
}

#[test]
fn interpreter_putu_zero_and_max() {
    assert_eq!(run("fn main { 0 putu } "), "0".as_bytes().to_vec());
    assert_eq!(
        run("fn main { 18446744073709551615 putu } "),
        "18446744073709551615".as_bytes().to_vec()
    );
}

#[test]
fn interpreter_plus_prefixed_number() {
    assert_eq!(run("fn main { +5 putu } "), "5".as_bytes().to_vec());
}

#[test]
fn interpreter_debug_dumps_stack_memory_and_free_list() {
    let out = run("fn main { 5 ??? drop } ");
    assert_eq!(out, "[5] [] [(0, 18446744073709551615)]\n".as_bytes().to_vec());
}

#[test]
fn parse_rejects_unknown_top_level_symbol() {
    assert_eq!(Program::parse("bogus ").unwrap_err(), ParseError::UnexpectedTopLevelSymbol);
}

#[test]
fn parse_rejects_truncated_definition() {
    assert_eq!(Program::parse("fn main ").unwrap_err(), ParseError::UnexpectedEndOfFile);
}

#[test]
fn parse_rejects_missing_open_brace() {
    assert_eq!(Program::parse("fn main x ").unwrap_err(), ParseError::ExpectedOpenBrace);
    assert_eq!(
        Program::parse("fn main { while x ").unwrap_err(),
        ParseError::ExpectedOpenBrace
    );
}

#[test]
fn parse_rejects_truncated_nested_block() {
    assert_eq!(Program::parse("fn main { if { ").unwrap_err(), ParseError::UnexpectedEndOfFile);
    assert_eq!(Program::parse("fn main { let a ").unwrap_err(), ParseError::UnexpectedEndOfFile);
}

#[test]
fn parse_rejects_unknown_token() {
    assert_eq!(Program::parse("fn main { bogus } ").unwrap_err(), ParseError::UnknownToken);
    // A number too large for a machine word is no number token.
    assert_eq!(
        Program::parse("fn main { 18446744073709551616 } ").unwrap_err(),
        ParseError::UnknownToken
    );
}

#[test]
fn parse_accepts_end_of_input_as_top_level_block_end() {
    // The function body's closing brace may be missing at the very end.
    assert_eq!(run("fn main { 4 putu "), "4".as_bytes().to_vec());
}

#[test]
fn run_without_main_fails() {
    assert_eq!(run_error("fn helper { } "), RuntimeError::MissingMain);
    let empty = Program::parse("").unwrap();
    let mut io = Io::new();
    assert_eq!(empty.interpret(&mut io).unwrap_err(), RuntimeError::MissingMain);
}

#[test]
fn run_reports_stack_underflow() {
    assert_eq!(run_error("fn main { + } "), RuntimeError::StackUnderflow);
    assert_eq!(run_error("fn main { drop } "), RuntimeError::StackUnderflow);
}

#[test]
fn run_reports_arithmetic_overflow() {
    assert_eq!(run_error("fn main { 0 1 - } "), RuntimeError::ArithmeticOverflow);
    assert_eq!(
        run_error("fn main { 18446744073709551615 2 * } "),
        RuntimeError::ArithmeticOverflow
    );
}

#[test]
fn run_reports_bad_address() {
    assert_eq!(run_error("fn main { 100 <- } "), RuntimeError::BadAddress);
    assert_eq!(run_error("fn main { 100 7 -> } "), RuntimeError::BadAddress);
}

#[test]
fn run_reports_invalid_free() {
    assert_eq!(run_error("fn main { 0 1 free } "), RuntimeError::InvalidFree);
    assert_eq!(run_error("fn main { \"ab\" 0 free } "), RuntimeError::InvalidFree);
}

#[test]
fn run_reports_invalid_char() {
    // 55296 is a surrogate code point, no Unicode scalar value.
    assert_eq!(run_error("fn main { 55296 putc } "), RuntimeError::InvalidChar);
}
