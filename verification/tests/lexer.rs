use stack_lang::lexer::Tokens;

#[test]
fn test_next_token() {
    let string = r#"
        //test
        fn main {
            hello
            "test string"
        }
    "#;
    let code = &mut Tokens::new(string);
    assert_eq!(code.next(), Some(String::from("fn")));
    assert_eq!(code.next(), Some(String::from("main")));
    assert_eq!(code.next(), Some(String::from("{")));
    assert_eq!(code.next(), Some(String::from("hello")));
    assert_eq!(code.next(), Some(String::from("\"test string\"")));
    assert_eq!(code.next(), Some(String::from("}")));
    assert_eq!(code.next(), None);
}

#[test]
fn lexer_comment_and_string_sequence() {
    let mut code = Tokens::new("//test\nfn main {\n hello\n \"test string\"\n}\n");
    assert_eq!(code.next(), Some(String::from("fn")));
    assert_eq!(code.next(), Some(String::from("main")));
    assert_eq!(code.next(), Some(String::from("{")));
    assert_eq!(code.next(), Some(String::from("hello")));
    assert_eq!(code.next(), Some(String::from("\"test string\"")));
    assert_eq!(code.next(), Some(String::from("}")));
    assert_eq!(code.next(), None);
}

#[test]
fn lexer_comment_rolls_back_two_characters() {
    // The two comment characters are removed from the accumulation in
    // progress; the rest stays and continues after the comment.
    let mut code = Tokens::new("ab//tail\ncd ");
    assert_eq!(code.next(), Some(String::from("abcd")));
    assert_eq!(code.next(), None);
}

#[test]
fn lexer_unterminated_string_yields_no_token() {
    let mut code = Tokens::new("\"never closed");
    assert_eq!(code.next(), None);
}

#[test]
fn lexer_discards_token_pending_at_end_of_input() {
    // A token is only emitted at a separator; end of input drops it.
    let mut code = Tokens::new("abc def");
    assert_eq!(code.next(), Some(String::from("abc")));
    assert_eq!(code.next(), None);
}
