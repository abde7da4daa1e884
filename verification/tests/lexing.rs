use pr0wser::tokenizer::{PrintableToken, Token, Tokenizer};

fn word(t: &Token) -> Vec<u8> {
    match t {
        Token::STRING(s) => s.clone(),
        _ => panic!("expected a string token"),
    }
}

fn number(t: &Token) -> i32 {
    match t {
        Token::NUMBER(n) => *n,
        _ => panic!("expected a number token"),
    }
}

#[test]
fn starts_at_eof() {
    let input = b"hello".to_vec();
    let t = Tokenizer::new(&input);
    assert!(matches!(t.t, Token::EOF));
}

#[test]
fn scans_words_numbers_symbols() {
    let input = b"abc 42 : { }".to_vec();
    let mut t = Tokenizer::new(&input);
    t.next().ok().unwrap();
    assert_eq!(word(&t.t), b"abc".to_vec());
    t.next().ok().unwrap();
    assert_eq!(number(&t.t), 42);
    t.next().ok().unwrap();
    assert!(matches!(t.t, Token::CHAR(b':')));
    t.next().ok().unwrap();
    assert!(matches!(t.t, Token::CHAR(b'{')));
    t.next().ok().unwrap();
    assert!(matches!(t.t, Token::CHAR(b'}')));
    t.next().ok().unwrap();
    assert!(matches!(t.t, Token::EOF));
}

#[test]
fn quoted_strings_span_lines() {
    let input = b"\"one\ntwo\" rest".to_vec();
    let mut t = Tokenizer::new(&input);
    t.next().ok().unwrap();
    assert_eq!(word(&t.t), b"one\ntwo".to_vec());
    t.next().ok().unwrap();
    assert_eq!(word(&t.t), b"rest".to_vec());
}

#[test]
fn quoted_string_may_be_empty() {
    let input = b"\"\"".to_vec();
    let mut t = Tokenizer::new(&input);
    t.next().ok().unwrap();
    assert_eq!(word(&t.t), b"".to_vec());
}

#[test]
fn comments_run_to_end_of_line() {
    let input = b"# a comment\nword".to_vec();
    let mut t = Tokenizer::new(&input);
    t.next().ok().unwrap();
    assert_eq!(word(&t.t), b"word".to_vec());
}

#[test]
fn unterminated_comment_is_an_error() {
    let input = b"word # trailing".to_vec();
    let mut t = Tokenizer::new(&input);
    t.next().ok().unwrap();
    assert!(t.next().is_err());
}

#[test]
fn unterminated_quote_is_an_error() {
    let input = b"\"no end".to_vec();
    let mut t = Tokenizer::new(&input);
    assert!(t.next().is_err());
}

#[test]
fn end_between_tokens_is_eof() {
    let input = b"one  ".to_vec();
    let mut t = Tokenizer::new(&input);
    t.next().ok().unwrap();
    t.next().ok().unwrap();
    assert!(matches!(t.t, Token::EOF));
}

#[test]
fn mixed_run_with_leading_digit_falls_back_to_word() {
    // an alphanumeric run that starts with a digit but is not all digits is
    // kept as a word rather than failing the scan
    let input = b"3abc".to_vec();
    let mut t = Tokenizer::new(&input);
    t.next().ok().unwrap();
    assert_eq!(word(&t.t), b"3abc".to_vec());
}

#[test]
fn number_too_large_falls_back_to_word() {
    let input = b"99999999999".to_vec();
    let mut t = Tokenizer::new(&input);
    t.next().ok().unwrap();
    assert_eq!(word(&t.t), b"99999999999".to_vec());
}

#[test]
fn number_at_i32_max_still_a_number() {
    let input = b"2147483647".to_vec();
    let mut t = Tokenizer::new(&input);
    t.next().ok().unwrap();
    assert_eq!(number(&t.t), 2147483647);
}

#[test]
fn eat_advances_on_match() {
    let input = b": x".to_vec();
    let mut t = Tokenizer::new(&input);
    t.next().ok().unwrap();
    assert!(t.eat(&Token::CHAR(b':')).is_ok());
    assert_eq!(word(&t.t), b"x".to_vec());
}

#[test]
fn eat_reports_mismatch() {
    let input = b"x".to_vec();
    let mut t = Tokenizer::new(&input);
    t.next().ok().unwrap();
    let e = t.eat(&Token::CHAR(b':')).err().unwrap();
    assert_eq!(e.expected.render(), b"':'".to_vec());
    assert_eq!(e.found.render(), b"\"x\"".to_vec());
}

#[test]
fn long_strings_are_truncated_in_diagnostics() {
    let input = b"abcdefghijklmnop".to_vec();
    let mut t = Tokenizer::new(&input);
    t.next().ok().unwrap();
    let e = t.eat(&Token::CHAR(b':')).err().unwrap();
    assert_eq!(e.found.render(), b"\"abcdefg...\"".to_vec());
}

#[test]
fn negative_numbers_render_with_a_sign() {
    assert_eq!(PrintableToken::NUMBER(-5).render(), b"number <-5>".to_vec());
    assert_eq!(
        PrintableToken::NUMBER(i32::MIN).render(),
        b"number <-2147483648>".to_vec()
    );
    assert_eq!(PrintableToken::NUMBER(0).render(), b"number <0>".to_vec());
}

#[test]
fn number_rendering_is_decimal() {
    let input = b"105".to_vec();
    let mut t = Tokenizer::new(&input);
    t.next().ok().unwrap();
    let e = t.eat(&Token::CHAR(b'{')).err().unwrap();
    assert_eq!(e.found.render(), b"number <105>".to_vec());
    assert_eq!(e.expected.render(), b"'{'".to_vec());
}
