use rustgo::pack_descriptor;
use rustgo::tokenize::{Token, TokenType, TokenizeError, Tokenizer};

fn scan(text: &str) -> Result<Vec<Token>, TokenizeError> {
    Tokenizer::new_from_string(text.to_string()).all()
}

fn kinds(tokens: &[Token]) -> Vec<TokenType> {
    tokens.iter().map(|t| t.token_type).collect()
}

#[test]
fn empty_input_gives_no_tokens() {
    let tokens = scan("").unwrap();
    assert!(tokens.is_empty());
}

#[test]
fn only_separators_give_no_tokens() {
    let tokens = scan(" \n\r\t,:").unwrap();
    assert!(tokens.is_empty());
}

#[test]
fn bare_null_is_one_token() {
    let tokens = scan("null").unwrap();
    assert_eq!(kinds(&tokens), vec![TokenType::Null]);
    assert!(tokens[0].literal.is_empty());
}

#[test]
fn truncated_null_is_malformed_keyword() {
    assert_eq!(scan("nul").err(), Some(TokenizeError::MalformedKeyword));
}

#[test]
fn null_followed_by_stray_byte_is_rejected_at_that_byte() {
    assert_eq!(scan("nullx").err(), Some(TokenizeError::UnexpectedByte));
    let mut t = Tokenizer::new_from_string("nullx".to_string());
    assert_eq!(t.next().unwrap().token_type, TokenType::Null);
    assert_eq!(t.next().err(), Some(TokenizeError::UnexpectedByte));
}

#[test]
fn true_and_false_keywords() {
    let tokens = scan("[true,false]").unwrap();
    assert_eq!(
        kinds(&tokens),
        vec![TokenType::ArrayStart, TokenType::True, TokenType::False, TokenType::ArrayEnd]
    );
}

#[test]
fn truncated_true_and_false_are_malformed() {
    assert_eq!(scan("tru").err(), Some(TokenizeError::MalformedKeyword));
    assert_eq!(scan("[fals]").err(), Some(TokenizeError::MalformedKeyword));
    assert_eq!(scan("trUe").err(), Some(TokenizeError::MalformedKeyword));
}

#[test]
fn object_with_nested_array() {
    let tokens = scan(r#"{"a":1,"b":[true,null]}"#).unwrap();
    assert_eq!(
        kinds(&tokens),
        vec![
            TokenType::ObjectStart,
            TokenType::Literal,
            TokenType::Literal,
            TokenType::Literal,
            TokenType::ArrayStart,
            TokenType::True,
            TokenType::Null,
            TokenType::ArrayEnd,
            TokenType::ObjectEnd,
        ]
    );
    assert_eq!(tokens[1].literal, b"\"a\"".to_vec());
    assert_eq!(tokens[2].literal, b"1".to_vec());
    assert_eq!(tokens[3].literal, b"\"b\"".to_vec());
}

#[test]
fn escaped_quote_stays_inside_the_literal() {
    let tokens = scan(r#""abc\"def""#).unwrap();
    assert_eq!(tokens.len(), 1);
    assert_eq!(tokens[0].token_type, TokenType::Literal);
    assert_eq!(tokens[0].literal, br#""abc\"def""#.to_vec());
    assert_eq!(tokens[0].unquote(), br#"abc\"def"#);
}

#[test]
fn double_backslash_does_not_escape_the_quote() {
    let tokens = scan(r#""a\\" 1"#).unwrap();
    assert_eq!(kinds(&tokens), vec![TokenType::Literal, TokenType::Literal]);
    assert_eq!(tokens[0].literal, br#""a\\""#.to_vec());
    assert_eq!(tokens[1].literal, b"1".to_vec());
}

#[test]
fn unterminated_string_rejects_everything() {
    assert_eq!(scan(r#""abc"#).err(), Some(TokenizeError::UnterminatedString));
    assert_eq!(scan(r#"[1, 2, "abc"#).err(), Some(TokenizeError::UnterminatedString));
    assert_eq!(scan("\"").err(), Some(TokenizeError::UnterminatedString));
}

#[test]
fn unexpected_byte_is_rejected() {
    assert_eq!(scan("x").err(), Some(TokenizeError::UnexpectedByte));
    assert_eq!(scan("[1, @]").err(), Some(TokenizeError::UnexpectedByte));
}

#[test]
fn numbers_are_taken_greedily_and_unchecked() {
    let tokens = scan("1.2.3 --5 -12e+3]").unwrap();
    assert_eq!(
        kinds(&tokens),
        vec![TokenType::Literal, TokenType::Literal, TokenType::Literal, TokenType::ArrayEnd]
    );
    assert_eq!(tokens[0].literal, b"1.2.3".to_vec());
    assert_eq!(tokens[1].literal, b"--5".to_vec());
    assert_eq!(tokens[2].literal, b"-12e+3".to_vec());
}

#[test]
fn number_may_start_with_plus() {
    let tokens = scan("+7E2").unwrap();
    assert_eq!(tokens[0].literal, b"+7E2".to_vec());
}

#[test]
fn peek_twice_returns_the_same_token() {
    let mut t = Tokenizer::new_from_string("  [1]".to_string());
    let a = t.peek().unwrap();
    let b = t.peek().unwrap();
    assert_eq!(a.token_type, TokenType::ArrayStart);
    assert_eq!(b.token_type, TokenType::ArrayStart);
    let rest = t.all().unwrap();
    assert_eq!(
        kinds(&rest),
        vec![TokenType::ArrayStart, TokenType::Literal, TokenType::ArrayEnd]
    );
}

#[test]
fn next_after_peek_hands_out_the_peeked_token_once() {
    let mut t = Tokenizer::new_from_string("\"x\" 42".to_string());
    let p = t.peek().unwrap();
    assert_eq!(p.literal, b"\"x\"".to_vec());
    let n = t.next().unwrap();
    assert_eq!(n.literal, b"\"x\"".to_vec());
    let m = t.next().unwrap();
    assert_eq!(m.literal, b"42".to_vec());
    assert_eq!(t.next().unwrap().token_type, TokenType::EOF);
    assert_eq!(t.peek().unwrap().token_type, TokenType::EOF);
}

#[test]
fn peek_on_empty_input_is_eof() {
    let mut t = Tokenizer::new_from_bytes(Vec::new());
    assert_eq!(t.peek().unwrap().token_type, TokenType::EOF);
    assert_eq!(t.next().unwrap().token_type, TokenType::EOF);
}

#[test]
fn unquote_strips_one_pair_of_quotes() {
    let t = Token::new_with_literal(TokenType::Literal, b"\"hi\"".to_vec());
    assert_eq!(t.unquote(), b"hi");
    let empty = Token::new_with_literal(TokenType::Literal, b"\"\"".to_vec());
    assert_eq!(empty.unquote(), b"");
}

#[test]
fn unquote_leaves_other_literals_unchanged() {
    let n = Token::new_with_literal(TokenType::Literal, b"12".to_vec());
    assert_eq!(n.unquote(), b"12");
    let one = Token::new_with_literal(TokenType::Literal, b"\"".to_vec());
    assert_eq!(one.unquote(), b"\"");
    let half = Token::new_with_literal(TokenType::Literal, b"\"ab".to_vec());
    assert_eq!(half.unquote(), b"\"ab");
}

#[test]
fn new_token_has_no_literal() {
    let t = Token::new(TokenType::ObjectEnd);
    assert_eq!(t.token_type, TokenType::ObjectEnd);
    assert!(t.literal.is_empty());
}

#[test]
fn from_bytes_and_from_string_agree() {
    let a = Tokenizer::new_from_bytes(b"{}".to_vec()).all().unwrap();
    let b = Tokenizer::new_from_string("{}".to_string()).all().unwrap();
    assert_eq!(kinds(&a), kinds(&b));
    assert_eq!(kinds(&a), vec![TokenType::ObjectStart, TokenType::ObjectEnd]);
}

#[test]
fn tokenize_text() {
    let tokens = rustgo::tokenize("[\"a\", 2]").unwrap();
    assert_eq!(
        kinds(&tokens),
        vec![TokenType::ArrayStart, TokenType::Literal, TokenType::Literal, TokenType::ArrayEnd]
    );
    assert_eq!(rustgo::tokenize("?").err(), Some(TokenizeError::UnexpectedByte));
}

#[test]
fn descriptor_packs_pointer_high_and_count_low() {
    let d = pack_descriptor(0x1234, 9);
    assert_eq!(d, 0x0000_1234_0000_0009);
    assert_eq!(d >> 32, 0x1234);
    assert_eq!(d & 0xFFFF_FFFF, 9);
    assert_eq!(pack_descriptor(u32::MAX, u32::MAX), u64::MAX);
}

#[test]
fn kind_tags() {
    assert_eq!(TokenType::Null.tag(), 0);
    assert_eq!(TokenType::Literal.tag(), 3);
    assert_eq!(TokenType::ArrayEnd.tag(), 7);
    assert_eq!(TokenType::EOF.tag(), 8);
}

#[test]
fn document_with_whitespace_and_nesting() {
    let text = "{\n  \"list\": [ -1.5e3, \"x y\", {} ],\r\n\t\"ok\": false\n}\n";
    let tokens = scan(text).unwrap();
    assert_eq!(
        kinds(&tokens),
        vec![
            TokenType::ObjectStart,
            TokenType::Literal,
            TokenType::ArrayStart,
            TokenType::Literal,
            TokenType::Literal,
            TokenType::ObjectStart,
            TokenType::ObjectEnd,
            TokenType::ArrayEnd,
            TokenType::Literal,
            TokenType::False,
            TokenType::ObjectEnd,
        ]
    );
    assert_eq!(tokens[1].unquote(), b"list");
    assert_eq!(tokens[3].literal, b"-1.5e3".to_vec());
    assert_eq!(tokens[4].literal, b"\"x y\"".to_vec());
    assert!(tokens.iter().all(|t| t.token_type != TokenType::EOF));
}

#[test]
fn reader_is_read_to_its_end() {
    let source: &[u8] = b"[null, \"r\"]";
    let mut t = Tokenizer::new_from_reader(source).unwrap();
    let tokens = t.all().unwrap();
    assert_eq!(
        kinds(&tokens),
        vec![TokenType::ArrayStart, TokenType::Null, TokenType::Literal, TokenType::ArrayEnd]
    );
    assert_eq!(tokens[2].unquote(), b"r");
}
