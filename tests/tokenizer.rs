use dent_parse::{Error, Token, Tokenizer};

#[test]
fn number() {
    let mut tokenizer = Tokenizer::new("123");
    assert_eq!(tokenizer.next(), Ok(Token::Number("123")));
    assert_eq!(tokenizer.next(), Ok(Token::Eof));
}

#[test]
fn numbers() {
    let mut tokenizer = Tokenizer::new("123 1 2 3 1.0 2.0 11.2 11.");
    assert_eq!(tokenizer.next(), Ok(Token::Number("123")));
    assert_eq!(tokenizer.next(), Ok(Token::Number("1")));
    assert_eq!(tokenizer.next(), Ok(Token::Number("2")));
    assert_eq!(tokenizer.next(), Ok(Token::Number("3")));
    assert_eq!(tokenizer.next(), Ok(Token::Number("1.0")));
    assert_eq!(tokenizer.next(), Ok(Token::Number("2.0")));
    assert_eq!(tokenizer.next(), Ok(Token::Number("11.2")));
    assert_eq!(tokenizer.next(), Ok(Token::Number("11.")));
    assert_eq!(tokenizer.next(), Ok(Token::Eof));
}

#[test]
fn tokenizer_string() {
    let mut tokenizer = Tokenizer::new("hello");
    assert_eq!(tokenizer.next(), Ok(Token::String("hello")));
    assert_eq!(tokenizer.next(), Ok(Token::Eof));
}

#[test]
fn strings() {
    let mut tokenizer = Tokenizer::new("hello \"dear\" world");
    assert_eq!(tokenizer.next(), Ok(Token::String("hello")));
    assert_eq!(tokenizer.next(), Ok(Token::String("dear")));
    assert_eq!(tokenizer.next(), Ok(Token::String("world")));
    assert_eq!(tokenizer.next(), Ok(Token::Eof));
}

#[test]
fn bool() {
    let mut tokenizer = Tokenizer::new("true false");
    assert_eq!(tokenizer.next(), Ok(Token::Bool(true)));
    assert_eq!(tokenizer.next(), Ok(Token::Bool(false)));
    assert_eq!(tokenizer.next(), Ok(Token::Eof));
}

#[test]
fn special_characters() {
    let mut tokenizer = Tokenizer::new("[]{}@:");
    assert_eq!(tokenizer.next(), Ok(Token::OpenBracket));
    assert_eq!(tokenizer.next(), Ok(Token::CloseBracket));
    assert_eq!(tokenizer.next(), Ok(Token::OpenBrace));
    assert_eq!(tokenizer.next(), Ok(Token::CloseBrace));
    assert_eq!(tokenizer.next(), Ok(Token::At));
    assert_eq!(tokenizer.next(), Ok(Token::Colon));
    assert_eq!(tokenizer.next(), Ok(Token::Eof));
}

#[test]
fn comments() {
    let mut tokenizer = Tokenizer::new("hello # world\n");
    assert_eq!(tokenizer.next(), Ok(Token::String("hello")));
    assert_eq!(tokenizer.next(), Ok(Token::Comment));
    assert_eq!(tokenizer.next(), Ok(Token::Eof));
}

#[test]
fn comments2() {
    let mut tokenizer = Tokenizer::new("hello # world\n# comment");
    assert_eq!(tokenizer.next(), Ok(Token::String("hello")));
    assert_eq!(tokenizer.next(), Ok(Token::Comment));
    assert_eq!(tokenizer.next(), Ok(Token::Comment));
    assert_eq!(tokenizer.next(), Ok(Token::Eof));
}

#[test]
fn tokenizer_list() {
    let mut tokenizer = Tokenizer::new("[1 2 3] [ 1 2 a ]");

    assert_eq!(tokenizer.next(), Ok(Token::OpenBracket));
    assert_eq!(tokenizer.next(), Ok(Token::Number("1")));
    assert_eq!(tokenizer.next(), Ok(Token::Number("2")));
    assert_eq!(tokenizer.next(), Ok(Token::Number("3")));
    assert_eq!(tokenizer.next(), Ok(Token::CloseBracket));
    assert_eq!(tokenizer.next(), Ok(Token::OpenBracket));
    assert_eq!(tokenizer.next(), Ok(Token::Number("1")));
    assert_eq!(tokenizer.next(), Ok(Token::Number("2")));
    assert_eq!(tokenizer.next(), Ok(Token::String("a")));
    assert_eq!(tokenizer.next(), Ok(Token::CloseBracket));
    assert_eq!(tokenizer.next(), Ok(Token::Eof));
}

#[test]
fn tokenizer_dict() {
    let mut tokenizer = Tokenizer::new("{a: 1 b: 2}");
    assert_eq!(tokenizer.next(), Ok(Token::OpenBrace));
    assert_eq!(tokenizer.next(), Ok(Token::String("a")));
    assert_eq!(tokenizer.next(), Ok(Token::Colon));
    assert_eq!(tokenizer.next(), Ok(Token::Number("1")));
    assert_eq!(tokenizer.next(), Ok(Token::String("b")));
    assert_eq!(tokenizer.next(), Ok(Token::Colon));
    assert_eq!(tokenizer.next(), Ok(Token::Number("2")));
    assert_eq!(tokenizer.next(), Ok(Token::CloseBrace));
    assert_eq!(tokenizer.next(), Ok(Token::Eof));
}

#[test]
fn unterminated_quote_runs_to_end() {
    let mut tokenizer = Tokenizer::new("\"abc");
    assert_eq!(tokenizer.next(), Ok(Token::String("abc")));
    assert_eq!(tokenizer.next(), Ok(Token::Eof));
}

#[test]
fn eof_repeats() {
    let mut tokenizer = Tokenizer::new("  ");
    assert_eq!(tokenizer.next(), Ok(Token::Eof));
    assert_eq!(tokenizer.next(), Ok(Token::Eof));
    assert_eq!(tokenizer.next(), Ok(Token::Eof));
}

#[test]
fn unexpected_char() {
    let mut tokenizer = Tokenizer::new("a $");
    assert_eq!(tokenizer.next(), Ok(Token::String("a")));
    assert_eq!(tokenizer.next(), Err(Error::UnexpectedChar('$')));
}

#[test]
fn bare_word_with_sign_prefix() {
    let mut tokenizer = Tokenizer::new("-foo_1 /x trueish");
    assert_eq!(tokenizer.next(), Ok(Token::String("-foo_1")));
    assert_eq!(tokenizer.next(), Ok(Token::String("/x")));
    assert_eq!(tokenizer.next(), Ok(Token::String("trueish")));
    assert_eq!(tokenizer.next(), Ok(Token::Eof));
}

#[test]
fn unicode_word_and_space() {
    let mut tokenizer = Tokenizer::new("\u{3000}日本語x\u{a0}é");
    assert_eq!(tokenizer.next(), Ok(Token::String("日本語x")));
    assert_eq!(tokenizer.next(), Ok(Token::String("é")));
    assert_eq!(tokenizer.next(), Ok(Token::Eof));
}

#[test]
fn kind_names() {
    assert_eq!(Token::OpenBracket.kind_name(), "BRACKET_OPEN");
    assert_eq!(Token::CloseBrace.kind_name(), "BRACE_CLOSE");
    assert_eq!(Token::String("x").kind_name(), "STRING");
    assert_eq!(Token::Eof.kind_name(), "EOF");
    assert_eq!(Token::Comment.kind_name(), "COMMENT");
}
