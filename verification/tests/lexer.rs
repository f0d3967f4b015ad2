use dolrs::cursor::CharCursor;
use dolrs::parser::{lex, LexError, Token};

fn lex_str(input: &str) -> (Result<Vec<Token>, LexError>, usize) {
    let mut cursor = CharCursor::new(input);
    let result = lex(&mut cursor);
    (result, cursor.position())
}

fn literal(text: &str) -> Token {
    Token::Literal(String::from(text))
}

fn quoted(text: &str) -> Token {
    Token::QuotedString(String::from(text))
}

#[test]
fn a_block_without_its_delimiter_is_refused() {
    assert_eq!(lex_str("CL$"), (Err(LexError::DollarExpected), 1));
}

#[test]
fn the_empty_stream_is_refused() {
    assert_eq!(lex_str(""), (Err(LexError::DollarExpected), 0));
}

#[test]
fn lexing_stops_behind_the_closing_delimiter() {
    assert_eq!(lex_str("$CL$+X$"), (Ok(vec![Token::Dollar, literal("CL"), Token::Dollar]), 4));
}

#[test]
fn an_empty_block_is_two_delimiters() {
    assert_eq!(lex_str("$$"), (Ok(vec![Token::Dollar, Token::Dollar]), 2));
}

#[test]
fn the_single_character_tokens() {
    assert_eq!(
        lex_str("$=,+-$"),
        (
            Ok(vec![
                Token::Dollar,
                Token::Equals,
                Token::Comma,
                Token::Plus,
                Token::Minus,
                Token::Dollar
            ]),
            6
        )
    );
}

#[test]
fn a_literal_takes_letters_and_digits() {
    assert_eq!(
        lex_str("$aB9z0$"),
        (Ok(vec![Token::Dollar, literal("aB9z0"), Token::Dollar]), 7)
    );
}

#[test]
fn an_underscore_starts_a_literal_and_does_not_continue_one() {
    assert_eq!(
        lex_str("$A_B$"),
        (Ok(vec![Token::Dollar, literal("A"), literal("_B"), Token::Dollar]), 5)
    );
    assert_eq!(
        lex_str("$__$"),
        (Ok(vec![Token::Dollar, literal("_"), literal("_"), Token::Dollar]), 4)
    );
}

#[test]
fn a_letter_beyond_ascii_continues_a_literal() {
    assert_eq!(
        lex_str("$A\u{e9}\u{4eac}\u{663}$"),
        (Ok(vec![Token::Dollar, literal("A\u{e9}\u{4eac}\u{663}"), Token::Dollar]), 6)
    );
}

#[test]
fn a_letter_beyond_ascii_does_not_start_a_literal() {
    assert_eq!(lex_str("$\u{e9}A$"), (Err(LexError::UnexpectedCharacter('\u{e9}')), 2));
}

#[test]
fn a_symbol_beyond_ascii_ends_a_literal() {
    assert_eq!(lex_str("$A\u{20ac}$"), (Err(LexError::UnexpectedCharacter('\u{20ac}')), 3));
}

#[test]
fn an_ascii_symbol_ends_a_literal() {
    assert_eq!(lex_str("$A B$"), (Err(LexError::UnexpectedCharacter(' ')), 3));
    assert_eq!(lex_str("$A.B$"), (Err(LexError::UnexpectedCharacter('.')), 3));
}

#[test]
fn a_quoted_string_holds_its_characters_as_they_are() {
    assert_eq!(
        lex_str("$\"a $ \\ +,= \u{e9}\"$"),
        (Ok(vec![Token::Dollar, quoted("a $ \\ +,= \u{e9}"), Token::Dollar]), 15)
    );
}

#[test]
fn an_empty_quoted_string() {
    assert_eq!(lex_str("$\"\"$"), (Ok(vec![Token::Dollar, quoted(""), Token::Dollar]), 4));
}

#[test]
fn the_stream_must_not_end_on_a_literal() {
    assert_eq!(lex_str("$CL"), (Err(LexError::UnexpectedEndOfStream), 3));
}

#[test]
fn the_stream_must_not_end_inside_quotes() {
    assert_eq!(lex_str("$TX,\"abc"), (Err(LexError::UnexpectedEndOfStream), 8));
}

#[test]
fn the_stream_must_not_end_between_tokens() {
    assert_eq!(lex_str("$"), (Err(LexError::UnexpectedEndOfStream), 1));
    assert_eq!(lex_str("$CL+"), (Err(LexError::UnexpectedEndOfStream), 4));
    assert_eq!(lex_str("$TX,\"a\""), (Err(LexError::UnexpectedEndOfStream), 7));
}

#[test]
fn lexing_starts_where_the_cursor_stands() {
    let mut cursor = CharCursor::new("ab$X$cd");
    assert_eq!(cursor.next(), Some('a'));
    assert_eq!(cursor.next(), Some('b'));
    assert_eq!(lex(&mut cursor), Ok(vec![Token::Dollar, literal("X"), Token::Dollar]));
    assert_eq!(cursor.position(), 5);
    assert_eq!(cursor.next(), Some('c'));
}

#[test]
fn a_token_can_be_duplicated() {
    for token in [
        literal("CL"),
        Token::Comma,
        Token::Dollar,
        Token::Equals,
        quoted("a b"),
        Token::Plus,
        Token::Minus,
    ] {
        assert_eq!(token.duplicate(), token);
    }
    assert_ne!(literal("CL").duplicate(), quoted("CL"));
}
