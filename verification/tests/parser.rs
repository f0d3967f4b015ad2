use dolrs::cursor::CharCursor;
use dolrs::document::DocumentEntry;
use dolrs::doldoc::command;
use dolrs::parser::{lex, parse, Arguments, Flag, Flags, LexError, ParseError, Token};

#[test]
fn test_parses_plus_flag() {
    let result = command("$CL+X$").unwrap().unwrap();

    assert_eq!(result, DocumentEntry::Clear(Flags::new(vec![Flag::new("+", "X")]), Arguments::empty()));
}

#[test]
fn test_parses_minus_flag() {
    let result = command("$CL-Y$").unwrap().unwrap();

    assert_eq!(result, DocumentEntry::Clear(Flags::new(vec![Flag::new("-", "Y")]), Arguments::empty()));
}

#[test]
fn test_parses_multiple_flags() {
    let result = command("$CL+X-Y$").unwrap().unwrap();

    assert_eq!(result, DocumentEntry::Clear(Flags::new(
        vec![Flag::new("+", "X"), Flag::new("-", "Y")]),
        Arguments::empty()));
}

#[test]
fn test_parse_text() -> Result<(), ParseError> {
    let result = parse("Hello World!")?;

    assert_eq!(1, result.len());

    Ok(())
}

// Two delimiters in a row are an empty command block, not an escaped
// delimiter: the block holds no code, so the document is refused.
#[test]
fn test_parse_text_with_dollars() {
    let result = parse("That costs $$50.00!");

    assert_eq!(Err(ParseError::UnexpectedTokenError(Token::Dollar)), result);
}

#[test]
fn test_lex_literals() -> Result<(), LexError> {
    let mut chars = CharCursor::new("$CL$");
    let result = lex(&mut chars)?;

    assert_eq!(3, result.len());
    assert_eq!(Token::Dollar, result[0]);
    assert_eq!(Token::Literal(String::from("CL")), result[1]);
    assert_eq!(Token::Dollar, result[2]);

    Ok(())
}

#[test]
fn test_lex_arguments() -> Result<(), LexError> {
    let mut chars = CharCursor::new("$TEST,A=\"Value\"$");
    let result = lex(&mut chars)?;

    assert_eq!(7, result.len());
    assert_eq!(Token::Dollar, result[0]);
    assert_eq!(Token::Literal(String::from("TEST")), result[1]);
    assert_eq!(Token::Comma, result[2]);
    assert_eq!(Token::Literal(String::from("A")), result[3]);
    assert_eq!(Token::Equals, result[4]);
    assert_eq!(Token::QuotedString(String::from("Value")), result[5]);
    assert_eq!(Token::Dollar, result[6]);

    Ok(())
}

#[test]
fn test_lex_quoted_strings() -> Result<(), LexError> {
    let mut chars = CharCursor::new("$TX,\"Test\"$");
    let result = lex(&mut chars)?;

    assert_eq!(5, result.len());
    assert_eq!(Token::Dollar, result[0]);
    assert_eq!(Token::Literal(String::from("TX")), result[1]);
    assert_eq!(Token::Comma, result[2]);
    assert_eq!(Token::QuotedString(String::from("Test")), result[3]);
    assert_eq!(Token::Dollar, result[4]);

    Ok(())
}

#[test]
fn test_lex_flags() -> Result<(), LexError> {
    let mut chars = CharCursor::new("$TX+B-C$");
    let result = lex(&mut chars)?;

    assert_eq!(7, result.len());
    assert_eq!(Token::Dollar, result[0]);
    assert_eq!(Token::Literal(String::from("TX")), result[1]);
    assert_eq!(Token::Plus, result[2]);
    assert_eq!(Token::Literal(String::from("B")), result[3]);
    assert_eq!(Token::Minus, result[4]);
    assert_eq!(Token::Literal(String::from("C")), result[5]);
    assert_eq!(Token::Dollar, result[6]);

    Ok(())
}

#[test]
fn test_lex_all() -> Result<(), LexError> {
    let mut chars = CharCursor::new("$TX+B-C,\"Hello\",S=\"World!\"$");
    let result = lex(&mut chars)?;

    assert_eq!(13, result.len());
    assert_eq!(Token::Dollar, result[0]);
    assert_eq!(Token::Literal(String::from("TX")), result[1]);
    assert_eq!(Token::Plus, result[2]);
    assert_eq!(Token::Literal(String::from("B")), result[3]);
    assert_eq!(Token::Minus, result[4]);
    assert_eq!(Token::Literal(String::from("C")), result[5]);
    assert_eq!(Token::Comma, result[6]);
    assert_eq!(Token::QuotedString(String::from("Hello")), result[7]);
    assert_eq!(Token::Comma, result[8]);
    assert_eq!(Token::Literal(String::from("S")), result[9]);
    assert_eq!(Token::Equals, result[10]);
    assert_eq!(Token::QuotedString(String::from("World!")), result[11]);
    assert_eq!(Token::Dollar, result[12]);

    Ok(())
}
