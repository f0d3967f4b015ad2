use dolrs::document::{DocumentEntry, DocumentError};
use dolrs::doldoc::{command, command_from_chars, command_from_tokens, Command};
use dolrs::parser::{Argument, Arguments, Flag, Flags, LexError, ParseError, Token};

fn literal(text: &str) -> Token {
    Token::Literal(String::from(text))
}

fn quoted(text: &str) -> Token {
    Token::QuotedString(String::from(text))
}

fn plain(code: &str) -> Command {
    Command { code: String::from(code), flags: Flags::empty(), args: Arguments::empty() }
}

#[test]
fn the_tokens_of_a_keyed_argument_spell_a_command() {
    let tokens = vec![
        Token::Dollar,
        literal("TEST"),
        Token::Comma,
        literal("A"),
        Token::Equals,
        quoted("Value"),
        Token::Dollar,
    ];
    assert_eq!(
        command_from_tokens(&tokens),
        Ok(Command {
            code: String::from("TEST"),
            flags: Flags::empty(),
            args: Arguments::new(vec![Argument::new(Some("A"), "Value")]),
        })
    );
}

#[test]
fn a_code_alone_is_a_command() {
    let tokens = vec![Token::Dollar, literal("CL"), Token::Dollar];
    assert_eq!(command_from_tokens(&tokens), Ok(plain("CL")));
}

#[test]
fn the_three_ways_to_write_an_argument() {
    assert_eq!(
        command("$FG,K=V$"),
        Ok(Ok(DocumentEntry::Foreground(
            Flags::empty(),
            Arguments::new(vec![Argument::new(Some("K"), "V")])
        )))
    );
    assert_eq!(
        command("$FG,=V$"),
        Ok(Ok(DocumentEntry::Foreground(
            Flags::empty(),
            Arguments::new(vec![Argument::new(None, "V")])
        )))
    );
    assert_eq!(
        command("$FG,V$"),
        Ok(Ok(DocumentEntry::Foreground(
            Flags::empty(),
            Arguments::new(vec![Argument::new(None, "V")])
        )))
    );
}

#[test]
fn a_value_is_a_word_or_anything_in_quotes() {
    assert_eq!(
        command("$FG,RED,\"dark red\",K=\"\"$"),
        Ok(Ok(DocumentEntry::Foreground(
            Flags::empty(),
            Arguments::new(vec![
                Argument::new(None, "RED"),
                Argument::new(None, "dark red"),
                Argument::new(Some("K"), ""),
            ])
        )))
    );
    assert_eq!(
        command("$FG,red$"),
        Err(ParseError::UnexpectedTokenError(literal("red")))
    );
    assert_eq!(
        command("$FG,K=12$"),
        Err(ParseError::UnexpectedTokenError(literal("12")))
    );
}

#[test]
fn a_key_is_a_word() {
    assert_eq!(command("$FG,k=V$"), Err(ParseError::UnexpectedTokenError(literal("k"))));
    assert_eq!(
        command("$FG,\"K\"=V$"),
        Err(ParseError::UnexpectedTokenError(Token::Equals))
    );
}

#[test]
fn a_code_is_a_word() {
    assert_eq!(command("$cl$"), Err(ParseError::UnexpectedTokenError(literal("cl"))));
    assert_eq!(command("$Cl$"), Err(ParseError::UnexpectedTokenError(literal("Cl"))));
    assert_eq!(command("$C1$"), Err(ParseError::UnexpectedTokenError(literal("C1"))));
    assert_eq!(command("$_C$"), Err(ParseError::UnexpectedTokenError(literal("_C"))));
    assert_eq!(command("$\"CL\"$"), Err(ParseError::UnexpectedTokenError(quoted("CL"))));
    assert_eq!(command("$$"), Err(ParseError::UnexpectedTokenError(Token::Dollar)));
    assert_eq!(command("$+X$"), Err(ParseError::UnexpectedTokenError(Token::Plus)));
}

#[test]
fn a_flag_needs_a_word() {
    assert_eq!(command("$CL+$"), Err(ParseError::UnexpectedTokenError(Token::Dollar)));
    assert_eq!(command("$CL+-X$"), Err(ParseError::UnexpectedTokenError(Token::Minus)));
    assert_eq!(command("$CL+x$"), Err(ParseError::UnexpectedTokenError(literal("x"))));
}

#[test]
fn an_argument_needs_a_value() {
    assert_eq!(command("$CL,$"), Err(ParseError::UnexpectedTokenError(Token::Dollar)));
    assert_eq!(command("$CL,A=$"), Err(ParseError::UnexpectedTokenError(Token::Dollar)));
    assert_eq!(command("$CL,=$"), Err(ParseError::UnexpectedTokenError(Token::Dollar)));
    assert_eq!(command("$CL,,A$"), Err(ParseError::UnexpectedTokenError(Token::Comma)));
}

#[test]
fn flags_come_before_arguments() {
    assert_eq!(command("$CL,A=B+X$"), Err(ParseError::UnexpectedTokenError(Token::Plus)));
    assert_eq!(command("$CL=A$"), Err(ParseError::UnexpectedTokenError(Token::Equals)));
    assert_eq!(command("$CL A$"), Err(ParseError::LexError(LexError::UnexpectedCharacter(' '))));
}

#[test]
fn tokens_must_start_with_the_delimiter() {
    assert_eq!(
        command_from_tokens(&vec![]),
        Err(ParseError::ExpectedTokenError(Token::Dollar))
    );
    assert_eq!(
        command_from_tokens(&vec![literal("CL"), Token::Dollar]),
        Err(ParseError::ExpectedTokenError(Token::Dollar))
    );
}

#[test]
fn tokens_that_end_early_leave_the_block_open() {
    assert_eq!(command_from_tokens(&vec![Token::Dollar]), Err(ParseError::UnexpectedEOF));
    assert_eq!(
        command_from_tokens(&vec![Token::Dollar, literal("CL")]),
        Err(ParseError::UnexpectedEOF)
    );
    assert_eq!(
        command_from_tokens(&vec![Token::Dollar, literal("CL"), Token::Plus]),
        Err(ParseError::UnexpectedEOF)
    );
    assert_eq!(
        command_from_tokens(&vec![Token::Dollar, literal("CL"), Token::Comma]),
        Err(ParseError::UnexpectedEOF)
    );
    assert_eq!(
        command_from_tokens(&vec![Token::Dollar, literal("CL"), Token::Comma, Token::Equals]),
        Err(ParseError::UnexpectedEOF)
    );
    assert_eq!(
        command_from_tokens(&vec![
            Token::Dollar,
            literal("CL"),
            Token::Comma,
            literal("K"),
            Token::Equals
        ]),
        Err(ParseError::UnexpectedEOF)
    );
}

#[test]
fn nothing_may_follow_the_closing_delimiter() {
    assert_eq!(
        command_from_tokens(&vec![Token::Dollar, literal("CL"), Token::Dollar, Token::Comma]),
        Err(ParseError::UnexpectedTokenError(Token::Comma))
    );
    assert_eq!(
        command("$CL$x"),
        Err(ParseError::LexError(LexError::UnexpectedCharacter('x')))
    );
    assert_eq!(
        command("$CL$$FG$"),
        Err(ParseError::LexError(LexError::UnexpectedCharacter('$')))
    );
}

#[test]
fn a_string_that_is_no_block_is_refused() {
    assert_eq!(command(""), Err(ParseError::LexError(LexError::DollarExpected)));
    assert_eq!(command("CL"), Err(ParseError::LexError(LexError::DollarExpected)));
    assert_eq!(command("$CL"), Err(ParseError::LexError(LexError::UnexpectedEndOfStream)));
}

#[test]
fn an_unknown_code_is_the_inner_error() {
    assert_eq!(
        command("$NO+X,A=B$"),
        Ok(Err(DocumentError::UnrecognizedCommand(String::from("NO"))))
    );
}

#[test]
fn a_block_can_be_given_as_characters() {
    assert_eq!(
        command_from_chars("$CL-Y$".chars().collect()),
        Ok(Ok(DocumentEntry::Clear(Flags::new(vec![Flag::new("-", "Y")]), Arguments::empty())))
    );
}
