use dolrs::cursor::CharCursor;
use dolrs::document::{DocumentEntry, DocumentError};
use dolrs::parser::{
    parse, read_command, read_text, source_spans, Argument, Arguments, Flag, Flags, LexError,
    ParseError, Token,
};

fn no_flags() -> Flags {
    Flags::empty()
}

fn no_args() -> Arguments {
    Arguments::empty()
}

fn text() -> DocumentEntry {
    DocumentEntry::Text(no_flags(), no_args())
}

#[test]
fn each_code_of_the_table_parses_to_its_variant() {
    assert_eq!(parse("$CL$"), Ok(vec![DocumentEntry::Clear(no_flags(), no_args())]));
    assert_eq!(parse("$TX$"), Ok(vec![DocumentEntry::Text(no_flags(), no_args())]));
    assert_eq!(parse("$FG$"), Ok(vec![DocumentEntry::Foreground(no_flags(), no_args())]));
}

#[test]
fn a_code_outside_the_table_is_named_in_the_error() {
    assert_eq!(
        parse("$XX$"),
        Err(ParseError::DocError(DocumentError::UnrecognizedCommand(String::from("XX"))))
    );
    assert_eq!(
        parse("$C$"),
        Err(ParseError::DocError(DocumentError::UnrecognizedCommand(String::from("C"))))
    );
    assert_eq!(
        parse("$CLX$"),
        Err(ParseError::DocError(DocumentError::UnrecognizedCommand(String::from("CLX"))))
    );
}

#[test]
fn an_unknown_code_fails_whatever_comes_with_it() {
    assert_eq!(
        parse("$TEST,A=\"Value\"$"),
        Err(ParseError::DocError(DocumentError::UnrecognizedCommand(String::from("TEST"))))
    );
}

#[test]
fn flags_keep_their_order() {
    assert_eq!(
        parse("$CL+X-Y$"),
        Ok(vec![DocumentEntry::Clear(
            Flags::new(vec![Flag::new("+", "X"), Flag::new("-", "Y")]),
            no_args()
        )])
    );
    assert_ne!(
        parse("$CL+X-Y$"),
        Ok(vec![DocumentEntry::Clear(
            Flags::new(vec![Flag::new("-", "Y"), Flag::new("+", "X")]),
            no_args()
        )])
    );
}

#[test]
fn repeated_flags_and_keys_are_all_kept() {
    assert_eq!(
        parse("$CL+X+X-X,A=B,A=C$"),
        Ok(vec![DocumentEntry::Clear(
            Flags::new(vec![Flag::new("+", "X"), Flag::new("+", "X"), Flag::new("-", "X")]),
            Arguments::new(vec![Argument::new(Some("A"), "B"), Argument::new(Some("A"), "C")])
        )])
    );
}

#[test]
fn a_quoted_value_without_a_key_is_positional() {
    assert_eq!(
        parse("$TX,\"Test\"$"),
        Ok(vec![DocumentEntry::Text(
            no_flags(),
            Arguments::new(vec![Argument::new(None, "Test")])
        )])
    );
}

#[test]
fn flags_and_arguments_mix() {
    assert_eq!(
        parse("$TX+B-C,\"Hello\",S=\"World!\"$"),
        Ok(vec![DocumentEntry::Text(
            Flags::new(vec![Flag::new("+", "B"), Flag::new("-", "C")]),
            Arguments::new(vec![Argument::new(None, "Hello"), Argument::new(Some("S"), "World!")])
        )])
    );
}

#[test]
fn plain_text_is_one_text_entry() {
    assert_eq!(parse("Hello World!"), Ok(vec![text()]));
    assert_eq!(source_spans("Hello World!"), vec!["Hello World!"]);
}

#[test]
fn a_command_splits_the_text_around_it() {
    assert_eq!(
        parse("Hello $CL$ World"),
        Ok(vec![text(), DocumentEntry::Clear(no_flags(), no_args()), text()])
    );
    assert_eq!(source_spans("Hello $CL$ World"), vec!["Hello ", "$CL$", " World"]);
}

#[test]
fn spans_are_cut_without_parsing() {
    assert_eq!(source_spans(""), Vec::<String>::new());
    assert_eq!(source_spans("$$"), vec!["$$"]);
    assert_eq!(source_spans("$"), vec!["$"]);
    assert_eq!(source_spans("a$"), vec!["a", "$"]);
    assert_eq!(source_spans("$a"), vec!["$a"]);
    assert_eq!(source_spans("$a$$b$c$d"), vec!["$a$", "$b$", "c", "$d"]);
    assert_eq!(source_spans("$TX,\"a$b\"$"), vec!["$TX,\"a$", "b\"", "$"]);
    assert_eq!(source_spans("\u{e9}$\u{4eac}$"), vec!["\u{e9}", "$\u{4eac}$"]);
}

#[test]
fn the_spans_put_together_are_the_document() {
    for input in ["", "plain", "$CL$", "a $CL+X$ b $FG,RED$", "$open", "x$$y", "$a$b$c"] {
        assert_eq!(source_spans(input).concat(), input);
        assert_eq!(parse(&source_spans(input).concat()), parse(input));
    }
}

#[test]
fn each_entry_stands_for_its_span() {
    let input = "Hello $CL+X$ World $TX,\"again\"$$FG,RED$!";
    let entries = parse(input).unwrap();
    let spans = source_spans(input);
    assert_eq!(entries.len(), spans.len());
    for (span, entry) in spans.iter().zip(entries.iter()) {
        let alone = parse(span).unwrap();
        assert_eq!(alone.len(), 1);
        assert_eq!(&alone[0], entry);
    }
}

#[test]
fn the_empty_document_has_no_entries() {
    assert_eq!(parse(""), Ok(vec![]));
}

#[test]
fn commands_in_a_row_have_no_text_between_them() {
    assert_eq!(
        parse("$CL$$FG,RED$"),
        Ok(vec![
            DocumentEntry::Clear(no_flags(), no_args()),
            DocumentEntry::Foreground(no_flags(), Arguments::new(vec![Argument::new(None, "RED")])),
        ])
    );
}

#[test]
fn a_longer_document_keeps_the_order_of_its_pieces() {
    assert_eq!(
        parse("Hello World! $CL$ $TX+CX,A=C,B=X$ What's up?"),
        Ok(vec![
            text(),
            DocumentEntry::Clear(no_flags(), no_args()),
            text(),
            DocumentEntry::Text(
                Flags::new(vec![Flag::new("+", "CX")]),
                Arguments::new(vec![Argument::new(Some("A"), "C"), Argument::new(Some("B"), "X")])
            ),
            text(),
        ])
    );
}

#[test]
fn parsing_the_pieces_again_gives_the_same_entries() {
    let pieces = ["Hello ", "$CL+X$", " World", "$TX,\"again\"$"];
    let whole = pieces.concat();
    let first = parse(&whole).unwrap();
    assert_eq!(first.len(), pieces.len());
    for (piece, entry) in pieces.iter().zip(first.iter()) {
        let alone = parse(piece).unwrap();
        assert_eq!(alone.len(), 1);
        assert_eq!(&alone[0], entry);
    }
    assert_eq!(parse(&pieces.concat()).unwrap(), first);
}

#[test]
fn an_open_block_is_an_end_of_input_error() {
    assert_eq!(parse("$CL"), Err(ParseError::UnexpectedEOF));
    assert_eq!(parse("$"), Err(ParseError::UnexpectedEOF));
    assert_eq!(parse("Hello $CL$ and $FG,RED"), Err(ParseError::UnexpectedEOF));
}

#[test]
fn the_first_error_ends_the_parse() {
    assert_eq!(
        parse("$CL$ $NO$ $cl$"),
        Err(ParseError::DocError(DocumentError::UnrecognizedCommand(String::from("NO"))))
    );
    assert_eq!(
        parse("$CL$ $cl$ $NO$"),
        Err(ParseError::UnexpectedTokenError(Token::Literal(String::from("cl"))))
    );
}

#[test]
fn a_character_that_is_no_token_is_a_lexer_error() {
    assert_eq!(
        parse("$C L$"),
        Err(ParseError::LexError(LexError::UnexpectedCharacter(' ')))
    );
}

#[test]
fn a_delimiter_inside_quotes_still_ends_the_block() {
    assert_eq!(
        parse("$TX,\"a$b\"$"),
        Err(ParseError::LexError(LexError::UnexpectedEndOfStream))
    );
}

#[test]
fn the_parser_never_gives_the_general_error() {
    for input in ["", "$", "$$", "$CL", "$cl$", "$CL+$", "a$b", "$CL,$", "$C L$", "$\"$"] {
        assert_ne!(parse(input), Err(ParseError::GeneralError));
    }
}

#[test]
fn read_text_stops_in_front_of_the_delimiter() {
    let mut cursor = CharCursor::new("Hello $CL$");
    assert_eq!(read_text(&mut cursor), Ok(text()));
    assert_eq!(cursor.position(), 6);
    assert_eq!(cursor.peek(), Some('$'));
}

#[test]
fn read_text_runs_to_the_end_without_a_delimiter() {
    let mut cursor = CharCursor::new("Hello");
    assert_eq!(read_text(&mut cursor), Ok(text()));
    assert_eq!(cursor.position(), 5);
    assert_eq!(cursor.peek(), None);
}

#[test]
fn read_text_at_a_delimiter_reads_nothing() {
    let mut cursor = CharCursor::new("$CL$");
    assert_eq!(read_text(&mut cursor), Ok(text()));
    assert_eq!(cursor.position(), 0);
}

#[test]
fn read_command_stops_behind_the_closing_delimiter() {
    let mut cursor = CharCursor::new("$FG,RED$ text");
    assert_eq!(
        read_command(&mut cursor),
        Ok(DocumentEntry::Foreground(no_flags(), Arguments::new(vec![Argument::new(None, "RED")])))
    );
    assert_eq!(cursor.position(), 8);
}

#[test]
fn read_command_needs_a_delimiter_to_start() {
    let mut cursor = CharCursor::new("CL$");
    assert_eq!(read_command(&mut cursor), Err(ParseError::ExpectedTokenError(Token::Dollar)));
    assert_eq!(cursor.position(), 0);

    let mut empty = CharCursor::new("");
    assert_eq!(read_command(&mut empty), Err(ParseError::ExpectedTokenError(Token::Dollar)));
}

#[test]
fn read_command_uses_up_an_open_block() {
    let mut cursor = CharCursor::new("$CL+X");
    assert_eq!(read_command(&mut cursor), Err(ParseError::UnexpectedEOF));
    assert_eq!(cursor.position(), 5);
}

#[test]
fn a_document_error_becomes_a_parse_error() {
    let error = DocumentError::UnrecognizedCommand(String::from("NO"));
    assert_eq!(
        ParseError::from(error),
        ParseError::DocError(DocumentError::UnrecognizedCommand(String::from("NO")))
    );
}
