use dolrs::cursor::CharCursor;
use dolrs::document::{DocumentEntry, DocumentError};
use dolrs::parser::{Argument, Arguments, Flag, Flags};
use dolrs::text::{char_continues_literal, char_starts_literal, str_eq, str_is_upper_word};

#[test]
fn a_flag_is_enabled_by_a_plus_only() {
    assert!(Flag::new("+", "X").enabled());
    assert!(!Flag::new("-", "X").enabled());
    assert!(!Flag::new("", "X").enabled());
    assert!(!Flag::new("++", "X").enabled());
    assert!(!Flag::new("x", "X").enabled());
    assert_eq!(Flag::new("+", "CODE").code(), "CODE");
}

#[test]
fn an_argument_keeps_its_key_and_value() {
    let keyed = Argument::new(Some("K"), "V");
    assert_eq!(keyed.key(), Some("K"));
    assert_eq!(keyed.value(), "V");
    let bare = Argument::new(None, "V");
    assert_eq!(bare.key(), None);
    assert_eq!(bare.value(), "V");
    assert_ne!(keyed, bare);
}

#[test]
fn lists_keep_their_items_in_order() {
    let flags = Flags::new(vec![Flag::new("+", "A"), Flag::new("-", "B")]);
    assert_eq!(flags.as_slice(), &[Flag::new("+", "A"), Flag::new("-", "B")]);
    assert_eq!(Flags::empty().as_slice().len(), 0);
    assert_eq!(Flags::empty(), Flags::new(vec![]));

    let args = Arguments::new(vec![Argument::new(None, "A"), Argument::new(Some("K"), "B")]);
    assert_eq!(args.as_slice(), &[Argument::new(None, "A"), Argument::new(Some("K"), "B")]);
    assert_eq!(Arguments::empty().as_slice().len(), 0);
    assert_eq!(Arguments::empty(), Arguments::new(vec![]));
}

#[test]
fn the_table_of_commands() {
    assert_eq!(
        DocumentEntry::new("CL", Flags::empty(), Arguments::empty()),
        Ok(DocumentEntry::Clear(Flags::empty(), Arguments::empty()))
    );
    assert_eq!(
        DocumentEntry::new("TX", Flags::empty(), Arguments::empty()),
        Ok(DocumentEntry::Text(Flags::empty(), Arguments::empty()))
    );
    assert_eq!(
        DocumentEntry::new("FG", Flags::empty(), Arguments::empty()),
        Ok(DocumentEntry::Foreground(Flags::empty(), Arguments::empty()))
    );
}

#[test]
fn the_table_matches_codes_exactly() {
    for code in ["", "C", "cl", "Cl", "CLX", " CL", "CL ", "XCL", "GF"] {
        assert_eq!(
            DocumentEntry::new(code, Flags::empty(), Arguments::empty()),
            Err(DocumentError::UnrecognizedCommand(String::from(code)))
        );
    }
}

#[test]
fn an_entry_hands_on_what_came_with_the_command() {
    let entry = DocumentEntry::new(
        "FG",
        Flags::new(vec![Flag::new("+", "B")]),
        Arguments::new(vec![Argument::new(None, "RED")]),
    )
    .unwrap();
    assert_eq!(entry.flags(), &Flags::new(vec![Flag::new("+", "B")]));
    assert_eq!(entry.arguments(), &Arguments::new(vec![Argument::new(None, "RED")]));
}

#[test]
fn a_cursor_reads_its_characters_in_order() {
    let mut cursor = CharCursor::new("a\u{e9}");
    assert_eq!(cursor.len(), 2);
    assert_eq!(cursor.position(), 0);
    assert_eq!(cursor.peek(), Some('a'));
    assert_eq!(cursor.peek(), Some('a'));
    assert_eq!(cursor.next(), Some('a'));
    assert_eq!(cursor.position(), 1);
    assert_eq!(cursor.next(), Some('\u{e9}'));
    assert_eq!(cursor.peek(), None);
    assert_eq!(cursor.next(), None);
    assert_eq!(cursor.position(), 2);
}

#[test]
fn a_cursor_can_be_made_from_characters() {
    let mut cursor = CharCursor::from_chars(vec!['x', 'y']);
    assert_eq!(cursor.next(), Some('x'));
    assert_eq!(cursor.next(), Some('y'));
    assert_eq!(cursor.next(), None);
}

#[test]
fn the_characters_of_a_literal() {
    for c in ['0', '9', 'A', 'Z', 'a', 'z'] {
        assert!(char_starts_literal(c));
        assert!(char_continues_literal(c));
    }
    assert!(char_starts_literal('_'));
    assert!(!char_continues_literal('_'));
    for c in ['$', ',', '=', '+', '-', '"', ' ', '/', ':', '@', '[', '`', '{', '\u{7f}'] {
        assert!(!char_starts_literal(c));
        assert!(!char_continues_literal(c));
    }
    for c in ['\u{e9}', '\u{4eac}', '\u{663}', '\u{be}'] {
        assert!(!char_starts_literal(c));
        assert!(char_continues_literal(c));
    }
    for c in ['\u{20ac}', '\u{2014}', '\u{a0}'] {
        assert!(!char_starts_literal(c));
        assert!(!char_continues_literal(c));
    }
}

#[test]
fn words_are_upper_case_letters() {
    assert!(str_is_upper_word("A"));
    assert!(str_is_upper_word("CODE"));
    assert!(!str_is_upper_word(""));
    assert!(!str_is_upper_word("Code"));
    assert!(!str_is_upper_word("C1"));
    assert!(!str_is_upper_word("C_D"));
    assert!(!str_is_upper_word("\u{c9}"));
}

#[test]
fn strings_are_equal_by_their_characters() {
    assert!(str_eq("", ""));
    assert!(str_eq("CL", "CL"));
    assert!(!str_eq("CL", "CLX"));
    assert!(!str_eq("CL", "cl"));
    assert!(!str_eq("e\u{301}", "\u{e9}"));
}
