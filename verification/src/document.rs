//! Document entries, and the table that resolves a command code into one.

use vstd::prelude::*;
use crate::parser::{ArgumentView, Arguments, FlagView, Flags};
use crate::text::str_eq;

verus! {

/// What a `DocumentEntry` stands for.
pub enum DocumentEntryView {
    Clear(Seq<FlagView>, Seq<ArgumentView>),
    Text(Seq<FlagView>, Seq<ArgumentView>),
    Foreground(Seq<FlagView>, Seq<ArgumentView>),
}

/// One unit of a parsed document: a run of plain text or a command, with the
/// flags and arguments that came with it.
#[derive(Debug, PartialEq)]
pub enum DocumentEntry {
    Clear(Flags, Arguments),
    Text(Flags, Arguments),
    Foreground(Flags, Arguments),
}

impl View for DocumentEntry {
    type V = DocumentEntryView;

    open spec fn view(&self) -> DocumentEntryView {
        match *self {
            DocumentEntry::Clear(flags, args) => DocumentEntryView::Clear(flags@, args@),
            DocumentEntry::Text(flags, args) => DocumentEntryView::Text(flags@, args@),
            DocumentEntry::Foreground(flags, args) => DocumentEntryView::Foreground(flags@, args@),
        }
    }
}

/// What a `DocumentError` stands for.
pub enum DocumentErrorView {
    UnrecognizedCommand(Seq<char>),
}

/// Why a command could not be resolved into an entry.
#[derive(Debug, PartialEq)]
pub enum DocumentError {
    /// The code is in no row of the table.
    UnrecognizedCommand(String),
}

impl View for DocumentError {
    type V = DocumentErrorView;

    open spec fn view(&self) -> DocumentErrorView {
        match *self {
            DocumentError::UnrecognizedCommand(code) => DocumentErrorView::UnrecognizedCommand(
                code@,
            ),
        }
    }
}

/// The code of the command that clears the document.
pub open spec fn code_clear() -> Seq<char> {
    seq!['C', 'L']
}

/// The code of the command that writes text.
pub open spec fn code_text() -> Seq<char> {
    seq!['T', 'X']
}

/// The code of the command that sets the foreground colour.
pub open spec fn code_foreground() -> Seq<char> {
    seq!['F', 'G']
}

/// Whether `code` is in a row of the table.
pub open spec fn is_recognized(code: Seq<char>) -> bool {
    code =~= code_clear() || code =~= code_text() || code =~= code_foreground()
}

/// The table of commands: the entry that a code stands for, with the flags and
/// arguments handed on as they are. Codes are matched exactly and as a whole.
pub open spec fn resolve(
    code: Seq<char>,
    flags: Seq<FlagView>,
    args: Seq<ArgumentView>,
) -> Result<DocumentEntryView, DocumentErrorView> {
    if code =~= code_clear() {
        Ok(DocumentEntryView::Clear(flags, args))
    } else if code =~= code_text() {
        Ok(DocumentEntryView::Text(flags, args))
    } else if code =~= code_foreground() {
        Ok(DocumentEntryView::Foreground(flags, args))
    } else {
        Err(DocumentErrorView::UnrecognizedCommand(code))
    }
}

/// An entry or a resolver error, seen through the views of both.
pub open spec fn resolved_view(r: Result<DocumentEntry, DocumentError>) -> Result<
    DocumentEntryView,
    DocumentErrorView,
> {
    match r {
        Ok(entry) => Ok(entry@),
        Err(e) => Err(e@),
    }
}

impl DocumentEntry {
    /// Resolves a command into its entry: the row of the table that holds `cmd`
    /// decides the variant, and an unknown code is handed back in the error.
    pub fn new(cmd: &str, flags: Flags, args: Arguments) -> (r: Result<Self, DocumentError>)
        ensures
            resolved_view(r) == resolve(cmd@, flags@, args@),
    {
        proof {
            reveal_strlit("CL");
            reveal_strlit("TX");
            reveal_strlit("FG");
            assert("CL"@ =~= code_clear());
            assert("TX"@ =~= code_text());
            assert("FG"@ =~= code_foreground());
        }
        if str_eq(cmd, "CL") {
            Ok(DocumentEntry::Clear(flags, args))
        } else if str_eq(cmd, "TX") {
            Ok(DocumentEntry::Text(flags, args))
        } else if str_eq(cmd, "FG") {
            Ok(DocumentEntry::Foreground(flags, args))
        } else {
            Err(DocumentError::UnrecognizedCommand(cmd.to_owned()))
        }
    }

    /// The flags that came with the entry.
    pub fn flags(&self) -> (flags: &Flags)
        ensures
            flags@ == match self@ {
                DocumentEntryView::Clear(f, _) => f,
                DocumentEntryView::Text(f, _) => f,
                DocumentEntryView::Foreground(f, _) => f,
            },
    {
        match self {
            DocumentEntry::Clear(flags, _) => flags,
            DocumentEntry::Text(flags, _) => flags,
            DocumentEntry::Foreground(flags, _) => flags,
        }
    }

    /// The arguments that came with the entry.
    pub fn arguments(&self) -> (args: &Arguments)
        ensures
            args@ == match self@ {
                DocumentEntryView::Clear(_, a) => a,
                DocumentEntryView::Text(_, a) => a,
                DocumentEntryView::Foreground(_, a) => a,
            },
    {
        match self {
            DocumentEntry::Clear(_, args) => args,
            DocumentEntry::Text(_, args) => args,
            DocumentEntry::Foreground(_, args) => args,
        }
    }
}

/// The document that the entries are meant for. It holds nothing yet.
pub struct Document {}

} // verus!
