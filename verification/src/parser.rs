//! Flags, arguments and tokens, the lexer of command blocks, and the scanner
//! that turns a whole document into entries.

use vstd::prelude::*;
use crate::cursor::{index_of_from, lemma_index_of_from, CharCursor};
use crate::document::{DocumentEntry, DocumentEntryView, DocumentError, DocumentErrorView};
use crate::doldoc::{command_entry, command_from_chars};
use crate::text::{char_continues_literal, char_starts_literal, continues_literal, starts_literal};

verus! {

/// What a `Flag` stands for.
pub struct FlagView {
    pub enabled: bool,
    pub code: Seq<char>,
}

/// A toggle attached to a command: `+CODE` enables, `-CODE` disables.
#[derive(Debug, PartialEq)]
pub struct Flag {
    status: bool,
    code: String,
}

impl View for Flag {
    type V = FlagView;

    closed spec fn view(&self) -> FlagView {
        FlagView { enabled: self.status, code: self.code@ }
    }
}

impl Flag {
    /// A flag with the given code, enabled exactly when `status` is `"+"`.
    pub fn new(status: &str, code: &str) -> (flag: Self)
        ensures
            flag@ == (FlagView { enabled: status@ == seq!['+'], code: code@ }),
    {
        proof {
            reveal_strlit("+");
            assert("+"@ =~= seq!['+']);
        }
        Flag { status: crate::text::str_eq(status, "+"), code: code.to_owned() }
    }

    /// Whether the flag switches its code on.
    pub fn enabled(&self) -> (b: bool)
        ensures
            b == self@.enabled,
    {
        self.status
    }

    /// The code that the flag toggles.
    pub fn code(&self) -> (code: &str)
        ensures
            code@ == self@.code,
    {
        self.code.as_str()
    }
}

/// The views of a sequence of flags, in the same order.
pub open spec fn flag_views(flags: Seq<Flag>) -> Seq<FlagView> {
    flags.map_values(|f: Flag| f@)
}

/// The flags of one command, in the order in which they were written.
#[derive(Debug, PartialEq)]
pub struct Flags {
    flags: Vec<Flag>,
}

impl View for Flags {
    type V = Seq<FlagView>;

    closed spec fn view(&self) -> Seq<FlagView> {
        flag_views(self.flags@)
    }
}

impl Flags {
    /// The given flags, in the given order.
    pub fn new(flags: Vec<Flag>) -> (list: Self)
        ensures
            list@ == flag_views(flags@),
    {
        Flags { flags }
    }

    /// No flags.
    pub fn empty() -> (list: Self)
        ensures
            list@ == Seq::<FlagView>::empty(),
    {
        let list = Flags { flags: Vec::new() };
        assert(list@ =~= Seq::<FlagView>::empty());
        list
    }

    /// The flags as a slice, in order.
    pub fn as_slice(&self) -> (flags: &[Flag])
        ensures
            flag_views(flags@) == self@,
    {
        self.flags.as_slice()
    }
}

/// What an `Argument` stands for.
pub struct ArgumentView {
    pub key: Option<Seq<char>>,
    pub value: Seq<char>,
}

/// A value attached to a command, with the key it was given under, if any.
#[derive(Debug, PartialEq)]
pub struct Argument {
    key: Option<String>,
    value: String,
}

impl View for Argument {
    type V = ArgumentView;

    closed spec fn view(&self) -> ArgumentView {
        ArgumentView {
            key: match self.key {
                Some(k) => Some(k@),
                None => None,
            },
            value: self.value@,
        }
    }
}

/// The characters of an optional string slice.
pub open spec fn key_view(key: Option<&str>) -> Option<Seq<char>> {
    match key {
        Some(k) => Some(k@),
        None => None,
    }
}

impl Argument {
    /// An argument with the given value, keyed where a key is given.
    pub fn new(key: Option<&str>, value: &str) -> (arg: Self)
        ensures
            arg@ == (ArgumentView { key: key_view(key), value: value@ }),
    {
        let key = match key {
            Some(k) => Some(k.to_owned()),
            None => None,
        };
        Argument { key, value: value.to_owned() }
    }

    /// The key, for a keyed argument.
    pub fn key(&self) -> (key: Option<&str>)
        ensures
            key_view(key) == self@.key,
    {
        match &self.key {
            Some(k) => Some(k.as_str()),
            None => None,
        }
    }

    /// The value.
    pub fn value(&self) -> (value: &str)
        ensures
            value@ == self@.value,
    {
        self.value.as_str()
    }
}

/// The views of a sequence of arguments, in the same order.
pub open spec fn argument_views(args: Seq<Argument>) -> Seq<ArgumentView> {
    args.map_values(|a: Argument| a@)
}

/// The arguments of one command, in the order in which they were written.
#[derive(Debug, PartialEq)]
pub struct Arguments {
    values: Vec<Argument>,
}

impl View for Arguments {
    type V = Seq<ArgumentView>;

    closed spec fn view(&self) -> Seq<ArgumentView> {
        argument_views(self.values@)
    }
}

impl Arguments {
    /// The given arguments, in the given order.
    pub fn new(values: Vec<Argument>) -> (list: Self)
        ensures
            list@ == argument_views(values@),
    {
        Arguments { values }
    }

    /// No arguments.
    pub fn empty() -> (list: Self)
        ensures
            list@ == Seq::<ArgumentView>::empty(),
    {
        let list = Arguments::new(Vec::new());
        assert(list@ =~= Seq::<ArgumentView>::empty());
        list
    }

    /// The arguments as a slice, in order.
    pub fn as_slice(&self) -> (values: &[Argument])
        ensures
            argument_views(values@) == self@,
    {
        self.values.as_slice()
    }
}

/// What a `Token` stands for.
pub enum TokenView {
    Literal(Seq<char>),
    Comma,
    Dollar,
    Equals,
    QuotedString(Seq<char>),
    Plus,
    Minus,
}

/// A lexical unit of a command block.
#[derive(Debug, PartialEq, Clone)]
pub enum Token {
    /// A run of letters and digits, possibly led by an underscore.
    Literal(String),
    Comma,
    /// The delimiter that opens and closes a command block.
    Dollar,
    Equals,
    /// The characters between two double quotes, taken as they are.
    QuotedString(String),
    Plus,
    Minus,
}

impl View for Token {
    type V = TokenView;

    open spec fn view(&self) -> TokenView {
        match *self {
            Token::Literal(s) => TokenView::Literal(s@),
            Token::Comma => TokenView::Comma,
            Token::Dollar => TokenView::Dollar,
            Token::Equals => TokenView::Equals,
            Token::QuotedString(s) => TokenView::QuotedString(s@),
            Token::Plus => TokenView::Plus,
            Token::Minus => TokenView::Minus,
        }
    }
}

impl Token {
    /// A token that stands for the same as `self`.
    pub fn duplicate(&self) -> (copy: Token)
        ensures
            copy@ == self@,
    {
        match self {
            Token::Literal(s) => Token::Literal(s.clone()),
            Token::Comma => Token::Comma,
            Token::Dollar => Token::Dollar,
            Token::Equals => Token::Equals,
            Token::QuotedString(s) => Token::QuotedString(s.clone()),
            Token::Plus => Token::Plus,
            Token::Minus => Token::Minus,
        }
    }
}

/// The views of a sequence of tokens, in the same order.
pub open spec fn token_views(tokens: Seq<Token>) -> Seq<TokenView> {
    tokens.map_values(|t: Token| t@)
}

/// Why a command block could not be turned into tokens.
#[derive(Debug, PartialEq, Eq, Clone, Copy)]
pub enum LexError {
    /// A character that begins no token.
    UnexpectedCharacter(char),
    /// The input ended inside a command block.
    UnexpectedEndOfStream,
    /// The input does not begin with the delimiter.
    DollarExpected,
}

/// What a `ParseError` stands for.
pub enum ParseErrorView {
    GeneralError,
    ExpectedTokenError(TokenView),
    UnexpectedTokenError(TokenView),
    UnexpectedEOF,
    DocError(DocumentErrorView),
    LexError(LexError),
}

/// Why a document could not be parsed.
#[derive(Debug, PartialEq)]
pub enum ParseError {
    /// Kept for callers that match on it; the parser never returns it.
    GeneralError,
    /// The token that the grammar needed at a place where it was missing.
    ExpectedTokenError(Token),
    /// A token that the grammar cannot take at its place.
    UnexpectedTokenError(Token),
    /// A command block was opened and the input ended before it was closed.
    UnexpectedEOF,
    /// The command is well formed and its code is not known.
    DocError(DocumentError),
    /// The command block holds something that is no token.
    LexError(LexError),
}

impl View for ParseError {
    type V = ParseErrorView;

    open spec fn view(&self) -> ParseErrorView {
        match *self {
            ParseError::GeneralError => ParseErrorView::GeneralError,
            ParseError::ExpectedTokenError(t) => ParseErrorView::ExpectedTokenError(t@),
            ParseError::UnexpectedTokenError(t) => ParseErrorView::UnexpectedTokenError(t@),
            ParseError::UnexpectedEOF => ParseErrorView::UnexpectedEOF,
            ParseError::DocError(e) => ParseErrorView::DocError(e@),
            ParseError::LexError(e) => ParseErrorView::LexError(e),
        }
    }
}

/// What the lexer makes of a stream: the tokens or the error, and the index at
/// which it leaves the cursor.
pub struct LexOutcome {
    pub result: Result<Seq<TokenView>, LexError>,
    pub end: int,
}

/// `rest` with `tokens` put in front of the tokens it holds, if it holds any.
pub open spec fn lex_prepend(tokens: Seq<TokenView>, rest: LexOutcome) -> LexOutcome {
    LexOutcome {
        result: match rest.result {
            Ok(ts) => Ok(tokens + ts),
            Err(e) => Err(e),
        },
        end: rest.end,
    }
}

/// The first index at or after `from` whose character does not continue a
/// literal, or the length of `s` when every character from `from` on does.
pub open spec fn literal_end(s: Seq<char>, from: int) -> int
    decreases s.len() - from,
{
    if from >= s.len() {
        s.len() as int
    } else if !continues_literal(s[from]) {
        from
    } else {
        literal_end(s, from + 1)
    }
}

/// `literal_end` stays within the sequence, skips only characters that
/// continue a literal, and rests on one that does not unless it ran to the end.
pub proof fn lemma_literal_end(s: Seq<char>, from: int)
    requires
        0 <= from <= s.len(),
    ensures
        from <= literal_end(s, from) <= s.len(),
        forall|i: int| from <= i < literal_end(s, from) ==> continues_literal(s[i]),
        literal_end(s, from) < s.len() ==> !continues_literal(s[literal_end(s, from)]),
    decreases s.len() - from,
{
    if from < s.len() && continues_literal(s[from]) {
        lemma_literal_end(s, from + 1);
    }
}

/// The tokens of a command block whose opening delimiter has been read, from
/// index `pos` up to and including the closing delimiter.
///
/// - `$` closes the block and ends the tokens; nothing after it is read.
/// - `=`, `,`, `+` and `-` are tokens of their own.
/// - A character that starts a literal begins one that runs on while the
///   characters continue it. The input must not end on a literal.
/// - `"` begins a quoted string, which holds every character up to the next
///   `"` as it is. The input must not end before that.
/// - Any other character is an error, and the end of the input is one too.
///
/// On an error the cursor rests behind the offending character, or at the end
/// of the input.
pub open spec fn lex_tokens(s: Seq<char>, pos: int) -> LexOutcome
    decreases s.len() - pos,
{
    if pos < 0 || pos >= s.len() {
        LexOutcome { result: Err(LexError::UnexpectedEndOfStream), end: s.len() as int }
    } else if s[pos] == '$' {
        LexOutcome { result: Ok(seq![TokenView::Dollar]), end: pos + 1 }
    } else if s[pos] == '=' {
        lex_prepend(seq![TokenView::Equals], lex_tokens(s, pos + 1))
    } else if s[pos] == ',' {
        lex_prepend(seq![TokenView::Comma], lex_tokens(s, pos + 1))
    } else if s[pos] == '+' {
        lex_prepend(seq![TokenView::Plus], lex_tokens(s, pos + 1))
    } else if s[pos] == '-' {
        lex_prepend(seq![TokenView::Minus], lex_tokens(s, pos + 1))
    } else if starts_literal(s[pos]) {
        let end = literal_end(s, pos + 1);
        if end >= s.len() {
            LexOutcome { result: Err(LexError::UnexpectedEndOfStream), end: s.len() as int }
        } else {
            proof {
                lemma_literal_end(s, pos + 1);
            }
            lex_prepend(seq![TokenView::Literal(s.subrange(pos, end))], lex_tokens(s, end))
        }
    } else if s[pos] == '"' {
        let close = index_of_from(s, '"', pos + 1);
        if close >= s.len() {
            LexOutcome { result: Err(LexError::UnexpectedEndOfStream), end: s.len() as int }
        } else {
            proof {
                lemma_index_of_from(s, '"', pos + 1);
            }
            lex_prepend(
                seq![TokenView::QuotedString(s.subrange(pos + 1, close))],
                lex_tokens(s, close + 1),
            )
        }
    } else {
        LexOutcome { result: Err(LexError::UnexpectedCharacter(s[pos])), end: pos + 1 }
    }
}

/// The tokens of the command block that starts at index `pos` of `s`, both
/// delimiters included. A stream that does not start with the delimiter, the
/// empty stream among them, is refused before anything else is looked at.
pub open spec fn lex_block(s: Seq<char>, pos: int) -> LexOutcome {
    if pos < 0 || pos >= s.len() {
        LexOutcome { result: Err(LexError::DollarExpected), end: pos }
    } else if s[pos] != '$' {
        LexOutcome { result: Err(LexError::DollarExpected), end: pos + 1 }
    } else {
        lex_prepend(seq![TokenView::Dollar], lex_tokens(s, pos + 1))
    }
}

/// Tokens or a lexer error, the tokens seen through their views.
pub open spec fn lexed_view(r: Result<Vec<Token>, LexError>) -> Result<Seq<TokenView>, LexError> {
    match r {
        Ok(tokens) => Ok(token_views(tokens@)),
        Err(e) => Err(e),
    }
}

/// Putting a token behind the tokens in front is the same as putting it in
/// front of the tokens behind.
pub proof fn lemma_lex_prepend_push(tokens: Seq<TokenView>, t: TokenView, rest: LexOutcome)
    ensures
        lex_prepend(tokens, lex_prepend(seq![t], rest)) == lex_prepend(tokens.push(t), rest),
{
    match rest.result {
        Ok(ts) => {
            assert(tokens + (seq![t] + ts) =~= tokens.push(t) + ts);
        },
        Err(_) => {},
    }
}

/// The views of a sequence with one more token are the views with one more
/// view.
pub proof fn lemma_token_views_push(tokens: Seq<Token>, t: Token)
    ensures
        token_views(tokens.push(t)) == token_views(tokens).push(t@),
{
    assert(token_views(tokens.push(t)) =~= token_views(tokens).push(t@));
}

/// Turns the command block at the cursor into tokens, and leaves the cursor
/// behind the closing delimiter. The first and the last token are the two
/// delimiters.
pub fn lex(cursor: &mut CharCursor) -> (r: Result<Vec<Token>, LexError>)
    ensures
        final(cursor).chars() == old(cursor).chars(),
        final(cursor).pos() == lex_block(old(cursor).chars(), old(cursor).pos()).end,
        lexed_view(r) == lex_block(old(cursor).chars(), old(cursor).pos()).result,
{
    let ghost s = cursor.chars();
    let ghost start = cursor.pos();
    let mut result: Vec<Token> = Vec::new();

    match cursor.next() {
        None => {
            return Err(LexError::DollarExpected);
        },
        Some(c) => {
            if c != '$' {
                return Err(LexError::DollarExpected);
            }
        },
    }
    result.push(Token::Dollar);
    assert(token_views(result@) =~= seq![TokenView::Dollar]);

    loop
        invariant
            s == old(cursor).chars(),
            start == old(cursor).pos(),
            cursor.chars() == s,
            0 <= cursor.pos() <= s.len(),
            lex_prepend(token_views(result@), lex_tokens(s, cursor.pos())) == lex_block(s, start),
        decreases s.len() - cursor.pos(),
    {
        let ghost at = cursor.pos();
        let ghost before = token_views(result@);
        let c = match cursor.next() {
            None => {
                return Err(LexError::UnexpectedEndOfStream);
            },
            Some(c) => c,
        };
        if c == '$' {
            proof {
                lemma_token_views_push(result@, Token::Dollar);
                assert(before + seq![TokenView::Dollar] =~= before.push(TokenView::Dollar));
            }
            result.push(Token::Dollar);
            return Ok(result);
        } else if c == '=' {
            let token = Token::Equals;
            proof {
                lemma_lex_prepend_push(before, token@, lex_tokens(s, at + 1));
                lemma_token_views_push(result@, token);
            }
            result.push(token);
        } else if c == ',' {
            let token = Token::Comma;
            proof {
                lemma_lex_prepend_push(before, token@, lex_tokens(s, at + 1));
                lemma_token_views_push(result@, token);
            }
            result.push(token);
        } else if c == '+' {
            let token = Token::Plus;
            proof {
                lemma_lex_prepend_push(before, token@, lex_tokens(s, at + 1));
                lemma_token_views_push(result@, token);
            }
            result.push(token);
        } else if c == '-' {
            let token = Token::Minus;
            proof {
                lemma_lex_prepend_push(before, token@, lex_tokens(s, at + 1));
                lemma_token_views_push(result@, token);
            }
            result.push(token);
        } else if char_starts_literal(c) {
            let mut literal = String::new();
            literal.push(c);
            assert(literal@ =~= s.subrange(at, at + 1));
            loop
                invariant_except_break
                    literal_end(s, at + 1) == literal_end(s, cursor.pos()),
                invariant
                    s == old(cursor).chars(),
                    start == old(cursor).pos(),
                    cursor.chars() == s,
                    0 <= at < cursor.pos() <= s.len(),
                    literal@ == s.subrange(at, cursor.pos()),
                    literal_end(s, at + 1) >= s.len() ==> lex_block(s, start).result == Err::<
                        Seq<TokenView>,
                        LexError,
                    >(LexError::UnexpectedEndOfStream) && lex_block(s, start).end == s.len(),
                ensures
                    cursor.chars() == s,
                    at < cursor.pos() < s.len(),
                    cursor.pos() == literal_end(s, at + 1),
                    literal@ == s.subrange(at, cursor.pos()),
                decreases s.len() - cursor.pos(),
            {
                let ghost here = cursor.pos();
                match cursor.peek() {
                    None => {
                        return Err(LexError::UnexpectedEndOfStream);
                    },
                    Some(ch) => {
                        if !char_continues_literal(ch) {
                            break ;
                        }
                        let _ = cursor.next();
                        literal.push(ch);
                        assert(literal@ =~= s.subrange(at, here + 1));
                    },
                }
            }
            let token = Token::Literal(literal);
            proof {
                lemma_lex_prepend_push(before, token@, lex_tokens(s, cursor.pos()));
                lemma_token_views_push(result@, token);
            }
            result.push(token);
        } else if c == '"' {
            let mut quoted_string = String::new();
            assert(quoted_string@ =~= s.subrange(at + 1, at + 1));
            loop
                invariant_except_break
                    quoted_string@ == s.subrange(at + 1, cursor.pos()),
                    index_of_from(s, '"', at + 1) == index_of_from(s, '"', cursor.pos()),
                invariant
                    s == old(cursor).chars(),
                    start == old(cursor).pos(),
                    cursor.chars() == s,
                    0 <= at < cursor.pos() <= s.len(),
                    index_of_from(s, '"', at + 1) >= s.len() ==> lex_block(s, start).result == Err::<
                        Seq<TokenView>,
                        LexError,
                    >(LexError::UnexpectedEndOfStream) && lex_block(s, start).end == s.len(),
                ensures
                    cursor.chars() == s,
                    at + 1 < cursor.pos() <= s.len(),
                    cursor.pos() == index_of_from(s, '"', at + 1) + 1,
                    quoted_string@ == s.subrange(at + 1, cursor.pos() - 1),
                decreases s.len() - cursor.pos(),
            {
                let ghost here = cursor.pos();
                match cursor.next() {
                    None => {
                        return Err(LexError::UnexpectedEndOfStream);
                    },
                    Some(ch) => {
                        if ch == '"' {
                            break ;
                        }
                        quoted_string.push(ch);
                        assert(quoted_string@ =~= s.subrange(at + 1, here + 1));
                    },
                }
            }
            let token = Token::QuotedString(quoted_string);
            proof {
                lemma_lex_prepend_push(before, token@, lex_tokens(s, cursor.pos()));
                lemma_token_views_push(result@, token);
            }
            result.push(token);
        } else {
            return Err(LexError::UnexpectedCharacter(c));
        }
    }
}

impl From<DocumentError> for ParseError {
    fn from(err: DocumentError) -> (e: Self) {
        ParseError::DocError(err)
    }
}

impl vstd::std_specs::convert::FromSpecImpl<DocumentError> for ParseError {
    open spec fn obeys_from_spec() -> bool {
        true
    }

    open spec fn from_spec(err: DocumentError) -> ParseError {
        ParseError::DocError(err)
    }
}

/// What the scanner makes of one piece of a document: the entry or the error,
/// and the index at which it leaves the cursor.
pub struct ReadOutcome {
    pub result: Result<DocumentEntryView, ParseErrorView>,
    pub end: int,
}

/// The entry of a run of plain text: a text entry without flags and without
/// arguments.
pub open spec fn text_entry() -> DocumentEntryView {
    DocumentEntryView::Text(Seq::empty(), Seq::empty())
}

/// The run of plain text at index `pos` of `s`: it ends in front of the next
/// delimiter, or at the end of the input.
pub open spec fn text_at(s: Seq<char>, pos: int) -> ReadOutcome {
    ReadOutcome { result: Ok(text_entry()), end: index_of_from(s, '$', pos) }
}

/// What a command block stands for in a document: its entry, or the one error
/// that tells why there is none.
pub open spec fn block_entry(block: Seq<char>) -> Result<DocumentEntryView, ParseErrorView> {
    match command_entry(block) {
        Ok(Ok(entry)) => Ok(entry),
        Ok(Err(e)) => Err(ParseErrorView::DocError(e)),
        Err(e) => Err(e),
    }
}

/// The command block at index `pos` of `s`: it runs from the delimiter at
/// `pos` to the next delimiter, both included. Without a delimiter at `pos`
/// nothing is read; without a second one the block was never closed, and the
/// rest of the input is used up.
pub open spec fn command_at(s: Seq<char>, pos: int) -> ReadOutcome {
    if pos < 0 || pos >= s.len() || s[pos] != '$' {
        ReadOutcome {
            result: Err(ParseErrorView::ExpectedTokenError(TokenView::Dollar)),
            end: pos,
        }
    } else {
        let close = index_of_from(s, '$', pos + 1);
        if close >= s.len() {
            ReadOutcome { result: Err(ParseErrorView::UnexpectedEOF), end: s.len() as int }
        } else {
            ReadOutcome { result: block_entry(s.subrange(pos, close + 1)), end: close + 1 }
        }
    }
}

/// `rest` with `entries` put in front of the entries it holds, if it holds
/// any.
pub open spec fn prepend_entries(
    entries: Seq<DocumentEntryView>,
    rest: Result<Seq<DocumentEntryView>, ParseErrorView>,
) -> Result<Seq<DocumentEntryView>, ParseErrorView> {
    match rest {
        Ok(more) => Ok(entries + more),
        Err(e) => Err(e),
    }
}

/// The piece of a document that starts at index `pos`: a command block where
/// a delimiter stands there, a run of plain text otherwise.
pub open spec fn piece_at(s: Seq<char>, pos: int) -> ReadOutcome {
    if 0 <= pos < s.len() && s[pos] == '$' {
        command_at(s, pos)
    } else {
        text_at(s, pos)
    }
}

/// A piece that starts inside the input ends behind its start, and inside the
/// input or at its end.
pub proof fn lemma_piece_advances(s: Seq<char>, pos: int)
    requires
        0 <= pos < s.len(),
    ensures
        pos < piece_at(s, pos).end <= s.len(),
{
    lemma_index_of_from(s, '$', pos + 1);
}

/// The entries of the part of a document that starts at index `pos`, piece by
/// piece in the order of the input. The first error ends it all, and nothing
/// is kept of the entries before it.
pub open spec fn parse_from(s: Seq<char>, pos: int) -> Result<Seq<DocumentEntryView>, ParseErrorView>
    decreases s.len() - pos,
{
    if pos < 0 || pos >= s.len() {
        Ok(Seq::empty())
    } else {
        match piece_at(s, pos).result {
            Err(e) => Err(e),
            Ok(entry) => {
                proof {
                    lemma_piece_advances(s, pos);
                }
                prepend_entries(seq![entry], parse_from(s, piece_at(s, pos).end))
            },
        }
    }
}

/// The entries of a whole document, in the order of the input, or the first
/// error in it.
pub open spec fn parse_document(s: Seq<char>) -> Result<Seq<DocumentEntryView>, ParseErrorView> {
    parse_from(s, 0)
}

/// The spans into which the scanner cuts the part of a document that starts
/// at index `pos`: the characters of its pieces, in the order of the input.
pub open spec fn spans_from(s: Seq<char>, pos: int) -> Seq<Seq<char>>
    decreases s.len() - pos,
{
    if pos < 0 || pos >= s.len() {
        Seq::empty()
    } else {
        proof {
            lemma_piece_advances(s, pos);
        }
        seq![s.subrange(pos, piece_at(s, pos).end)] + spans_from(s, piece_at(s, pos).end)
    }
}

/// The spans into which the scanner cuts a whole document.
pub open spec fn spans(s: Seq<char>) -> Seq<Seq<char>> {
    spans_from(s, 0)
}

/// Whether a span is a command block: it starts with a delimiter, ends with
/// another one, and holds none between them.
pub open spec fn is_block(span: Seq<char>) -> bool {
    &&& span.len() >= 2
    &&& span[0] == '$'
    &&& span[span.len() - 1] == '$'
    &&& forall|i: int| 0 < i < span.len() - 1 ==> span[i] != '$'
}

/// Whether a span is a run of plain text: it is not empty and holds no
/// delimiter.
pub open spec fn is_text_run(span: Seq<char>) -> bool {
    span.len() > 0 && forall|i: int| 0 <= i < span.len() ==> span[i] != '$'
}

/// Whether a span is a command block that was never closed: it starts with a
/// delimiter and holds no other.
pub open spec fn is_unclosed_block(span: Seq<char>) -> bool {
    &&& span.len() >= 1
    &&& span[0] == '$'
    &&& forall|i: int| 0 < i < span.len() ==> span[i] != '$'
}

/// What one span stands for, taken alone: a run of text is a text entry, a
/// command block is what its command resolves to, and a block that was never
/// closed is an error.
pub open spec fn span_entry(span: Seq<char>) -> Result<DocumentEntryView, ParseErrorView> {
    if span.len() > 0 && span[0] == '$' {
        if span.len() >= 2 && span[span.len() - 1] == '$' {
            block_entry(span)
        } else {
            Err(ParseErrorView::UnexpectedEOF)
        }
    } else {
        Ok(text_entry())
    }
}

/// The views of a sequence of entries, in the same order.
pub open spec fn entry_views(entries: Seq<DocumentEntry>) -> Seq<DocumentEntryView> {
    entries.map_values(|e: DocumentEntry| e@)
}

/// An entry or a parse error, seen through the views of both.
pub open spec fn read_view(r: Result<DocumentEntry, ParseError>) -> Result<
    DocumentEntryView,
    ParseErrorView,
> {
    match r {
        Ok(entry) => Ok(entry@),
        Err(e) => Err(e@),
    }
}

/// Entries or a parse error, seen through their views.
pub open spec fn parsed_view(r: Result<Vec<DocumentEntry>, ParseError>) -> Result<
    Seq<DocumentEntryView>,
    ParseErrorView,
> {
    match r {
        Ok(entries) => Ok(entry_views(entries@)),
        Err(e) => Err(e@),
    }
}

/// Reads the run of plain text at the cursor, up to the next delimiter or the
/// end of the input, and leaves the cursor there. The entry that stands for
/// the run holds neither flags nor arguments.
pub fn read_text(cursor: &mut CharCursor) -> (r: Result<DocumentEntry, ParseError>)
    ensures
        final(cursor).chars() == old(cursor).chars(),
        final(cursor).pos() == text_at(old(cursor).chars(), old(cursor).pos()).end,
        read_view(r) == text_at(old(cursor).chars(), old(cursor).pos()).result,
{
    let ghost s = cursor.chars();
    let ghost start = cursor.pos();
    let _ = cursor.position();
    loop
        invariant_except_break
            index_of_from(s, '$', start) == index_of_from(s, '$', cursor.pos()),
        invariant
            cursor.chars() == s,
            0 <= cursor.pos() <= s.len(),
        ensures
            cursor.pos() == index_of_from(s, '$', start),
        decreases s.len() - cursor.pos(),
    {
        match cursor.peek() {
            None => {
                break ;
            },
            Some(c) => {
                if c == '$' {
                    break ;
                }
            },
        }
        let _ = cursor.next();
    }
    Ok(DocumentEntry::Text(Flags::empty(), Arguments::empty()))
}

/// Reads the command block at the cursor, from its opening delimiter to its
/// closing one, and leaves the cursor behind it. The block is turned into
/// tokens, read as a command and resolved into its entry.
pub fn read_command(cursor: &mut CharCursor) -> (r: Result<DocumentEntry, ParseError>)
    ensures
        final(cursor).chars() == old(cursor).chars(),
        final(cursor).pos() == command_at(old(cursor).chars(), old(cursor).pos()).end,
        read_view(r) == command_at(old(cursor).chars(), old(cursor).pos()).result,
{
    let ghost s = cursor.chars();
    let ghost start = cursor.pos();
    let _ = cursor.position();
    match cursor.peek() {
        None => {
            return Err(ParseError::ExpectedTokenError(Token::Dollar));
        },
        Some(c) => {
            if c != '$' {
                return Err(ParseError::ExpectedTokenError(Token::Dollar));
            }
        },
    }
    let _ = cursor.next();
    let mut block: Vec<char> = Vec::new();
    block.push('$');
    assert(block@ =~= s.subrange(start, start + 1));
    loop
        invariant_except_break
            block@ == s.subrange(start, cursor.pos()),
            index_of_from(s, '$', start + 1) == index_of_from(s, '$', cursor.pos()),
        invariant
            s == old(cursor).chars(),
            start == old(cursor).pos(),
            cursor.chars() == s,
            0 <= start < cursor.pos() <= s.len(),
            s[start] == '$',
        ensures
            cursor.pos() == index_of_from(s, '$', start + 1) + 1,
            block@ == s.subrange(start, cursor.pos()),
        decreases s.len() - cursor.pos(),
    {
        let ghost here = cursor.pos();
        match cursor.next() {
            None => {
                return Err(ParseError::UnexpectedEOF);
            },
            Some(c) => {
                block.push(c);
                assert(block@ =~= s.subrange(start, here + 1));
                if c == '$' {
                    break ;
                }
            },
        }
    }
    match command_from_chars(block) {
        Ok(Ok(entry)) => Ok(entry),
        Ok(Err(e)) => Err(ParseError::from(e)),
        Err(e) => Err(e),
    }
}

/// Putting an entry behind the entries in front is the same as putting it in
/// front of the entries behind.
pub proof fn lemma_prepend_entries_push(
    entries: Seq<DocumentEntryView>,
    entry: DocumentEntryView,
    rest: Result<Seq<DocumentEntryView>, ParseErrorView>,
)
    ensures
        prepend_entries(entries, prepend_entries(seq![entry], rest)) == prepend_entries(
            entries.push(entry),
            rest,
        ),
{
    match rest {
        Ok(more) => {
            assert(entries + (seq![entry] + more) =~= entries.push(entry) + more);
        },
        Err(_) => {},
    }
}

/// Parses a whole document: plain text interleaved with command blocks. Each
/// run of text and each command becomes one entry, in the order of the input.
/// The first error ends the parse, and no entries are returned with it.
pub fn parse(str: &str) -> (r: Result<Vec<DocumentEntry>, ParseError>)
    ensures
        parsed_view(r) == parse_document(str@),
{
    let mut iterator = CharCursor::new(str);
    let mut result = Vec::<DocumentEntry>::new();
    let ghost s = str@;
    assert(entry_views(result@) =~= Seq::<DocumentEntryView>::empty());
    assert(Seq::<DocumentEntryView>::empty() + Seq::<DocumentEntryView>::empty() =~= Seq::<
        DocumentEntryView,
    >::empty());

    loop
        invariant
            s == str@,
            iterator.chars() == s,
            0 <= iterator.pos() <= s.len(),
            prepend_entries(entry_views(result@), parse_from(s, iterator.pos())) == parse_from(
                s,
                0,
            ),
        decreases s.len() - iterator.pos(),
    {
        let ghost at = iterator.pos();
        let ch = match iterator.peek() {
            Some(ch) => ch,
            None => {
                assert(entry_views(result@) + Seq::<DocumentEntryView>::empty() =~= entry_views(
                    result@,
                ));
                return Ok(result);
            },
        };
        let read = if ch == '$' {
            read_command(&mut iterator)
        } else {
            read_text(&mut iterator)
        };
        let entry = match read {
            Err(e) => {
                return Err(e);
            },
            Ok(entry) => entry,
        };
        proof {
            lemma_index_of_from(s, '$', at + 1);
            lemma_prepend_entries_push(
                entry_views(result@),
                entry@,
                parse_from(s, iterator.pos()),
            );
            assert(entry_views(result@.push(entry)) =~= entry_views(result@).push(entry@));
        }
        result.push(entry);
    }
}

/// The views of a sequence of strings, in the same order.
pub open spec fn string_views(strings: Seq<String>) -> Seq<Seq<char>> {
    strings.map_values(|s: String| s@)
}

/// Cuts a document into its spans: the runs of plain text and the command
/// blocks, in the order of the input. Nothing is parsed: a block is taken from
/// its opening delimiter to the next delimiter, whatever it holds, and a last
/// block that was never closed takes the rest of the input. Where `parse`
/// succeeds, its entry at an index stands for the span at that index.
pub fn source_spans(str: &str) -> (pieces: Vec<String>)
    ensures
        string_views(pieces@) == spans(str@),
{
    let mut cursor = CharCursor::new(str);
    let mut pieces: Vec<String> = Vec::new();
    let ghost s = str@;
    assert(string_views(pieces@) =~= Seq::<Seq<char>>::empty());
    assert(Seq::<Seq<char>>::empty() + spans_from(s, 0) =~= spans_from(s, 0));
    loop
        invariant
            s == str@,
            cursor.chars() == s,
            0 <= cursor.pos() <= s.len(),
            string_views(pieces@) + spans_from(s, cursor.pos()) == spans(s),
        decreases s.len() - cursor.pos(),
    {
        let ghost at = cursor.pos();
        let first = match cursor.next() {
            Some(c) => c,
            None => {
                assert(string_views(pieces@) + Seq::<Seq<char>>::empty() =~= string_views(
                    pieces@,
                ));
                return pieces;
            },
        };
        let in_block = first == '$';
        let mut piece = String::new();
        piece.push(first);
        assert(piece@ =~= s.subrange(at, at + 1));
        proof {
            lemma_index_of_from(s, '$', at + 1);
        }
        loop
            invariant_except_break
                index_of_from(s, '$', at + 1) == index_of_from(s, '$', cursor.pos()),
            invariant
                cursor.chars() == s,
                0 <= at < cursor.pos() <= s.len(),
                in_block == (s[at] == '$'),
                piece@ == s.subrange(at, cursor.pos()),
            ensures
                cursor.pos() == piece_at(s, at).end,
            decreases s.len() - cursor.pos(),
        {
            let ghost here = cursor.pos();
            match cursor.peek() {
                None => {
                    break ;
                },
                Some(c) => {
                    if c == '$' && !in_block {
                        break ;
                    }
                    let _ = cursor.next();
                    piece.push(c);
                    assert(piece@ =~= s.subrange(at, here + 1));
                    if c == '$' {
                        break ;
                    }
                },
            }
        }
        proof {
            let before = string_views(pieces@);
            let rest = spans_from(s, cursor.pos());
            assert(string_views(pieces@.push(piece)) =~= before.push(piece@));
            assert(before + (seq![piece@] + rest) =~= before.push(piece@) + rest);
        }
        pieces.push(piece);
    }
}

} // verus!
