//! The grammar of a command block, over the tokens of the lexer.
//!
//! ```text
//! command = "$" code flag* arg* "$"
//! code    = WORD
//! flag    = ("+" | "-") WORD
//! arg     = "," WORD "=" value
//!         | "," "=" value
//!         | "," value
//! value   = WORD | QUOTED
//! ```
//!
//! `WORD` is a literal of one or more upper-case ASCII letters and `QUOTED` is
//! a quoted string. An argument is keyed where a word and `=` come before its
//! value. Flags and arguments are kept in the order in which they are written,
//! repeated codes and keys included.

use vstd::prelude::*;
use crate::cursor::CharCursor;
use crate::document::{resolve, DocumentEntry, DocumentEntryView, DocumentError, DocumentErrorView};
use crate::parser::{
    argument_views,
    flag_views,
    lex,
    lex_block,
    token_views,
    Argument,
    ArgumentView,
    Arguments,
    Flag,
    FlagView,
    Flags,
    LexError,
    ParseError,
    ParseErrorView,
    Token,
    TokenView,
};
use crate::text::{is_upper_word, str_is_upper_word};

verus! {

/// What a `Command` stands for.
pub struct CommandView {
    pub code: Seq<char>,
    pub flags: Seq<FlagView>,
    pub args: Seq<ArgumentView>,
}

/// One command block as it was written: its code, flags and arguments, before
/// the code is looked up.
#[derive(Debug, PartialEq)]
pub struct Command {
    pub code: String,
    pub flags: Flags,
    pub args: Arguments,
}

impl View for Command {
    type V = CommandView;

    open spec fn view(&self) -> CommandView {
        CommandView { code: self.code@, flags: self.flags@, args: self.args@ }
    }
}

/// The word at index `i`: a literal of upper-case letters. Another token there
/// is unexpected, and so is the end of the tokens.
pub open spec fn word_at(ts: Seq<TokenView>, i: int) -> Result<Seq<char>, ParseErrorView> {
    if i < 0 || i >= ts.len() {
        Err(ParseErrorView::UnexpectedEOF)
    } else {
        match ts[i] {
            TokenView::Literal(w) => if is_upper_word(w) {
                Ok(w)
            } else {
                Err(ParseErrorView::UnexpectedTokenError(ts[i]))
            },
            _ => Err(ParseErrorView::UnexpectedTokenError(ts[i])),
        }
    }
}

/// The value at index `i`: a word, or a quoted string with whatever it holds.
pub open spec fn value_at(ts: Seq<TokenView>, i: int) -> Result<Seq<char>, ParseErrorView> {
    if i < 0 || i >= ts.len() {
        Err(ParseErrorView::UnexpectedEOF)
    } else {
        match ts[i] {
            TokenView::QuotedString(v) => Ok(v),
            _ => word_at(ts, i),
        }
    }
}

/// `rest` with `items` put in front of the items it holds, if it holds any.
pub open spec fn prepend_items<T>(
    items: Seq<T>,
    rest: Result<(Seq<T>, int), ParseErrorView>,
) -> Result<(Seq<T>, int), ParseErrorView> {
    match rest {
        Ok((more, next)) => Ok((items + more, next)),
        Err(e) => Err(e),
    }
}

/// Whether a flag starts at index `pos`.
pub open spec fn flag_starts(ts: Seq<TokenView>, pos: int) -> bool {
    0 <= pos < ts.len() && (ts[pos] is Plus || ts[pos] is Minus)
}

/// The flags that start at index `pos`, as many as follow one another, and the
/// index of the first token behind them.
pub open spec fn flags_from(ts: Seq<TokenView>, pos: int) -> Result<(Seq<FlagView>, int), ParseErrorView>
    decreases ts.len() - pos,
{
    if flag_starts(ts, pos) {
        match word_at(ts, pos + 1) {
            Err(e) => Err(e),
            Ok(code) => prepend_items(
                seq![FlagView { enabled: ts[pos] is Plus, code }],
                flags_from(ts, pos + 2),
            ),
        }
    } else {
        Ok((Seq::empty(), pos))
    }
}

/// Whether the argument whose comma is at index `pos` is written with a key.
pub open spec fn arg_is_keyed(ts: Seq<TokenView>, pos: int) -> bool {
    pos + 2 < ts.len() && ts[pos + 1] is Literal && ts[pos + 2] is Equals
}

/// The argument whose comma is at index `pos`, and the index of the first
/// token behind it.
pub open spec fn arg_at(ts: Seq<TokenView>, pos: int) -> Result<(ArgumentView, int), ParseErrorView> {
    if pos + 1 >= ts.len() {
        Err(ParseErrorView::UnexpectedEOF)
    } else if ts[pos + 1] is Equals {
        match value_at(ts, pos + 2) {
            Err(e) => Err(e),
            Ok(value) => Ok((ArgumentView { key: None, value }, pos + 3)),
        }
    } else if arg_is_keyed(ts, pos) {
        match word_at(ts, pos + 1) {
            Err(e) => Err(e),
            Ok(key) => match value_at(ts, pos + 3) {
                Err(e) => Err(e),
                Ok(value) => Ok((ArgumentView { key: Some(key), value }, pos + 4)),
            },
        }
    } else {
        match value_at(ts, pos + 1) {
            Err(e) => Err(e),
            Ok(value) => Ok((ArgumentView { key: None, value }, pos + 2)),
        }
    }
}

/// The arguments that start at index `pos`, as many as follow one another, and
/// the index of the first token behind them.
pub open spec fn args_from(ts: Seq<TokenView>, pos: int) -> Result<(Seq<ArgumentView>, int), ParseErrorView>
    decreases ts.len() - pos,
{
    if 0 <= pos < ts.len() && ts[pos] is Comma {
        match arg_at(ts, pos) {
            Err(e) => Err(e),
            Ok((arg, next)) => prepend_items(seq![arg], args_from(ts, next)),
        }
    } else {
        Ok((Seq::empty(), pos))
    }
}

/// The command that the tokens of one block spell.
///
/// The first token must be the delimiter. Then come the code, the flags and
/// the arguments, then the closing delimiter, and nothing behind it. A token
/// that does not fit is handed back as unexpected; where the tokens end too
/// early, the block was never closed.
pub open spec fn command_of(ts: Seq<TokenView>) -> Result<CommandView, ParseErrorView> {
    if ts.len() == 0 || !(ts[0] is Dollar) {
        Err(ParseErrorView::ExpectedTokenError(TokenView::Dollar))
    } else {
        match word_at(ts, 1) {
            Err(e) => Err(e),
            Ok(code) => match flags_from(ts, 2) {
                Err(e) => Err(e),
                Ok((flags, after_flags)) => match args_from(ts, after_flags) {
                    Err(e) => Err(e),
                    Ok((args, close)) => if close >= ts.len() {
                        Err(ParseErrorView::UnexpectedEOF)
                    } else if !(ts[close] is Dollar) {
                        Err(ParseErrorView::UnexpectedTokenError(ts[close]))
                    } else if close + 1 < ts.len() {
                        Err(ParseErrorView::UnexpectedTokenError(ts[close + 1]))
                    } else {
                        Ok(CommandView { code, flags, args })
                    },
                },
            },
        }
    }
}

/// A string or a parse error, seen through the views of both.
pub open spec fn text_view(r: Result<String, ParseError>) -> Result<Seq<char>, ParseErrorView> {
    match r {
        Ok(s) => Ok(s@),
        Err(e) => Err(e@),
    }
}

/// The flags read so far and the index behind them, or a parse error, seen
/// through their views.
pub open spec fn flags_view(r: Result<(Vec<Flag>, usize), ParseError>) -> Result<
    (Seq<FlagView>, int),
    ParseErrorView,
> {
    match r {
        Ok((flags, next)) => Ok((flag_views(flags@), next as int)),
        Err(e) => Err(e@),
    }
}

/// The arguments read so far and the index behind them, or a parse error, seen
/// through their views.
pub open spec fn args_view(r: Result<(Vec<Argument>, usize), ParseError>) -> Result<
    (Seq<ArgumentView>, int),
    ParseErrorView,
> {
    match r {
        Ok((args, next)) => Ok((argument_views(args@), next as int)),
        Err(e) => Err(e@),
    }
}

/// A command or a parse error, seen through the views of both.
pub open spec fn command_view(r: Result<Command, ParseError>) -> Result<CommandView, ParseErrorView> {
    match r {
        Ok(command) => Ok(command@),
        Err(e) => Err(e@),
    }
}

/// Putting an item behind the items in front is the same as putting it in
/// front of the items behind.
pub proof fn lemma_prepend_items_push<T>(
    items: Seq<T>,
    item: T,
    rest: Result<(Seq<T>, int), ParseErrorView>,
)
    ensures
        prepend_items(items, prepend_items(seq![item], rest)) == prepend_items(
            items.push(item),
            rest,
        ),
{
    match rest {
        Ok((more, _)) => {
            assert(items + (seq![item] + more) =~= items.push(item) + more);
        },
        Err(_) => {},
    }
}

/// Reads the word at index `i`.
fn word(tokens: &Vec<Token>, i: usize) -> (r: Result<String, ParseError>)
    ensures
        text_view(r) == word_at(token_views(tokens@), i as int),
{
    if i >= tokens.len() {
        return Err(ParseError::UnexpectedEOF);
    }
    match &tokens[i] {
        Token::Literal(w) => {
            if str_is_upper_word(w.as_str()) {
                Ok(w.clone())
            } else {
                Err(ParseError::UnexpectedTokenError(tokens[i].duplicate()))
            }
        },
        _ => Err(ParseError::UnexpectedTokenError(tokens[i].duplicate())),
    }
}

/// Reads the value at index `i`.
fn value(tokens: &Vec<Token>, i: usize) -> (r: Result<String, ParseError>)
    ensures
        text_view(r) == value_at(token_views(tokens@), i as int),
{
    if i >= tokens.len() {
        return Err(ParseError::UnexpectedEOF);
    }
    match &tokens[i] {
        Token::QuotedString(v) => Ok(v.clone()),
        _ => word(tokens, i),
    }
}

/// Reads the flags that start at index `pos`.
fn flag_list(tokens: &Vec<Token>, pos: usize) -> (r: Result<(Vec<Flag>, usize), ParseError>)
    ensures
        flags_view(r) == flags_from(token_views(tokens@), pos as int),
        r matches Ok((_, next)) ==> pos <= next <= tokens.len() || pos == next,
{
    let ghost ts = token_views(tokens@);
    let mut flags: Vec<Flag> = Vec::new();
    let mut at: usize = pos;
    assert(flag_views(flags@) =~= Seq::<FlagView>::empty());
    assert(Seq::<FlagView>::empty() + Seq::<FlagView>::empty() =~= Seq::<FlagView>::empty());
    loop
        invariant
            ts == token_views(tokens@),
            pos <= at,
            at <= tokens.len() || at == pos,
            prepend_items(flag_views(flags@), flags_from(ts, at as int)) == flags_from(
                ts,
                pos as int,
            ),
        decreases tokens.len() - at,
    {
        if at >= tokens.len() {
            assert(flag_views(flags@) + Seq::<FlagView>::empty() =~= flag_views(flags@));
            return Ok((flags, at));
        }
        let enabled = match &tokens[at] {
            Token::Plus => true,
            Token::Minus => false,
            _ => {
                assert(flag_views(flags@) + Seq::<FlagView>::empty() =~= flag_views(flags@));
                return Ok((flags, at));
            },
        };
        let code = match word(tokens, at + 1) {
            Err(e) => {
                return Err(e);
            },
            Ok(code) => code,
        };
        proof {
            reveal_strlit("+");
            reveal_strlit("-");
            assert("+"@ =~= seq!['+']);
            assert("-"@[0] == '-' && seq!['+'][0] == '+');
        }
        let flag = Flag::new(if enabled { "+" } else { "-" }, code.as_str());
        proof {
            lemma_prepend_items_push(flag_views(flags@), flag@, flags_from(ts, at + 2));
            assert(flag_views(flags@.push(flag)) =~= flag_views(flags@).push(flag@));
        }
        flags.push(flag);
        at = at + 2;
    }
}

/// Reads the arguments that start at index `pos`.
fn arg_list(tokens: &Vec<Token>, pos: usize) -> (r: Result<(Vec<Argument>, usize), ParseError>)
    ensures
        args_view(r) == args_from(token_views(tokens@), pos as int),
        r matches Ok((_, next)) ==> pos <= next <= tokens.len() || pos == next,
{
    let ghost ts = token_views(tokens@);
    let mut args: Vec<Argument> = Vec::new();
    let mut at: usize = pos;
    assert(argument_views(args@) =~= Seq::<ArgumentView>::empty());
    assert(Seq::<ArgumentView>::empty() + Seq::<ArgumentView>::empty() =~= Seq::<
        ArgumentView,
    >::empty());
    loop
        invariant
            ts == token_views(tokens@),
            pos <= at,
            at <= tokens.len() || at == pos,
            prepend_items(argument_views(args@), args_from(ts, at as int)) == args_from(
                ts,
                pos as int,
            ),
        decreases tokens.len() - at,
    {
        if at >= tokens.len() {
            assert(argument_views(args@) + Seq::<ArgumentView>::empty() =~= argument_views(args@));
            return Ok((args, at));
        }
        match &tokens[at] {
            Token::Comma => {},
            _ => {
                assert(argument_views(args@) + Seq::<ArgumentView>::empty() =~= argument_views(
                    args@,
                ));
                return Ok((args, at));
            },
        }
        if at + 1 >= tokens.len() {
            return Err(ParseError::UnexpectedEOF);
        }
        let bare_equals = match &tokens[at + 1] {
            Token::Equals => true,
            _ => false,
        };
        let keyed = !bare_equals && at + 2 < tokens.len() && match (&tokens[at + 1], &tokens[at + 2]) {
            (Token::Literal(_), Token::Equals) => true,
            _ => false,
        };
        let (arg, next) = if bare_equals {
            match value(tokens, at + 2) {
                Err(e) => {
                    return Err(e);
                },
                Ok(v) => (Argument::new(None, v.as_str()), at + 3),
            }
        } else if keyed {
            let key = match word(tokens, at + 1) {
                Err(e) => {
                    return Err(e);
                },
                Ok(key) => key,
            };
            match value(tokens, at + 3) {
                Err(e) => {
                    return Err(e);
                },
                Ok(v) => (Argument::new(Some(key.as_str()), v.as_str()), at + 4),
            }
        } else {
            match value(tokens, at + 1) {
                Err(e) => {
                    return Err(e);
                },
                Ok(v) => (Argument::new(None, v.as_str()), at + 2),
            }
        };
        proof {
            lemma_prepend_items_push(argument_views(args@), arg@, args_from(ts, next as int));
            assert(argument_views(args@.push(arg)) =~= argument_views(args@).push(arg@));
        }
        args.push(arg);
        at = next;
    }
}

/// Reads the tokens of one command block as a command.
pub fn command_from_tokens(tokens: &Vec<Token>) -> (r: Result<Command, ParseError>)
    ensures
        command_view(r) == command_of(token_views(tokens@)),
{
    if tokens.len() == 0 {
        return Err(ParseError::ExpectedTokenError(Token::Dollar));
    }
    match &tokens[0] {
        Token::Dollar => {},
        _ => {
            return Err(ParseError::ExpectedTokenError(Token::Dollar));
        },
    }
    let code = match word(tokens, 1) {
        Err(e) => {
            return Err(e);
        },
        Ok(code) => code,
    };
    let (flags, after_flags) = match flag_list(tokens, 2) {
        Err(e) => {
            return Err(e);
        },
        Ok(found) => found,
    };
    let (args, close) = match arg_list(tokens, after_flags) {
        Err(e) => {
            return Err(e);
        },
        Ok(found) => found,
    };
    if close >= tokens.len() {
        return Err(ParseError::UnexpectedEOF);
    }
    match &tokens[close] {
        Token::Dollar => {},
        _ => {
            return Err(ParseError::UnexpectedTokenError(tokens[close].duplicate()));
        },
    }
    if close + 1 < tokens.len() {
        return Err(ParseError::UnexpectedTokenError(tokens[close + 1].duplicate()));
    }
    Ok(Command { code, flags: Flags::new(flags), args: Arguments::new(args) })
}

/// What one command block stands for, from its characters: the tokens of the
/// block, read as a command, resolved by the table. The block must end with
/// its closing delimiter: a character behind it is unexpected. The outer error
/// says that the block is no command; the inner one, that its code is not
/// known.
pub open spec fn command_entry(block: Seq<char>) -> Result<
    Result<DocumentEntryView, DocumentErrorView>,
    ParseErrorView,
> {
    let lexed = lex_block(block, 0);
    match lexed.result {
        Err(e) => Err(ParseErrorView::LexError(e)),
        Ok(ts) => if 0 <= lexed.end < block.len() {
            Err(ParseErrorView::LexError(LexError::UnexpectedCharacter(block[lexed.end])))
        } else {
            match command_of(ts) {
                Err(e) => Err(e),
                Ok(command) => Ok(resolve(command.code, command.flags, command.args)),
            }
        },
    }
}

/// An entry, a resolver error or a parse error, seen through their views.
pub open spec fn entry_view(r: Result<Result<DocumentEntry, DocumentError>, ParseError>) -> Result<
    Result<DocumentEntryView, DocumentErrorView>,
    ParseErrorView,
> {
    match r {
        Ok(Ok(entry)) => Ok(Ok(entry@)),
        Ok(Err(e)) => Ok(Err(e@)),
        Err(e) => Err(e@),
    }
}

/// Reads the whole input of a fresh cursor as one command block.
fn command_in(cursor: CharCursor) -> (r: Result<Result<DocumentEntry, DocumentError>, ParseError>)
    requires
        cursor.pos() == 0,
    ensures
        entry_view(r) == command_entry(cursor.chars()),
{
    let mut cursor = cursor;
    let tokens = match lex(&mut cursor) {
        Err(e) => {
            return Err(ParseError::LexError(e));
        },
        Ok(tokens) => tokens,
    };
    match cursor.peek() {
        Some(c) => {
            return Err(ParseError::LexError(LexError::UnexpectedCharacter(c)));
        },
        None => {},
    }
    let Command { code, flags, args } = match command_from_tokens(&tokens) {
        Err(e) => {
            return Err(e);
        },
        Ok(command) => command,
    };
    Ok(DocumentEntry::new(code.as_str(), flags, args))
}

/// Reads the characters of one command block, both delimiters included, as an
/// entry.
pub fn command_from_chars(block: Vec<char>) -> (r: Result<
    Result<DocumentEntry, DocumentError>,
    ParseError,
>)
    ensures
        entry_view(r) == command_entry(block@),
{
    command_in(CharCursor::from_chars(block))
}

/// Reads a string that holds one command block, both delimiters included, as
/// an entry.
pub fn command(input: &str) -> (r: Result<Result<DocumentEntry, DocumentError>, ParseError>)
    ensures
        entry_view(r) == command_entry(input@),
{
    command_in(CharCursor::new(input))
}

} // verus!
