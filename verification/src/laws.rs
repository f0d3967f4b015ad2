//! What holds of the parser on every input, proved over the functions that
//! its contracts are stated with.

use vstd::prelude::*;
use crate::cursor::{index_of_from, lemma_index_of_from};
use crate::document::{
    code_clear,
    code_foreground,
    code_text,
    is_recognized,
    resolve,
    DocumentEntryView,
    DocumentErrorView,
};
use crate::doldoc::{
    arg_at,
    args_from,
    command_entry,
    command_of,
    flags_from,
    value_at,
    word_at,
    CommandView,
};
use crate::parser::{
    command_at,
    is_block,
    is_text_run,
    is_unclosed_block,
    lemma_literal_end,
    lemma_piece_advances,
    lex_block,
    lex_tokens,
    literal_end,
    parse_document,
    parse_from,
    piece_at,
    span_entry,
    spans,
    spans_from,
    ArgumentView,
    FlagView,
    LexOutcome,
    ParseErrorView,
    TokenView,
};
use crate::text::{continues_literal, is_upper, is_upper_word, starts_literal};

verus! {

/// The characters of a command block that holds a code and nothing else.
pub open spec fn bare_command(code: Seq<char>) -> Seq<char> {
    seq!['$'] + code + seq!['$']
}

/// Where every character from `from` up to `to` continues a literal and the
/// one at `to`, if there is one, does not, a literal that reaches `from` ends
/// at `to`.
pub proof fn lemma_literal_end_of_run(s: Seq<char>, from: int, to: int)
    requires
        0 <= from <= to <= s.len(),
        forall|i: int| from <= i < to ==> continues_literal(#[trigger] s[i]),
        to < s.len() ==> !continues_literal(s[to]),
    ensures
        literal_end(s, from) == to,
    decreases to - from,
{
    if from < to {
        lemma_literal_end_of_run(s, from + 1, to);
    }
}

/// The lexer reads a bare command as three tokens: the delimiter, the code as
/// one literal, and the delimiter.
pub proof fn lemma_lex_bare_command(code: Seq<char>)
    requires
        is_upper_word(code),
    ensures
        lex_block(bare_command(code), 0) == (LexOutcome {
            result: Ok(seq![TokenView::Dollar, TokenView::Literal(code), TokenView::Dollar]),
            end: code.len() as int + 2,
        }),
{
    let s = bare_command(code);
    let close: int = code.len() as int + 1;
    assert(s.len() == code.len() + 2);
    assert(s[0] == '$');
    assert(s[close] == '$');
    assert forall|i: int| 1 <= i < close implies continues_literal(#[trigger] s[i]) by {
        assert(s[i] == code[i - 1]);
        assert(is_upper(code[i - 1]));
    }
    assert(is_upper(code[0]) && s[1] == code[0]);
    lemma_literal_end_of_run(s, 2, close);
    assert(s.subrange(1, close) =~= code);
    assert(lex_tokens(s, close) == LexOutcome {
        result: Ok(seq![TokenView::Dollar]),
        end: close + 1,
    });
    assert(seq![TokenView::Dollar] + (seq![TokenView::Literal(code)] + seq![TokenView::Dollar])
        =~= seq![TokenView::Dollar, TokenView::Literal(code), TokenView::Dollar]);
}

/// A bare command stands for what the table says of its code, with no flags
/// and no arguments.
pub proof fn lemma_bare_command_entry(code: Seq<char>)
    requires
        is_upper_word(code),
    ensures
        command_entry(bare_command(code)) == Ok::<_, ParseErrorView>(
            resolve(code, Seq::empty(), Seq::empty()),
        ),
{
    lemma_lex_bare_command(code);
    let ts = seq![TokenView::Dollar, TokenView::Literal(code), TokenView::Dollar];
    assert(word_at(ts, 1) == Ok::<_, ParseErrorView>(code));
    assert(flags_from(ts, 2) == Ok::<_, ParseErrorView>((Seq::<FlagView>::empty(), 2int)));
    assert(args_from(ts, 2) == Ok::<_, ParseErrorView>((Seq::<ArgumentView>::empty(), 2int)));
    assert(command_of(ts) == Ok::<_, ParseErrorView>(
        CommandView { code, flags: Seq::empty(), args: Seq::empty() },
    ));
}

/// A document that is one bare command has the one entry that the table gives
/// for its code, or fails with the error that the table gives.
pub proof fn lemma_parse_bare_command(code: Seq<char>)
    requires
        is_upper_word(code),
    ensures
        parse_document(bare_command(code)) == match resolve(code, Seq::empty(), Seq::empty()) {
            Ok(entry) => Ok(seq![entry]),
            Err(e) => Err(ParseErrorView::DocError(e)),
        },
{
    let s = bare_command(code);
    let close: int = code.len() as int + 1;
    lemma_bare_command_entry(code);
    assert(s[0] == '$' && s[close] == '$');
    assert forall|i: int| 1 <= i < close implies s[i] != '$' by {
        assert(s[i] == code[i - 1]);
        assert(is_upper(code[i - 1]));
    }
    lemma_index_of_from(s, '$', 1);
    assert(index_of_from(s, '$', 1) == close);
    assert(s.subrange(0, close + 1) =~= s);
    assert(command_at(s, 0).end == s.len());
    assert(parse_from(s, s.len() as int) == Ok::<_, ParseErrorView>(
        Seq::<DocumentEntryView>::empty(),
    ));
    match resolve(code, Seq::empty(), Seq::empty()) {
        Ok(entry) => {
            assert(seq![entry] + Seq::<DocumentEntryView>::empty() =~= seq![entry]);
        },
        Err(_) => {},
    }
}

/// Every code of the table parses, alone in its block, into a single entry of
/// the variant that the table gives, without flags and without arguments.
pub proof fn law_recognized_code_parses(code: Seq<char>)
    requires
        is_recognized(code),
    ensures
        code == code_clear() ==> parse_document(bare_command(code)) == Ok::<_, ParseErrorView>(
            seq![DocumentEntryView::Clear(Seq::empty(), Seq::empty())],
        ),
        code == code_text() ==> parse_document(bare_command(code)) == Ok::<_, ParseErrorView>(
            seq![DocumentEntryView::Text(Seq::empty(), Seq::empty())],
        ),
        code == code_foreground() ==> parse_document(bare_command(code)) == Ok::<_, ParseErrorView>(
            seq![DocumentEntryView::Foreground(Seq::empty(), Seq::empty())],
        ),
        code == code_clear() || code == code_text() || code == code_foreground(),
{
    assert(code.len() == 2);
    assert(code_clear()[0] == 'C' && code_clear()[1] == 'L');
    assert(code_text()[0] == 'T' && code_text()[1] == 'X');
    assert(code_foreground()[0] == 'F' && code_foreground()[1] == 'G');
    assert(is_upper_word(code));
    lemma_parse_bare_command(code);
}

/// Every code that is not in the table fails to parse, alone in its block,
/// with the error that names it.
pub proof fn law_unrecognized_code_fails(code: Seq<char>)
    requires
        is_upper_word(code),
        !is_recognized(code),
    ensures
        parse_document(bare_command(code)) == Err::<Seq<DocumentEntryView>, _>(
            ParseErrorView::DocError(DocumentErrorView::UnrecognizedCommand(code)),
        ),
{
    lemma_parse_bare_command(code);
}

/// The table decides by the code alone: a code in it resolves whatever the
/// flags and arguments are, to an entry that holds them as they are; a code
/// outside it never resolves, and the error names it.
pub proof fn law_table_is_exact(code: Seq<char>, flags: Seq<FlagView>, args: Seq<ArgumentView>)
    ensures
        is_recognized(code) <==> resolve(code, flags, args) is Ok,
        !is_recognized(code) ==> resolve(code, flags, args) == Err::<DocumentEntryView, _>(
            DocumentErrorView::UnrecognizedCommand(code),
        ),
        resolve(code, flags, args) matches Ok(entry) ==> match entry {
            DocumentEntryView::Clear(f, a) => code == code_clear() && f == flags && a == args,
            DocumentEntryView::Text(f, a) => code == code_text() && f == flags && a == args,
            DocumentEntryView::Foreground(f, a) => code == code_foreground() && f == flags && a
                == args,
        },
{
    assert(code_clear()[0] == 'C' && code_text()[0] == 'T' && code_foreground()[0] == 'F');
}

/// Searching a part of a sequence finds what searching the whole finds, as
/// long as that lies in the part.
pub proof fn lemma_index_of_from_subrange(s: Seq<char>, stop: char, a: int, b: int, from: int)
    requires
        0 <= a <= from <= b <= s.len(),
    ensures
        index_of_from(s.subrange(a, b), stop, from - a) == if index_of_from(s, stop, from) < b {
            index_of_from(s, stop, from) - a
        } else {
            b - a
        },
    decreases b - from,
{
    let part = s.subrange(a, b);
    lemma_index_of_from(s, stop, from);
    if from < b {
        assert(part[from - a] == s[from]);
        if s[from] != stop {
            lemma_index_of_from_subrange(s, stop, a, b, from + 1);
        }
    }
}

/// The span of the piece at `pos` is a run of text that ends in front of a
/// delimiter or at the end of the input, a command block, or a block that was
/// never closed and takes the rest of the input. Taken alone, the span stands
/// for what the piece stands for.
pub proof fn lemma_span_of_piece(s: Seq<char>, pos: int)
    requires
        0 <= pos < s.len(),
    ensures
        pos < piece_at(s, pos).end <= s.len(),
        span_entry(s.subrange(pos, piece_at(s, pos).end)) == piece_at(s, pos).result,
        s[pos] != '$' ==> is_text_run(s.subrange(pos, piece_at(s, pos).end)) && (piece_at(
            s,
            pos,
        ).end < s.len() ==> s[piece_at(s, pos).end] == '$'),
        s[pos] == '$' ==> is_block(s.subrange(pos, piece_at(s, pos).end)) || (is_unclosed_block(
            s.subrange(pos, piece_at(s, pos).end),
        ) && piece_at(s, pos).end == s.len()),
        s[pos] == '$' && piece_at(s, pos).result is Ok ==> is_block(
            s.subrange(pos, piece_at(s, pos).end),
        ),
{
    let end = piece_at(s, pos).end;
    let span = s.subrange(pos, end);
    lemma_piece_advances(s, pos);
    assert(span[0] == s[pos]);
    if s[pos] == '$' {
        lemma_index_of_from(s, '$', pos + 1);
        let close = index_of_from(s, '$', pos + 1);
        if close < s.len() {
            assert(span[span.len() - 1] == s[close]);
            assert forall|i: int| 0 < i < span.len() - 1 implies span[i] != '$' by {
                assert(span[i] == s[pos + i]);
            }
        } else {
            assert forall|i: int| 0 < i < span.len() implies span[i] != '$' by {
                assert(span[i] == s[pos + i]);
            }
            if span.len() >= 2 {
                assert(span[span.len() - 1] != '$');
            }
        }
    } else {
        lemma_index_of_from(s, '$', pos);
        assert forall|i: int| 0 <= i < span.len() implies span[i] != '$' by {
            assert(span[i] == s[pos + i]);
        }
    }
}

/// The spans from `pos` on, put together again, are the input from `pos` on.
pub proof fn lemma_spans_from_cover(s: Seq<char>, pos: int)
    requires
        0 <= pos <= s.len(),
    ensures
        spans_from(s, pos).flatten() == s.subrange(pos, s.len() as int),
    decreases s.len() - pos,
{
    if pos < s.len() {
        lemma_piece_advances(s, pos);
        let end = piece_at(s, pos).end;
        let head = s.subrange(pos, end);
        let rest = spans_from(s, end);
        lemma_spans_from_cover(s, end);
        assert((seq![head] + rest).first() == head);
        assert((seq![head] + rest).drop_first() =~= rest);
        assert(head + s.subrange(end, s.len() as int) =~= s.subrange(pos, s.len() as int));
    } else {
        assert(s.subrange(pos, s.len() as int) =~= Seq::<char>::empty());
    }
}

/// The spans of a document are contiguous and leave nothing out: put together
/// in order, they are the document.
pub proof fn law_spans_cover_input(s: Seq<char>)
    ensures
        spans(s).flatten() == s,
{
    lemma_spans_from_cover(s, 0);
    assert(s.subrange(0, s.len() as int) =~= s);
}

/// Every span is a run of text without a delimiter or a command block between
/// two delimiters; only the last one may be a block that was never closed. A
/// run of text is as long as it can be: what follows it is a command block.
pub proof fn lemma_span_shapes_from(s: Seq<char>, pos: int, i: int)
    requires
        0 <= pos <= s.len(),
        0 <= i < spans_from(s, pos).len(),
    ensures
        is_text_run(spans_from(s, pos)[i]) || is_block(spans_from(s, pos)[i]) || (
        is_unclosed_block(spans_from(s, pos)[i]) && i == spans_from(s, pos).len() - 1),
        is_text_run(spans_from(s, pos)[i]) && i + 1 < spans_from(s, pos).len() ==> spans_from(
            s,
            pos,
        )[i + 1][0] == '$',
    decreases i,
{
    lemma_span_of_piece(s, pos);
    let end = piece_at(s, pos).end;
    let head = s.subrange(pos, end);
    let rest = spans_from(s, end);
    assert(spans_from(s, pos) == seq![head] + rest);
    if i == 0 {
        if end < s.len() {
            lemma_piece_advances(s, end);
            assert(rest[0] == s.subrange(end, piece_at(s, end).end));
            assert(rest[0][0] == s[end]);
        } else {
            assert(rest.len() == 0);
        }
    } else {
        assert(spans_from(s, pos)[i] == rest[i - 1]);
        if i + 1 < spans_from(s, pos).len() {
            assert(spans_from(s, pos)[i + 1] == rest[i]);
        }
        lemma_span_shapes_from(s, end, i - 1);
    }
}

/// Every span of a document is a maximal run of characters other than the
/// delimiter, or one command block from its opening to its closing delimiter.
/// The one exception is a last block that was never closed.
pub proof fn law_span_shapes(s: Seq<char>, i: int)
    requires
        0 <= i < spans(s).len(),
    ensures
        is_text_run(spans(s)[i]) || is_block(spans(s)[i]) || (is_unclosed_block(spans(s)[i]) && i
            == spans(s).len() - 1),
        is_text_run(spans(s)[i]) && i + 1 < spans(s).len() ==> spans(s)[i + 1][0] == '$',
{
    lemma_span_shapes_from(s, 0, i);
}

/// From `pos` on, the entries are the entries of the spans, one for one and in
/// order; and an error is the error of the first span that has one.
pub proof fn lemma_entries_follow_spans_from(s: Seq<char>, pos: int)
    requires
        0 <= pos <= s.len(),
    ensures
        parse_from(s, pos) matches Ok(entries) ==> entries.len() == spans_from(s, pos).len()
            && forall|i: int|
            0 <= i < entries.len() ==> span_entry(#[trigger] spans_from(s, pos)[i]) == Ok::<
                _,
                ParseErrorView,
            >(entries[i]),
        parse_from(s, pos) matches Err(e) ==> exists|i: int|
            0 <= i < spans_from(s, pos).len() && span_entry(#[trigger] spans_from(s, pos)[i])
                == Err::<DocumentEntryView, _>(e) && forall|j: int|
                0 <= j < i ==> span_entry(#[trigger] spans_from(s, pos)[j]) is Ok,
    decreases s.len() - pos,
{
    if pos < s.len() {
        lemma_span_of_piece(s, pos);
        let end = piece_at(s, pos).end;
        let head = s.subrange(pos, end);
        let rest = spans_from(s, end);
        let all = spans_from(s, pos);
        assert(all == seq![head] + rest);
        assert(all[0] == head);
        match piece_at(s, pos).result {
            Err(e) => {
                assert(span_entry(all[0]) == Err::<DocumentEntryView, _>(e));
            },
            Ok(entry) => {
                lemma_entries_follow_spans_from(s, end);
                assert forall|i: int| 0 < i < all.len() implies all[i] == rest[i - 1] by {}
                match parse_from(s, end) {
                    Ok(more) => {
                        let entries = seq![entry] + more;
                        assert forall|i: int| 0 <= i < entries.len() implies span_entry(
                            #[trigger] all[i],
                        ) == Ok::<_, ParseErrorView>(entries[i]) by {
                            if i > 0 {
                                assert(all[i] == rest[i - 1]);
                                assert(entries[i] == more[i - 1]);
                            }
                        }
                    },
                    Err(e) => {
                        let k = choose|k: int|
                            0 <= k < rest.len() && span_entry(#[trigger] rest[k]) == Err::<
                                DocumentEntryView,
                                _,
                            >(e) && forall|j: int|
                                0 <= j < k ==> span_entry(#[trigger] rest[j]) is Ok;
                        assert(all[k + 1] == rest[k]);
                        assert forall|j: int| 0 <= j < k + 1 implies span_entry(
                            #[trigger] all[j],
                        ) is Ok by {
                            if j > 0 {
                                assert(all[j] == rest[j - 1]);
                            }
                        }
                        assert(0 <= k + 1 < all.len() && span_entry(all[k + 1]) == Err::<
                            DocumentEntryView,
                            _,
                        >(e));
                    },
                }
            },
        }
    }
}

/// Every entry of a parsed document stands for exactly one span of the input:
/// there are as many entries as spans, and each entry is what its span stands
/// for. Where the parse fails, the error is that of the first span that has
/// one: the spans in front of it are in order, and nothing is returned for
/// them.
pub proof fn law_entries_follow_spans(s: Seq<char>)
    ensures
        parse_document(s) matches Ok(entries) ==> entries.len() == spans(s).len() && forall|i: int|
            0 <= i < entries.len() ==> span_entry(#[trigger] spans(s)[i]) == Ok::<
                _,
                ParseErrorView,
            >(entries[i]),
        parse_document(s) matches Err(e) ==> exists|i: int|
            0 <= i < spans(s).len() && span_entry(#[trigger] spans(s)[i]) == Err::<
                DocumentEntryView,
                _,
            >(e) && forall|j: int| 0 <= j < i ==> span_entry(#[trigger] spans(s)[j]) is Ok,
{
    lemma_entries_follow_spans_from(s, 0);
}

/// A span that is parsed as a document of its own gives the one entry that it
/// stands for, or its error.
pub proof fn lemma_span_parses_alone(span: Seq<char>)
    requires
        is_text_run(span) || is_block(span) || is_unclosed_block(span),
    ensures
        parse_document(span) == match span_entry(span) {
            Ok(entry) => Ok(seq![entry]),
            Err(e) => Err(e),
        },
{
    let n = span.len() as int;
    assert(parse_from(span, n) == Ok::<_, ParseErrorView>(Seq::<DocumentEntryView>::empty()));
    if span[0] == '$' {
        lemma_index_of_from(span, '$', 1);
        if is_block(span) {
            assert(index_of_from(span, '$', 1) == n - 1);
            assert(span.subrange(0, n) =~= span);
        } else {
            assert(index_of_from(span, '$', 1) == n);
        }
    } else {
        lemma_index_of_from(span, '$', 0);
        assert(index_of_from(span, '$', 0) == n);
    }
    match span_entry(span) {
        Ok(entry) => {
            assert(seq![entry] + Seq::<DocumentEntryView>::empty() =~= seq![entry]);
        },
        Err(_) => {},
    }
}

/// Each span of a document, parsed alone, gives the entry that the document
/// has for it.
pub proof fn law_span_parses_alone(s: Seq<char>, i: int)
    requires
        0 <= i < spans(s).len(),
    ensures
        parse_document(spans(s)[i]) == match span_entry(spans(s)[i]) {
            Ok(entry) => Ok(seq![entry]),
            Err(e) => Err(e),
        },
        parse_document(s) matches Ok(entries) ==> i < entries.len() && parse_document(spans(s)[i])
            == Ok::<_, ParseErrorView>(seq![entries[i]]),
{
    law_span_shapes(s, i);
    lemma_span_parses_alone(spans(s)[i]);
    law_entries_follow_spans(s);
}

/// Parsing is a function of the characters alone, and the spans of a document
/// are all of it: parsing the spans put together again gives what parsing the
/// document gave.
pub proof fn law_reparse_is_identity(s: Seq<char>)
    ensures
        parse_document(spans(s).flatten()) == parse_document(s),
{
    law_spans_cover_input(s);
}

/// The tokens behind an opening delimiter end with the closing delimiter and
/// hold no other; the cursor is left right behind the closing delimiter.
pub proof fn lemma_lex_tokens_shape(s: Seq<char>, pos: int)
    requires
        0 <= pos <= s.len(),
    ensures
        pos <= lex_tokens(s, pos).end <= s.len(),
        lex_tokens(s, pos).result matches Ok(ts) ==> {
            &&& ts.len() >= 1
            &&& ts[ts.len() - 1] is Dollar
            &&& forall|i: int| 0 <= i < ts.len() - 1 ==> !(#[trigger] ts[i] is Dollar)
            &&& pos < lex_tokens(s, pos).end
            &&& s[lex_tokens(s, pos).end - 1] == '$'
        },
    decreases s.len() - pos,
{
    if pos < s.len() {
        let next = if s[pos] == '=' || s[pos] == ',' || s[pos] == '+' || s[pos] == '-' {
            pos + 1
        } else if s[pos] != '$' && starts_literal(s[pos]) {
            lemma_literal_end(s, pos + 1);
            literal_end(s, pos + 1)
        } else if s[pos] == '"' {
            lemma_index_of_from(s, '"', pos + 1);
            index_of_from(s, '"', pos + 1) + 1
        } else {
            s.len() as int
        };
        if pos < next <= s.len() {
            lemma_lex_tokens_shape(s, next);
        }
    }
}

/// The tokens of a command block start with the opening delimiter, end with
/// the closing one and hold no delimiter between the two. Lexing stops right
/// behind the closing delimiter, whatever follows it.
pub proof fn law_tokens_are_delimited(s: Seq<char>, pos: int)
    requires
        0 <= pos <= s.len(),
    ensures
        lex_block(s, pos).result matches Ok(ts) ==> {
            &&& ts.len() >= 2
            &&& ts[0] is Dollar
            &&& ts[ts.len() - 1] is Dollar
            &&& forall|i: int| 0 < i < ts.len() - 1 ==> !(#[trigger] ts[i] is Dollar)
            &&& pos + 2 <= lex_block(s, pos).end <= s.len()
            &&& s[pos] == '$'
            &&& s[lex_block(s, pos).end - 1] == '$'
        },
{
    if pos < s.len() && s[pos] == '$' {
        lemma_lex_tokens_shape(s, pos + 1);
    }
}

/// Whether a command is what the grammar can spell: its code, the codes of its
/// flags and the keys of its arguments are words.
pub open spec fn is_well_formed(command: CommandView) -> bool {
    &&& is_upper_word(command.code)
    &&& forall|i: int|
        0 <= i < command.flags.len() ==> is_upper_word((#[trigger] command.flags[i]).code)
    &&& forall|i: int|
        0 <= i < command.args.len() ==> ((#[trigger] command.args[i]).key matches Some(key)
            ==> is_upper_word(key))
}

/// The codes of the flags that the grammar reads are words.
pub proof fn lemma_flag_codes_are_words(ts: Seq<TokenView>, pos: int)
    ensures
        flags_from(ts, pos) matches Ok((flags, next)) ==> (pos <= next <= ts.len() || next == pos)
            && forall|i: int| 0 <= i < flags.len() ==> is_upper_word((#[trigger] flags[i]).code),
    decreases ts.len() - pos,
{
    if 0 <= pos < ts.len() && (ts[pos] is Plus || ts[pos] is Minus) {
        if word_at(ts, pos + 1) is Ok {
            lemma_flag_codes_are_words(ts, pos + 2);
        }
    }
}

/// The keys of the arguments that the grammar reads are words.
pub proof fn lemma_argument_keys_are_words(ts: Seq<TokenView>, pos: int)
    ensures
        args_from(ts, pos) matches Ok((args, next)) ==> (pos <= next <= ts.len() || next == pos)
            && forall|i: int|
            0 <= i < args.len() ==> ((#[trigger] args[i]).key matches Some(key) ==> is_upper_word(
                key,
            )),
    decreases ts.len() - pos,
{
    if 0 <= pos < ts.len() && ts[pos] is Comma {
        match arg_at(ts, pos) {
            Ok((_, next)) => {
                lemma_argument_keys_are_words(ts, next);
            },
            Err(_) => {},
        }
    }
}

/// Whatever the grammar reads is well formed: a code is never empty and holds
/// upper-case letters only, and so do the codes of flags and the keys of
/// arguments.
pub proof fn law_commands_are_well_formed(ts: Seq<TokenView>)
    ensures
        command_of(ts) matches Ok(command) ==> is_well_formed(command),
{
    lemma_flag_codes_are_words(ts, 2);
    match flags_from(ts, 2) {
        Ok((_, after_flags)) => {
            lemma_argument_keys_are_words(ts, after_flags);
        },
        Err(_) => {},
    }
}

/// An argument can be written in three ways. With a key: a comma, the key,
/// `=` and the value. Without one: a comma, `=` and the value, or a comma and
/// the value alone. The value is a word or a quoted string.
pub proof fn law_argument_forms(ts: Seq<TokenView>, pos: int, key: Seq<char>, value: Seq<char>)
    requires
        0 <= pos < ts.len(),
        ts[pos] is Comma,
    ensures
        pos + 3 < ts.len() && ts[pos + 1] == TokenView::Literal(key) && is_upper_word(key)
            && ts[pos + 2] is Equals && value_at(ts, pos + 3) == Ok::<
            _,
            ParseErrorView,
        >(value) ==> arg_at(ts, pos) == Ok::<_, ParseErrorView>(
            (ArgumentView { key: Some(key), value }, pos + 4),
        ),
        pos + 2 < ts.len() && ts[pos + 1] is Equals && value_at(ts, pos + 2)
            == Ok::<_, ParseErrorView>(value) ==> arg_at(ts, pos) == Ok::<_, ParseErrorView>(
            (ArgumentView { key: None, value }, pos + 3),
        ),
        pos + 1 < ts.len() && value_at(ts, pos + 1) == Ok::<_, ParseErrorView>(value)
            && !(pos + 2 < ts.len() && ts[pos + 2] is Equals) ==> arg_at(ts, pos) == Ok::<
            _,
            ParseErrorView,
        >((ArgumentView { key: None, value }, pos + 2)),
{
}

/// Reading flags never fails with the general error.
pub proof fn lemma_flags_error_is_specific(ts: Seq<TokenView>, pos: int)
    ensures
        flags_from(ts, pos) matches Err(e) ==> !(e is GeneralError),
    decreases ts.len() - pos,
{
    if 0 <= pos < ts.len() && (ts[pos] is Plus || ts[pos] is Minus) {
        if word_at(ts, pos + 1) is Ok {
            lemma_flags_error_is_specific(ts, pos + 2);
        }
    }
}

/// Reading arguments never fails with the general error.
pub proof fn lemma_arguments_error_is_specific(ts: Seq<TokenView>, pos: int)
    ensures
        args_from(ts, pos) matches Err(e) ==> !(e is GeneralError),
    decreases ts.len() - pos,
{
    if 0 <= pos < ts.len() && ts[pos] is Comma {
        match arg_at(ts, pos) {
            Ok((_, next)) => {
                lemma_arguments_error_is_specific(ts, next);
            },
            Err(_) => {},
        }
    }
}

/// Every error of the parser says what went wrong: the general error is never
/// the result.
pub proof fn law_errors_are_specific(s: Seq<char>)
    ensures
        parse_document(s) matches Err(e) ==> !(e is GeneralError),
{
    law_entries_follow_spans(s);
    if let Err(e) = parse_document(s) {
        let i = choose|i: int|
            0 <= i < spans(s).len() && span_entry(#[trigger] spans(s)[i]) == Err::<
                DocumentEntryView,
                _,
            >(e);
        let span = spans(s)[i];
        if let Ok(ts) = lex_block(span, 0).result {
            lemma_flags_error_is_specific(ts, 2);
            if let Ok((_, after_flags)) = flags_from(ts, 2) {
                lemma_arguments_error_is_specific(ts, after_flags);
            }
        }
    }
}

} // verus!
