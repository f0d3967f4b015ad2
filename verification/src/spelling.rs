//! How a command is written out, in tokens and in characters, and the laws
//! that the lexer, the grammar and the scanner read it back as it was.

use vstd::prelude::*;
use crate::cursor::{index_of_from, lemma_index_of_from};
use crate::document::resolve;
use crate::doldoc::{
    arg_at,
    args_from,
    command_entry,
    command_of,
    flag_starts,
    flags_from,
    CommandView,
};
use crate::laws::{is_well_formed, lemma_literal_end_of_run, lemma_span_parses_alone};
use crate::parser::{
    is_block,
    lex_block,
    lex_prepend,
    lex_tokens,
    parse_document,
    ArgumentView,
    FlagView,
    LexOutcome,
    ParseErrorView,
    TokenView,
};
use crate::text::{continues_literal, is_upper, is_upper_word};

verus! {

/// The tokens that spell flags: for each flag its sign and its code.
pub open spec fn flag_tokens(flags: Seq<FlagView>) -> Seq<TokenView>
    decreases flags.len(),
{
    if flags.len() == 0 {
        Seq::empty()
    } else {
        seq![
            if flags[0].enabled {
                TokenView::Plus
            } else {
                TokenView::Minus
            },
            TokenView::Literal(flags[0].code),
        ] + flag_tokens(flags.drop_first())
    }
}

/// The tokens that spell one argument, with its value in quotes: a comma, the
/// key and `=` where the argument has a key, and the value.
pub open spec fn argument_tokens(arg: ArgumentView) -> Seq<TokenView> {
    match arg.key {
        Some(key) => seq![
            TokenView::Comma,
            TokenView::Literal(key),
            TokenView::Equals,
            TokenView::QuotedString(arg.value),
        ],
        None => seq![TokenView::Comma, TokenView::QuotedString(arg.value)],
    }
}

/// The tokens that spell arguments, one behind the other.
pub open spec fn arguments_tokens(args: Seq<ArgumentView>) -> Seq<TokenView>
    decreases args.len(),
{
    if args.len() == 0 {
        Seq::empty()
    } else {
        argument_tokens(args[0]) + arguments_tokens(args.drop_first())
    }
}

/// The tokens that spell a command: the delimiter, the code, the flags, the
/// arguments and the delimiter.
pub open spec fn command_tokens(command: CommandView) -> Seq<TokenView> {
    seq![TokenView::Dollar, TokenView::Literal(command.code)] + flag_tokens(command.flags)
        + arguments_tokens(command.args) + seq![TokenView::Dollar]
}

/// Where the tokens from `pos` on spell `flags` and the token behind them
/// starts no flag, the grammar reads exactly these flags, in their order.
pub proof fn lemma_flags_are_read_back(ts: Seq<TokenView>, pos: int, flags: Seq<FlagView>)
    requires
        0 <= pos,
        pos + flag_tokens(flags).len() <= ts.len(),
        ts.subrange(pos, pos + flag_tokens(flags).len()) == flag_tokens(flags),
        forall|i: int| 0 <= i < flags.len() ==> is_upper_word((#[trigger] flags[i]).code),
        !flag_starts(ts, pos + flag_tokens(flags).len()),
    ensures
        flag_tokens(flags).len() == 2 * flags.len(),
        flags_from(ts, pos) == Ok::<_, ParseErrorView>((flags, pos + 2 * flags.len())),
    decreases flags.len(),
{
    if flags.len() > 0 {
        let rest = flags.drop_first();
        let spelled = flag_tokens(flags);
        let n = spelled.len() as int;
        assert(spelled.len() == 2 + flag_tokens(rest).len());
        assert(ts[pos] == ts.subrange(pos, pos + n)[0]);
        assert(ts[pos + 1] == ts.subrange(pos, pos + n)[1]);
        assert(spelled[1] == TokenView::Literal(flags[0].code));
        assert(ts.subrange(pos + 2, pos + n) =~= flag_tokens(rest)) by {
            assert forall|i: int| 0 <= i < n - 2 implies ts.subrange(pos + 2, pos + n)[i]
                == flag_tokens(rest)[i] by {
                assert(ts.subrange(pos, pos + n)[i + 2] == spelled[i + 2]);
            }
        }
        assert forall|i: int| 0 <= i < rest.len() implies is_upper_word(
            (#[trigger] rest[i]).code,
        ) by {
            assert(rest[i] == flags[i + 1]);
        }
        lemma_flags_are_read_back(ts, pos + 2, rest);
        assert(is_upper_word(flags[0].code));
        let first = FlagView { enabled: ts[pos] is Plus, code: flags[0].code };
        assert(first == flags[0]);
        assert(seq![first] + rest =~= flags);
    } else {
        assert(flags =~= Seq::<FlagView>::empty());
    }
}

/// Where the tokens from `pos` on spell `args` and the token behind them is no
/// comma, the grammar reads exactly these arguments, in their order.
pub proof fn lemma_arguments_are_read_back(ts: Seq<TokenView>, pos: int, args: Seq<ArgumentView>)
    requires
        0 <= pos,
        pos + arguments_tokens(args).len() <= ts.len(),
        ts.subrange(pos, pos + arguments_tokens(args).len()) == arguments_tokens(args),
        forall|i: int|
            0 <= i < args.len() ==> ((#[trigger] args[i]).key matches Some(key) ==> is_upper_word(
                key,
            )),
        pos + arguments_tokens(args).len() < ts.len() ==> !(ts[pos + arguments_tokens(
            args,
        ).len()] is Comma),
    ensures
        args_from(ts, pos) == Ok::<_, ParseErrorView>((args, pos + arguments_tokens(args).len())),
    decreases args.len(),
{
    if args.len() > 0 {
        let rest = args.drop_first();
        let spelled = arguments_tokens(args);
        let n = spelled.len() as int;
        let head = argument_tokens(args[0]);
        let k = head.len() as int;
        assert(spelled == head + arguments_tokens(rest));
        assert forall|i: int| 0 <= i < k implies ts[pos + i] == head[i] by {
            assert(ts.subrange(pos, pos + n)[i] == spelled[i]);
        }
        assert(ts.subrange(pos + k, pos + n) =~= arguments_tokens(rest)) by {
            assert forall|i: int| 0 <= i < n - k implies ts.subrange(pos + k, pos + n)[i]
                == arguments_tokens(rest)[i] by {
                assert(ts.subrange(pos, pos + n)[i + k] == spelled[i + k]);
            }
        }
        assert forall|i: int| 0 <= i < rest.len() implies ((#[trigger] rest[i]).key matches Some(
            key,
        ) ==> is_upper_word(key)) by {
            assert(rest[i] == args[i + 1]);
        }
        lemma_arguments_are_read_back(ts, pos + k, rest);
        assert(ts[pos] == head[0]);
        assert(ts[pos + 1] == head[1]);
        match args[0].key {
            Some(key) => {
                assert(ts[pos + 2] == head[2]);
                assert(ts[pos + 3] == head[3]);
                assert(is_upper_word(key));
                assert(arg_at(ts, pos) == Ok::<_, ParseErrorView>((args[0], pos + 4)));
            },
            None => {
                assert(arg_at(ts, pos) == Ok::<_, ParseErrorView>((args[0], pos + 2)));
            },
        }
        assert(seq![args[0]] + rest =~= args);
    } else {
        assert(args =~= Seq::<ArgumentView>::empty());
    }
}

/// The grammar reads back what is spelled: the tokens of a well-formed command
/// give that command, with its flags and arguments as they are and in their
/// order, repeated codes and keys included.
pub proof fn law_spelled_command_is_read_back(command: CommandView)
    requires
        is_well_formed(command),
    ensures
        command_of(command_tokens(command)) == Ok::<_, ParseErrorView>(command),
{
    let ts = command_tokens(command);
    let f = flag_tokens(command.flags);
    let a = arguments_tokens(command.args);
    let after_flags = 2 + f.len() as int;
    let close = after_flags + a.len() as int;
    assert(ts.len() == close + 1);
    assert(ts[0] is Dollar);
    assert(ts[1] == TokenView::Literal(command.code));
    assert(ts[close] is Dollar);
    assert(ts.subrange(2, after_flags) =~= f);
    assert(ts.subrange(after_flags, close) =~= a);
    if a.len() > 0 {
        assert(command.args.len() > 0);
        assert(a == argument_tokens(command.args[0]) + arguments_tokens(
            command.args.drop_first(),
        ));
        assert(argument_tokens(command.args[0])[0] is Comma);
        assert(ts[after_flags] == a[0]);
        assert(ts[after_flags] is Comma);
    } else {
        assert(ts[after_flags] is Dollar);
    }
    lemma_flags_are_read_back(ts, 2, command.flags);
    lemma_arguments_are_read_back(ts, after_flags, command.args);
}

/// The characters that spell flags: for each flag its sign and its code.
pub open spec fn flag_chars(flags: Seq<FlagView>) -> Seq<char>
    decreases flags.len(),
{
    if flags.len() == 0 {
        Seq::empty()
    } else {
        seq![if flags[0].enabled {
            '+'
        } else {
            '-'
        }] + flags[0].code + flag_chars(flags.drop_first())
    }
}

/// The characters that spell one argument, with its value in quotes.
pub open spec fn argument_chars(arg: ArgumentView) -> Seq<char> {
    match arg.key {
        Some(key) => seq![','] + key + seq!['=', '"'] + arg.value + seq!['"'],
        None => seq![',', '"'] + arg.value + seq!['"'],
    }
}

/// The characters that spell arguments, one behind the other.
pub open spec fn arguments_chars(args: Seq<ArgumentView>) -> Seq<char>
    decreases args.len(),
{
    if args.len() == 0 {
        Seq::empty()
    } else {
        argument_chars(args[0]) + arguments_chars(args.drop_first())
    }
}

/// The characters that spell a command block: the delimiter, the code, the
/// flags, the arguments and the delimiter.
pub open spec fn command_chars(command: CommandView) -> Seq<char> {
    seq!['$'] + command.code + flag_chars(command.flags) + arguments_chars(command.args)
        + seq!['$']
}

/// Whether `s` holds none of the characters that end a quoted string or a
/// command block.
pub open spec fn is_plain(s: Seq<char>) -> bool {
    forall|i: int| 0 <= i < s.len() ==> s[i] != '"' && s[i] != '$'
}

/// Whether every value of `args` can stand in quotes inside a command block.
pub open spec fn values_are_plain(args: Seq<ArgumentView>) -> bool {
    forall|i: int| 0 <= i < args.len() ==> is_plain((#[trigger] args[i]).value)
}

/// Whether `part` stands in `s` at index `pos`.
pub open spec fn has_at(s: Seq<char>, pos: int, part: Seq<char>) -> bool {
    0 <= pos && pos + part.len() <= s.len() && s.subrange(pos, pos + part.len()) == part
}

/// What stands at an index as a whole stands there piece by piece.
pub proof fn lemma_has_at_split(s: Seq<char>, pos: int, x: Seq<char>, y: Seq<char>)
    requires
        has_at(s, pos, x + y),
    ensures
        has_at(s, pos, x),
        has_at(s, pos + x.len(), y),
{
    let whole = x + y;
    let n = whole.len() as int;
    assert(s.subrange(pos, pos + x.len()) =~= x) by {
        assert forall|i: int| 0 <= i < x.len() implies s.subrange(pos, pos + x.len())[i]
            == x[i] by {
            assert(s.subrange(pos, pos + n)[i] == whole[i]);
        }
    }
    assert(s.subrange(pos + x.len(), pos + x.len() + y.len()) =~= y) by {
        assert forall|i: int| 0 <= i < y.len() implies s.subrange(
            pos + x.len(),
            pos + x.len() + y.len(),
        )[i] == y[i] by {
            assert(s.subrange(pos, pos + n)[i + x.len()] == whole[i + x.len()]);
        }
    }
}

/// The character at index `i` of what stands at `pos`.
pub proof fn lemma_has_at_index(s: Seq<char>, pos: int, part: Seq<char>, i: int)
    requires
        has_at(s, pos, part),
        0 <= i < part.len(),
    ensures
        s[pos + i] == part[i],
{
    assert(s.subrange(pos, pos + part.len())[i] == part[i]);
}

/// A word that is followed by a character that continues no literal is read
/// as one literal.
pub proof fn lemma_lex_word(s: Seq<char>, pos: int, word: Seq<char>)
    requires
        has_at(s, pos, word),
        is_upper_word(word),
        pos + word.len() < s.len(),
        !continues_literal(s[pos + word.len()]),
    ensures
        lex_tokens(s, pos) == lex_prepend(
            seq![TokenView::Literal(word)],
            lex_tokens(s, pos + word.len()),
        ),
{
    let end = pos + word.len();
    assert forall|i: int| pos <= i < end implies continues_literal(#[trigger] s[i]) by {
        lemma_has_at_index(s, pos, word, i - pos);
        assert(is_upper(word[i - pos]));
    }
    lemma_has_at_index(s, pos, word, 0);
    assert(is_upper(word[0]));
    lemma_literal_end_of_run(s, pos + 1, end);
}

/// A plain value in quotes is read as one quoted string.
pub proof fn lemma_lex_quoted(s: Seq<char>, pos: int, value: Seq<char>)
    requires
        has_at(s, pos, seq!['"'] + value + seq!['"']),
        is_plain(value),
    ensures
        lex_tokens(s, pos) == lex_prepend(
            seq![TokenView::QuotedString(value)],
            lex_tokens(s, pos + value.len() + 2),
        ),
{
    let open = seq!['"'];
    lemma_has_at_split(s, pos, open + value, seq!['"']);
    lemma_has_at_split(s, pos, open, value);
    lemma_has_at_index(s, pos, open, 0);
    let close = pos + 1 + value.len();
    lemma_has_at_index(s, close, seq!['"'], 0);
    assert forall|i: int| pos + 1 <= i < close implies s[i] != '"' by {
        lemma_has_at_index(s, pos + 1, value, i - pos - 1);
    }
    lemma_index_of_from(s, '"', pos + 1);
    assert(index_of_from(s, '"', pos + 1) == close);
}

/// Putting tokens in front in two steps is putting all of them in front.
pub proof fn lemma_lex_prepend_concat(a: Seq<TokenView>, b: Seq<TokenView>, rest: LexOutcome)
    ensures
        lex_prepend(a, lex_prepend(b, rest)) == lex_prepend(a + b, rest),
        lex_prepend(Seq::empty(), rest) == rest,
{
    match rest.result {
        Ok(ts) => {
            assert(a + (b + ts) =~= (a + b) + ts);
            assert(Seq::<TokenView>::empty() + ts =~= ts);
        },
        Err(_) => {},
    }
}

/// Flags that are followed by a character that continues no literal are read
/// as their tokens.
pub proof fn lemma_lex_flags(s: Seq<char>, pos: int, flags: Seq<FlagView>)
    requires
        has_at(s, pos, flag_chars(flags)),
        forall|i: int| 0 <= i < flags.len() ==> is_upper_word((#[trigger] flags[i]).code),
        pos + flag_chars(flags).len() < s.len(),
        !continues_literal(s[pos + flag_chars(flags).len()]),
    ensures
        lex_tokens(s, pos) == lex_prepend(
            flag_tokens(flags),
            lex_tokens(s, pos + flag_chars(flags).len()),
        ),
    decreases flags.len(),
{
    let end = pos + flag_chars(flags).len();
    if flags.len() == 0 {
        lemma_lex_prepend_concat(Seq::empty(), Seq::empty(), lex_tokens(s, pos));
    } else {
        let sign = seq![if flags[0].enabled {
            '+'
        } else {
            '-'
        }];
        let code = flags[0].code;
        let rest = flags.drop_first();
        let after = pos + 1 + code.len();
        assert(is_upper_word(code));
        lemma_has_at_split(s, pos, sign + code, flag_chars(rest));
        lemma_has_at_split(s, pos, sign, code);
        lemma_has_at_index(s, pos, sign, 0);
        assert forall|i: int| 0 <= i < rest.len() implies is_upper_word(
            (#[trigger] rest[i]).code,
        ) by {
            assert(rest[i] == flags[i + 1]);
        }
        if rest.len() > 0 {
            lemma_has_at_index(s, after, flag_chars(rest), 0);
        } else {
            assert(after == end);
        }
        lemma_lex_word(s, pos + 1, code);
        lemma_lex_flags(s, after, rest);
        let tail = lex_tokens(s, end);
        let sign_token = seq![if flags[0].enabled {
            TokenView::Plus
        } else {
            TokenView::Minus
        }];
        let code_token = seq![TokenView::Literal(code)];
        lemma_lex_prepend_concat(code_token, flag_tokens(rest), tail);
        lemma_lex_prepend_concat(sign_token, code_token + flag_tokens(rest), tail);
        assert(sign_token + (code_token + flag_tokens(rest)) =~= flag_tokens(flags));
    }
}

/// Arguments with plain values are read as their tokens.
pub proof fn lemma_lex_arguments(s: Seq<char>, pos: int, args: Seq<ArgumentView>)
    requires
        has_at(s, pos, arguments_chars(args)),
        forall|i: int|
            0 <= i < args.len() ==> ((#[trigger] args[i]).key matches Some(key) ==> is_upper_word(
                key,
            )),
        values_are_plain(args),
    ensures
        lex_tokens(s, pos) == lex_prepend(
            arguments_tokens(args),
            lex_tokens(s, pos + arguments_chars(args).len()),
        ),
    decreases args.len(),
{
    let end = pos + arguments_chars(args).len();
    if args.len() == 0 {
        lemma_lex_prepend_concat(Seq::empty(), Seq::empty(), lex_tokens(s, pos));
    } else {
        let arg = args[0];
        let rest = args.drop_first();
        let after = pos + argument_chars(arg).len();
        let quoted = seq!['"'] + arg.value + seq!['"'];
        let tail = lex_tokens(s, end);
        let value_token = seq![TokenView::QuotedString(arg.value)];
        assert(is_plain(arg.value));
        lemma_has_at_split(s, pos, argument_chars(arg), arguments_chars(rest));
        assert forall|i: int| 0 <= i < rest.len() implies ((#[trigger] rest[i]).key matches Some(
            key,
        ) ==> is_upper_word(key)) by {
            assert(rest[i] == args[i + 1]);
        }
        assert forall|i: int| 0 <= i < rest.len() implies is_plain((#[trigger] rest[i]).value) by {
            assert(rest[i] == args[i + 1]);
        }
        lemma_lex_arguments(s, after, rest);
        lemma_lex_prepend_concat(value_token, arguments_tokens(rest), tail);
        match arg.key {
            Some(key) => {
                let comma = seq![','];
                let equals = seq!['='];
                assert(argument_chars(arg) =~= comma + (key + (equals + quoted)));
                lemma_has_at_split(s, pos, comma, key + (equals + quoted));
                lemma_has_at_split(s, pos + 1, key, equals + quoted);
                lemma_has_at_split(s, pos + 1 + key.len(), equals, quoted);
                lemma_has_at_index(s, pos, comma, 0);
                lemma_has_at_index(s, pos + 1 + key.len(), equals, 0);
                lemma_lex_word(s, pos + 1, key);
                lemma_lex_quoted(s, pos + 2 + key.len(), arg.value);
                let rest_tokens = value_token + arguments_tokens(rest);
                lemma_lex_prepend_concat(seq![TokenView::Equals], rest_tokens, tail);
                lemma_lex_prepend_concat(
                    seq![TokenView::Literal(key)],
                    seq![TokenView::Equals] + rest_tokens,
                    tail,
                );
                lemma_lex_prepend_concat(
                    seq![TokenView::Comma],
                    seq![TokenView::Literal(key)] + (seq![TokenView::Equals] + rest_tokens),
                    tail,
                );
                assert(seq![TokenView::Comma] + (seq![TokenView::Literal(key)] + (
                seq![TokenView::Equals] + rest_tokens)) =~= arguments_tokens(args));
            },
            None => {
                let comma = seq![','];
                assert(argument_chars(arg) =~= comma + quoted);
                lemma_has_at_split(s, pos, comma, quoted);
                lemma_has_at_index(s, pos, comma, 0);
                lemma_lex_quoted(s, pos + 1, arg.value);
                let rest_tokens = value_token + arguments_tokens(rest);
                lemma_lex_prepend_concat(seq![TokenView::Comma], rest_tokens, tail);
                assert(seq![TokenView::Comma] + rest_tokens =~= arguments_tokens(args));
            },
        }
    }
}

/// The spelling of flags holds no delimiter and no quote.
pub proof fn lemma_flag_chars_are_plain(flags: Seq<FlagView>)
    requires
        forall|i: int| 0 <= i < flags.len() ==> is_upper_word((#[trigger] flags[i]).code),
    ensures
        is_plain(flag_chars(flags)),
    decreases flags.len(),
{
    if flags.len() > 0 {
        let rest = flags.drop_first();
        assert forall|i: int| 0 <= i < rest.len() implies is_upper_word(
            (#[trigger] rest[i]).code,
        ) by {
            assert(rest[i] == flags[i + 1]);
        }
        lemma_flag_chars_are_plain(rest);
        let code = flags[0].code;
        assert(is_upper_word(code));
        let all = flag_chars(flags);
        assert forall|i: int| 0 <= i < all.len() implies all[i] != '"' && all[i] != '$' by {
            if 1 <= i < 1 + code.len() {
                assert(all[i] == code[i - 1]);
                assert(is_upper(code[i - 1]));
            } else if i >= 1 + code.len() {
                assert(all[i] == flag_chars(rest)[i - 1 - code.len()]);
            }
        }
    }
}

/// The spelling of arguments with plain values holds no delimiter.
pub proof fn lemma_arguments_chars_hold_no_delimiter(args: Seq<ArgumentView>)
    requires
        forall|i: int|
            0 <= i < args.len() ==> ((#[trigger] args[i]).key matches Some(key) ==> is_upper_word(
                key,
            )),
        values_are_plain(args),
    ensures
        forall|i: int| 0 <= i < arguments_chars(args).len() ==> arguments_chars(args)[i] != '$',
    decreases args.len(),
{
    if args.len() > 0 {
        let arg = args[0];
        let rest = args.drop_first();
        assert forall|i: int| 0 <= i < rest.len() implies ((#[trigger] rest[i]).key matches Some(
            key,
        ) ==> is_upper_word(key)) by {
            assert(rest[i] == args[i + 1]);
        }
        assert forall|i: int| 0 <= i < rest.len() implies is_plain((#[trigger] rest[i]).value) by {
            assert(rest[i] == args[i + 1]);
        }
        lemma_arguments_chars_hold_no_delimiter(rest);
        assert(is_plain(arg.value));
        let head = argument_chars(arg);
        let all = arguments_chars(args);
        assert forall|i: int| 0 <= i < head.len() implies head[i] != '$' by {
            match arg.key {
                Some(key) => {
                    assert(is_upper_word(key));
                    if 1 <= i < 1 + key.len() {
                        assert(head[i] == key[i - 1]);
                        assert(is_upper(key[i - 1]));
                    } else if 3 + key.len() <= i < 3 + key.len() + arg.value.len() {
                        assert(head[i] == arg.value[i - 3 - key.len()]);
                    }
                },
                None => {
                    if 2 <= i < 2 + arg.value.len() {
                        assert(head[i] == arg.value[i - 2]);
                    }
                },
            }
        }
        assert forall|i: int| 0 <= i < all.len() implies all[i] != '$' by {
            if i < head.len() {
                assert(all[i] == head[i]);
            } else {
                assert(all[i] == arguments_chars(rest)[i - head.len()]);
            }
        }
    }
}

/// The index behind the code of a written command.
pub open spec fn code_end(command: CommandView) -> int {
    1 + command.code.len() as int
}

/// The index behind the flags of a written command.
pub open spec fn flags_end(command: CommandView) -> int {
    code_end(command) + flag_chars(command.flags).len()
}

/// The index behind the arguments of a written command, where its closing
/// delimiter stands.
pub open spec fn arguments_end(command: CommandView) -> int {
    flags_end(command) + arguments_chars(command.args).len()
}

/// Where the parts of a written command stand in it, and that the character
/// behind its code and the one behind its flags continue no literal.
pub proof fn lemma_written_command_layout(command: CommandView)
    ensures
        command_chars(command).len() == arguments_end(command) + 1,
        command_chars(command)[0] == '$',
        command_chars(command)[arguments_end(command)] == '$',
        has_at(command_chars(command), 1, command.code),
        has_at(command_chars(command), code_end(command), flag_chars(command.flags)),
        has_at(command_chars(command), flags_end(command), arguments_chars(command.args)),
        !continues_literal(command_chars(command)[code_end(command)]),
        !continues_literal(command_chars(command)[flags_end(command)]),
{
    let s = command_chars(command);
    let open = seq!['$'];
    let code = command.code;
    let f = flag_chars(command.flags);
    let a = arguments_chars(command.args);
    let after_code = 1 + code.len() as int;
    let after_flags = after_code + f.len();
    let close = after_flags + a.len();
    assert(s.len() == close + 1);
    assert(s.subrange(0, s.len() as int) =~= s);
    assert(s =~= open + (code + (f + (a + open))));
    lemma_has_at_split(s, 0, open, code + (f + (a + open)));
    lemma_has_at_split(s, 1, code, f + (a + open));
    lemma_has_at_split(s, after_code, f, a + open);
    lemma_has_at_split(s, after_flags, a, open);
    lemma_has_at_index(s, 0, open, 0);
    lemma_has_at_index(s, close, open, 0);
    // The character behind the flags is a comma or the closing delimiter.
    if command.args.len() > 0 {
        assert(a == argument_chars(command.args[0]) + arguments_chars(
            command.args.drop_first(),
        ));
        assert(argument_chars(command.args[0])[0] == ',');
        lemma_has_at_index(s, after_flags, a, 0);
        assert(s[after_flags] == ',');
    } else {
        assert(s[after_flags] == '$');
    }
    // The character behind the code is a sign, or the one behind the flags.
    if command.flags.len() > 0 {
        lemma_has_at_index(s, after_code, f, 0);
        assert(s[after_code] == '+' || s[after_code] == '-');
    } else {
        assert(after_code == after_flags);
    }
}

/// The lexer reads a written command as the tokens that spell it, and stops at
/// its end.
pub proof fn law_written_command_is_lexed(command: CommandView)
    requires
        is_well_formed(command),
        values_are_plain(command.args),
    ensures
        lex_block(command_chars(command), 0) == (LexOutcome {
            result: Ok(command_tokens(command)),
            end: command_chars(command).len() as int,
        }),
{
    let s = command_chars(command);
    let code = command.code;
    let after_code = code_end(command);
    let after_flags = flags_end(command);
    let close = arguments_end(command);
    let tail = LexOutcome { result: Ok(seq![TokenView::Dollar]), end: close + 1 };
    let ft = flag_tokens(command.flags);
    let at = arguments_tokens(command.args);
    let word = seq![TokenView::Literal(code)];
    lemma_written_command_layout(command);
    assert(lex_tokens(s, close) == tail);
    assert(lex_tokens(s, after_flags) == lex_prepend(at, tail)) by {
        lemma_lex_arguments(s, after_flags, command.args);
    }
    assert(lex_tokens(s, after_code) == lex_prepend(ft + at, tail)) by {
        lemma_lex_flags(s, after_code, command.flags);
        lemma_lex_prepend_concat(ft, at, tail);
    }
    assert(lex_tokens(s, 1) == lex_prepend(word + (ft + at), tail)) by {
        lemma_lex_word(s, 1, code);
        lemma_lex_prepend_concat(word, ft + at, tail);
    }
    assert(lex_block(s, 0) == lex_prepend(seq![TokenView::Dollar] + (word + (ft + at)), tail)) by {
        lemma_lex_prepend_concat(seq![TokenView::Dollar], word + (ft + at), tail);
    }
    assert((seq![TokenView::Dollar] + (word + (ft + at))) + seq![TokenView::Dollar]
        =~= command_tokens(command));
}

/// What is written is read back. A well-formed command, written out with its
/// values in quotes, stands for what the table says of its code, with its
/// flags and its arguments as they were, in their order; and a document that
/// holds nothing else has that one entry. An argument without a key is read
/// back without one, and a repeated code or key is read back as often as it
/// was written.
pub proof fn law_written_command_is_read_back(command: CommandView)
    requires
        is_well_formed(command),
        values_are_plain(command.args),
    ensures
        command_entry(command_chars(command)) == Ok::<_, ParseErrorView>(
            resolve(command.code, command.flags, command.args),
        ),
        parse_document(command_chars(command)) == match resolve(
            command.code,
            command.flags,
            command.args,
        ) {
            Ok(entry) => Ok(seq![entry]),
            Err(e) => Err(ParseErrorView::DocError(e)),
        },
{
    let s = command_chars(command);
    let code = command.code;
    let f = flag_chars(command.flags);
    let a = arguments_chars(command.args);
    law_written_command_is_lexed(command);
    law_spelled_command_is_read_back(command);
    lemma_flag_chars_are_plain(command.flags);
    lemma_arguments_chars_hold_no_delimiter(command.args);
    assert(is_block(s)) by {
        assert(s[0] == '$');
        assert(s[s.len() - 1] == '$');
        assert forall|i: int| 0 < i < s.len() - 1 implies s[i] != '$' by {
            if i < 1 + code.len() {
                assert(s[i] == code[i - 1]);
                assert(is_upper(code[i - 1]));
            } else if i < 1 + code.len() + f.len() {
                assert(s[i] == f[i - 1 - code.len()]);
            } else {
                assert(s[i] == a[i - 1 - code.len() - f.len()]);
            }
        }
    }
    lemma_span_parses_alone(s);
}

} // verus!
