//! Properties that hold of every input, proved from the definitions that the
//! functions' contracts use.

use vstd::prelude::*;
use crate::cast::ArgValue;
use crate::cast::HINT_NUMBER;
use crate::cast::HINT_STRING;
use crate::cast::SEPARATOR;
use crate::cast::cast_value;
use crate::cli::cast_values;
use crate::cli::cli_statement;
use crate::error::ScxError;
use crate::lexer::Token;
use crate::lexer::TokenKind;
use crate::lexer::tokens_of;
use crate::number::MINUS;
use crate::number::all_digits;
use crate::number::digits_value;
use crate::number::is_digit;
use crate::number::word_value;
use crate::script::plan_of;
use crate::statement::MAX_ARGS;
use crate::statement::StatementModel;
use crate::statement::operand_values;
use crate::statement::statement_of;
use crate::statement::without_keywords;

verus! {

/// A token `s:<text>` casts to exactly the bytes of `<text>`.
pub proof fn law_string_token_is_its_text(text: Seq<u8>)
    requires
        text.len() > 0,
    ensures
        cast_value(seq![HINT_STRING, SEPARATOR] + text) == Ok::<ArgValue, ScxError>(
            ArgValue::Text(text),
        ),
{
    let token = seq![HINT_STRING, SEPARATOR] + text;
    assert(token.subrange(2, token.len() as int) =~= text);
}

/// A token `n:<digits>` casts to the number the digits spell, when it fits a
/// machine word.
pub proof fn law_number_token_is_its_value(digits: Seq<u8>)
    requires
        digits.len() > 0,
        all_digits(digits),
        digits_value(digits) <= usize::MAX,
    ensures
        cast_value(seq![HINT_NUMBER, SEPARATOR] + digits) == Ok::<ArgValue, ScxError>(
            ArgValue::Word(digits_value(digits) as usize),
        ),
{
    let token = seq![HINT_NUMBER, SEPARATOR] + digits;
    assert(token.subrange(2, token.len() as int) =~= digits);
    assert(is_digit(digits[0]));
}

/// `n:-1` casts to the all-ones machine word.
pub proof fn law_minus_one_is_all_ones()
    ensures
        cast_value(seq![HINT_NUMBER, SEPARATOR, MINUS, 0x31u8]) == Ok::<ArgValue, ScxError>(
            ArgValue::Word(usize::MAX),
        ),
{
    let token = seq![HINT_NUMBER, SEPARATOR, MINUS, 0x31u8];
    let value = token.subrange(2, token.len() as int);
    assert(value =~= seq![MINUS, 0x31u8]);
    let one = value.drop_first();
    assert(one =~= seq![0x31u8]);
    assert(one.drop_last() =~= Seq::<u8>::empty());
    assert(one.last() == 0x31u8);
    assert(digits_value(one.drop_last()) == 0);
    assert(digits_value(one) == 1);
    assert(word_value(value) == Some(usize::MAX));
}

/// A token shorter than three bytes, or whose hint is neither `s` nor `n`,
/// is refused as badly formed.
pub proof fn law_bad_token_is_format_error(token: Seq<u8>)
    requires
        token.len() < 3 || (token[0] != HINT_STRING && token[0] != HINT_NUMBER),
    ensures
        cast_value(token) == Err::<ArgValue, ScxError>(ScxError::ArgumentFormat),
{
}

/// A `syscall` line with no operands, or with more than seven (a number and
/// over six arguments), fails with `ArgumentCount`; one with a number and
/// six arguments is never refused for its count.
pub proof fn law_argument_count(line: Seq<u8>)
    requires
        tokens_of(line) matches Some(ts) && ts.len() > 0 && ts[0].kind == TokenKind::Syscall,
    ensures
        ({
            let ops = without_keywords(tokens_of(line)->Some_0.drop_first());
            &&& (ops.len() == 0 || ops.len() > MAX_ARGS + 1) ==> statement_of(line) == Err::<
                Option<StatementModel>,
                ScxError,
            >(ScxError::ArgumentCount)
            &&& ops.len() == MAX_ARGS + 1 ==> statement_of(line) != Err::<
                Option<StatementModel>,
                ScxError,
            >(ScxError::ArgumentCount)
        }),
{
    let ops = without_keywords(tokens_of(line)->Some_0.drop_first());
    if ops.len() > 0 {
        lemma_operand_errors_are_parse(line, ops.drop_first());
    }
}

proof fn lemma_operand_errors_are_parse(line: Seq<u8>, ts: Seq<Token>)
    ensures
        operand_values(line, ts) is Err ==> operand_values(line, ts) == Err::<Seq<ArgValue>, ScxError>(
            ScxError::Parse,
        ),
    decreases ts.len(),
{
    if ts.len() > 0 {
        lemma_operand_errors_are_parse(line, ts.drop_last());
    }
}

/// A script's calls come in the order of their lines, one for each line
/// that holds a statement, each being that line's statement. Whether a call
/// number is known plays no part: the platform is asked only when the call's
/// turn comes.
pub proof fn law_calls_in_file_order(lines: Seq<Seq<u8>>)
    requires
        plan_of(lines) is Ok,
    ensures
        ({
            let calls = plan_of(lines)->Ok_0;
            &&& forall|i: int, j: int| 0 <= i < j < calls.len() ==> #[trigger] calls[i].0 < #[trigger] calls[j].0
            &&& forall|k: int|
                0 <= k < calls.len() ==> 1 <= #[trigger] calls[k].0 <= lines.len() && statement_of(
                    lines[calls[k].0 - 1],
                ) == Ok::<Option<StatementModel>, ScxError>(Some(calls[k].1))
        }),
    decreases lines.len(),
{
    if lines.len() > 0 {
        let init = lines.drop_last();
        law_calls_in_file_order(init);
        let prev = plan_of(init)->Ok_0;
        assert forall|k: int| 0 <= k < prev.len() implies #[trigger] init[prev[k].0 - 1]
            == lines[prev[k].0 - 1] by {}
        assert forall|k: int| 0 <= k < prev.len() implies #[trigger] prev[k].0 < lines.len() by {}
    }
}

/// A command line with more than six typed arguments passes only the first
/// six of them.
pub proof fn law_only_six_arguments_pass(args: Seq<Seq<u8>>)
    requires
        args.len() > 2 + MAX_ARGS,
        cli_statement(args) is Ok,
    ensures
        cli_statement(args)->Ok_0.args == cast_values(args.subrange(2, args.len() as int))->Ok_0.take(
            MAX_ARGS as int,
        ),
        cli_statement(args)->Ok_0.args.len() == MAX_ARGS,
{
    lemma_cast_values_len(args.subrange(2, args.len() as int));
}

proof fn lemma_cast_values_len(ts: Seq<Seq<u8>>)
    ensures
        cast_values(ts) matches Ok(vs) ==> vs.len() == ts.len(),
    decreases ts.len(),
{
    if ts.len() > 0 {
        lemma_cast_values_len(ts.drop_last());
    }
}

} // verus!
