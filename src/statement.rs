//! `syscall` statements: one script line, or the command line, turned into a
//! call number and its typed arguments.

use vstd::prelude::*;
use vstd::slice::slice_subrange;
use crate::cast::Arena;
use crate::cast::ArgValue;
use crate::cast::CastArg;
use crate::error::ScxError;
use crate::lexer::Token;
use crate::lexer::TokenKind;
use crate::lexer::tokenize;
use crate::lexer::lemma_tokens_fit;
use crate::lexer::token_fits;
use crate::lexer::tokens_of;
use crate::number::parse_word;
use crate::number::word_value;

verus! {

/// The byte of `\`, which starts an escape in a string.
pub const BACKSLASH: u8 = 0x5c;

/// The most arguments a call takes.
pub const MAX_ARGS: usize = 6;

/// A string's text with `\n` read as a line feed and `\t` as a tab, left to
/// right; every other byte stands for itself.
pub open spec fn unescape(s: Seq<u8>) -> Seq<u8>
    decreases s.len(),
{
    if s.len() == 0 {
        Seq::empty()
    } else if s.len() >= 2 && s[0] == BACKSLASH && s[1] == 0x6e {
        seq![0x0au8] + unescape(s.subrange(2, s.len() as int))
    } else if s.len() >= 2 && s[0] == BACKSLASH && s[1] == 0x74 {
        seq![0x09u8] + unescape(s.subrange(2, s.len() as int))
    } else {
        seq![s[0]] + unescape(s.subrange(1, s.len() as int))
    }
}

/// The text of a quoted string token: the quotes dropped, the escapes read.
pub fn parse_string_literal(literal: &[u8]) -> (r: Vec<u8>)
    requires
        literal@.len() >= 2,
    ensures
        r@ == unescape(literal@.subrange(1, literal@.len() - 1)),
{
    let inner = slice_subrange(literal, 1, literal.len() - 1);
    let m = inner.len();
    let mut out: Vec<u8> = Vec::new();
    let mut i: usize = 0;
    assert(inner@.subrange(0, m as int) =~= inner@);
    assert(out@ + unescape(inner@) =~= unescape(inner@));
    while i < m
        invariant
            m == inner@.len(),
            i <= m,
            literal@.len() >= 2,
            inner@ == literal@.subrange(1, literal@.len() - 1),
            unescape(inner@) == out@ + unescape(inner@.subrange(i as int, m as int)),
        decreases m - i,
    {
        let ghost rest = inner@.subrange(i as int, m as int);
        let ghost before = out@;
        if i + 1 < m && inner[i] == BACKSLASH && (inner[i + 1] == 0x6e || inner[i + 1] == 0x74) {
            if inner[i + 1] == 0x6e {
                out.push(0x0a);
            } else {
                out.push(0x09);
            }
            assert(rest.subrange(2, rest.len() as int) =~= inner@.subrange(i + 2, m as int));
            assert(before + (seq![out@.last()] + unescape(inner@.subrange(i + 2, m as int)))
                =~= out@ + unescape(inner@.subrange(i + 2, m as int)));
            i = i + 2;
        } else {
            out.push(inner[i]);
            assert(rest.subrange(1, rest.len() as int) =~= inner@.subrange(i + 1, m as int));
            assert(before + (seq![inner@[i as int]] + unescape(inner@.subrange(i + 1, m as int)))
                =~= out@ + unescape(inner@.subrange(i + 1, m as int)));
            i = i + 1;
        }
    }
    assert(out@ + Seq::<u8>::empty() =~= out@);
    out
}

/// A call as the model sees it: its number and what each argument stands for.
pub struct StatementModel {
    pub id: usize,
    pub args: Seq<ArgValue>,
}

/// A call to make: its number and its arguments, whose string text lives in
/// an `Arena`.
pub struct SyscallStatement {
    pub id: usize,
    pub args: Vec<CastArg>,
}

/// What each argument stands for, given the arena's buffers.
pub open spec fn arg_values(args: Seq<CastArg>, arena: Seq<Seq<u8>>) -> Seq<ArgValue> {
    args.map_values(|a: CastArg| a.value(arena))
}

/// The texts among `vs`, in order.
pub open spec fn texts(vs: Seq<ArgValue>) -> Seq<Seq<u8>>
    decreases vs.len(),
{
    if vs.len() == 0 {
        Seq::empty()
    } else {
        match vs.last() {
            ArgValue::Text(t) => texts(vs.drop_last()).push(t),
            ArgValue::Word(_) => texts(vs.drop_last()),
        }
    }
}

impl SyscallStatement {
    /// At most six arguments, each string in a slot the arena has.
    pub open spec fn wf(&self, arena_len: nat) -> bool {
        &&& self.args@.len() <= MAX_ARGS
        &&& forall|k: int| 0 <= k < self.args@.len() ==> (#[trigger] self.args@[k]).fits(arena_len)
    }

    /// The call this statement stands for, given the arena's buffers.
    pub open spec fn model(&self, arena: Seq<Seq<u8>>) -> StatementModel {
        StatementModel { id: self.id, args: arg_values(self.args@, arena) }
    }

    /// The six words handed to the call, given the address of each of the
    /// arena's buffers; the slots past the last argument hold zero.
    pub fn words(&self, addresses: &Vec<usize>) -> (r: [usize; 6])
        requires
            self.wf(addresses@.len()),
        ensures
            forall|k: int|
                0 <= k < 6 ==> #[trigger] r@[k] == (if k < self.args@.len() {
                    self.args@[k].word(addresses@)
                } else {
                    0
                }),
    {
        let mut r: [usize; 6] = [0, 0, 0, 0, 0, 0];
        let mut k: usize = 0;
        while k < self.args.len()
            invariant
                self.wf(addresses@.len()),
                k <= self.args@.len() <= 6,
                forall|j: int|
                    0 <= j < 6 ==> #[trigger] r@[j] == (if j < k {
                        self.args@[j].word(addresses@)
                    } else {
                        0
                    }),
            decreases self.args@.len() - k,
        {
            assert(self.args@[k as int].fits(addresses@.len()));
            let w = self.args[k].get_usize(addresses);
            r[k] = w;
            k = k + 1;
        }
        r
    }
}

/// Growing the arena at its end leaves what a statement stands for alone.
pub proof fn lemma_model_stable(s: &SyscallStatement, a: Seq<Seq<u8>>, b: Seq<Seq<u8>>)
    requires
        s.wf(a.len()),
        a.len() <= b.len(),
        b.take(a.len() as int) == a,
    ensures
        s.model(a) == s.model(b),
        s.wf(b.len()),
{
    assert forall|k: int| 0 <= k < s.args@.len() implies #[trigger] s.args@[k].value(a)
        == s.args@[k].value(b) by {
        assert(s.args@[k].fits(a.len()));
        if let CastArg::String(slot) = s.args@[k] {
            assert(b.take(a.len() as int)[slot as int] == b[slot as int]);
        }
    }
    assert(arg_values(s.args@, a) =~= arg_values(s.args@, b));
}

/// The bytes a token covers.
pub open spec fn token_text(line: Seq<u8>, t: Token) -> Seq<u8> {
    line.subrange(t.start as int, t.end as int)
}

/// The tokens of `ts` that are not the keyword, in order.
pub open spec fn without_keywords(ts: Seq<Token>) -> Seq<Token>
    decreases ts.len(),
{
    if ts.len() == 0 {
        Seq::empty()
    } else if ts.last().kind == TokenKind::Syscall {
        without_keywords(ts.drop_last())
    } else {
        without_keywords(ts.drop_last()).push(ts.last())
    }
}

/// What an operand token stands for: a string its unescaped text between the
/// quotes, a number its machine word.
pub open spec fn operand_value(line: Seq<u8>, t: Token) -> Result<ArgValue, ScxError> {
    if t.kind == TokenKind::String {
        Ok(ArgValue::Text(unescape(line.subrange(t.start + 1, t.end - 1))))
    } else {
        match word_value(token_text(line, t)) {
            Some(w) => Ok(ArgValue::Word(w)),
            None => Err(ScxError::Parse),
        }
    }
}

/// What each of `ts` stands for, or the error of the first that fails.
pub open spec fn operand_values(line: Seq<u8>, ts: Seq<Token>) -> Result<Seq<ArgValue>, ScxError>
    decreases ts.len(),
{
    if ts.len() == 0 {
        Ok(Seq::empty())
    } else {
        match operand_values(line, ts.drop_last()) {
            Err(e) => Err(e),
            Ok(vs) => match operand_value(line, ts.last()) {
                Err(e) => Err(e),
                Ok(v) => Ok(vs.push(v)),
            },
        }
    }
}

/// The call number that a token gives: only a number token gives one.
pub open spec fn call_number(line: Seq<u8>, t: Token) -> Result<usize, ScxError> {
    if t.kind == TokenKind::Number {
        match word_value(token_text(line, t)) {
            Some(w) => Ok(w),
            None => Err(ScxError::Parse),
        }
    } else {
        Err(ScxError::Parse)
    }
}

/// The statement on one script line. A line whose first token is not
/// `syscall` has none. After the keyword, the operands (the tokens other than
/// the keyword) are the call number and then the arguments: one to seven of
/// them, else the count is wrong.
pub open spec fn statement_of(line: Seq<u8>) -> Result<Option<StatementModel>, ScxError> {
    match tokens_of(line) {
        None => Err(ScxError::Tokenization),
        Some(ts) => if ts.len() == 0 || ts[0].kind != TokenKind::Syscall {
            Ok(None)
        } else {
            let ops = without_keywords(ts.drop_first());
            if ops.len() == 0 || ops.len() > MAX_ARGS + 1 {
                Err(ScxError::ArgumentCount)
            } else {
                match call_number(line, ops[0]) {
                    Err(e) => Err(e),
                    Ok(id) => match operand_values(line, ops.drop_first()) {
                        Err(e) => Err(e),
                        Ok(vs) => Ok(Some(StatementModel { id, args: vs })),
                    },
                }
            }
        },
    }
}

proof fn lemma_without_keywords_fit(line: Seq<u8>, ts: Seq<Token>)
    requires
        forall|k: int| 0 <= k < ts.len() ==> token_fits(line, #[trigger] ts[k]),
    ensures
        forall|k: int|
            0 <= k < without_keywords(ts).len() ==> token_fits(line, #[trigger] without_keywords(ts)[k]),
    decreases ts.len(),
{
    if ts.len() > 0 {
        let init = ts.drop_last();
        assert forall|k: int| 0 <= k < init.len() implies token_fits(line, #[trigger] init[k]) by {
            assert(init[k] == ts[k]);
        }
        lemma_without_keywords_fit(line, init);
        let w = without_keywords(init);
        let last = ts[ts.len() - 1];
        assert(token_fits(line, last));
        assert forall|k: int| 0 <= k < w.push(last).len() implies token_fits(
            line,
            #[trigger] w.push(last)[k],
        ) by {
            if k < w.len() {
                assert(w.push(last)[k] == w[k]);
            }
        }
    }
}

proof fn lemma_operand_error_stays(line: Seq<u8>, ts: Seq<Token>, k: int)
    requires
        0 <= k <= ts.len(),
        operand_values(line, ts.take(k)) is Err,
    ensures
        operand_values(line, ts) == operand_values(line, ts.take(k)),
    decreases ts.len(),
{
    if k < ts.len() {
        assert(ts.drop_last().take(k) =~= ts.take(k));
        lemma_operand_error_stays(line, ts.drop_last(), k);
    } else {
        assert(ts.take(k) =~= ts);
    }
}

/// Reads the statement on one script line. A string argument's text is added
/// to `arena`; on success nothing else is.
pub fn parse_statement(line: &[u8], arena: &mut Arena) -> (r: Result<Option<SyscallStatement>, ScxError>)
    ensures
        match r {
            Ok(None) => statement_of(line@) == Ok::<Option<StatementModel>, ScxError>(None)
                && final(arena)@ == old(arena)@,
            Ok(Some(s)) => statement_of(line@) == Ok::<Option<StatementModel>, ScxError>(
                Some(s.model(final(arena)@)),
            ) && s.wf(final(arena)@.len()) && final(arena)@ == old(arena)@ + texts(
                s.model(final(arena)@).args,
            ),
            Err(e) => statement_of(line@) == Err::<Option<StatementModel>, ScxError>(e)
                && old(arena)@.len() <= final(arena)@.len()
                && final(arena)@.take(old(arena)@.len() as int) == old(arena)@,
        },
{
    let line_len = line.len();
    let tokens = match tokenize(line) {
        Ok(ts) => ts,
        Err(e) => return Err(e),
    };
    proof {
        assert(line@.len() == line_len);
        lemma_tokens_fit(line@);
    }
    if tokens.len() == 0 || tokens[0].kind != TokenKind::Syscall {
        return Ok(None);
    }
    let ghost rest = tokens@.drop_first();
    let mut ops: Vec<Token> = Vec::new();
    let mut i: usize = 1;
    while i < tokens.len()
        invariant
            1 <= i <= tokens@.len(),
            rest == tokens@.drop_first(),
            ops@ == without_keywords(tokens@.subrange(1, i as int)),
        decreases tokens@.len() - i,
    {
        assert(tokens@.subrange(1, i + 1).drop_last() =~= tokens@.subrange(1, i as int));
        if tokens[i].kind != TokenKind::Syscall {
            ops.push(tokens[i]);
        }
        i = i + 1;
    }
    assert(tokens@.subrange(1, tokens@.len() as int) =~= rest);
    proof {
        assert forall|k: int| 0 <= k < rest.len() implies token_fits(line@, #[trigger] rest[k]) by {
            assert(rest[k] == tokens@[k + 1]);
        }
        lemma_without_keywords_fit(line@, rest);
    }
    if ops.len() == 0 || ops.len() > MAX_ARGS + 1 {
        return Err(ScxError::ArgumentCount);
    }
    let first = ops[0];
    if first.kind != TokenKind::Number {
        return Err(ScxError::Parse);
    }
    assert(token_fits(line@, ops@[0]));
    let id = match parse_word(slice_subrange(line, first.start, first.end)) {
        Some(w) => w,
        None => return Err(ScxError::Parse),
    };
    assert(call_number(line@, ops@[0]) == Ok::<usize, ScxError>(id));
    let ghost base = arena@;
    let ghost tail = ops@.drop_first();
    let mut args: Vec<CastArg> = Vec::new();
    let mut k: usize = 1;
    assert(tail.subrange(0, 0) =~= Seq::<Token>::empty());
    assert(arg_values(args@, arena@) =~= Seq::<ArgValue>::empty());
    assert(base + Seq::<Seq<u8>>::empty() =~= base);
    while k < ops.len()
        invariant
            1 <= k <= ops@.len() <= MAX_ARGS + 1,
            tail == ops@.drop_first(),
            base == old(arena)@,
            tokens_of(line@) == Some(tokens@),
            tokens@.len() > 0 && tokens@[0].kind == TokenKind::Syscall,
            ops@ == without_keywords(tokens@.drop_first()),
            call_number(line@, ops@[0]) == Ok::<usize, ScxError>(id),
            forall|j: int| 0 <= j < ops@.len() ==> token_fits(line@, #[trigger] ops@[j]),
            operand_values(line@, tail.subrange(0, k - 1)) is Ok,
            arg_values(args@, arena@) == operand_values(line@, tail.subrange(0, k - 1))->Ok_0,
            arena@ == base + texts(operand_values(line@, tail.subrange(0, k - 1))->Ok_0),
            args@.len() == k - 1,
            forall|j: int| 0 <= j < args@.len() ==> (#[trigger] args@[j]).fits(arena@.len()),
        decreases ops@.len() - k,
    {
        let t = ops[k];
        let ghost prev = tail.subrange(0, k - 1);
        let ghost vs = operand_values(line@, prev)->Ok_0;
        let ghost arena0 = arena@;
        let ghost args0 = args@;
        assert(tail.subrange(0, k as int).drop_last() =~= prev);
        assert(tail.subrange(0, k as int).last() == t);
        assert(token_fits(line@, ops@[k as int]));
        let text = slice_subrange(line, t.start, t.end);
        if t.kind == TokenKind::String {
            let decoded = parse_string_literal(text);
            assert(text@.subrange(1, text@.len() - 1) =~= line@.subrange(t.start + 1, t.end - 1));
            let slot = arena.store(decoded);
            args.push(CastArg::String(slot));
            proof {
                let v = ArgValue::Text(decoded@);
                assert(vs.push(v).drop_last() =~= vs);
                assert(arena@.take(arena0.len() as int) =~= arena0);
                assert forall|j: int| 0 <= j < args@.len() implies (#[trigger] args@[j]).fits(
                    arena@.len(),
                ) by {
                    if j < args0.len() {
                        assert(args@[j] == args0[j]);
                        assert(args0[j].fits(arena0.len()));
                    }
                }
                assert forall|j: int| 0 <= j < args0.len() implies #[trigger] args0[j].value(arena0)
                    == args0[j].value(arena@) by {
                    assert(args0[j].fits(arena0.len()));
                }
                assert(arg_values(args@, arena@) =~= vs.push(v));
                assert(base + texts(vs.push(v)) =~= (base + texts(vs)).push(decoded@));
            }
        } else {
            let w = match parse_word(text) {
                Some(w) => w,
                None => {
                    proof {
                        assert(base.len() <= arena@.len());
                        assert(arena@.take(base.len() as int) =~= base);
                        assert(tail.take(k as int) =~= tail.subrange(0, k as int));
                        assert(operand_value(line@, t) == Err::<ArgValue, ScxError>(ScxError::Parse));
                        assert(operand_values(line@, tail.subrange(0, k as int)) == Err::<
                            Seq<ArgValue>,
                            ScxError,
                        >(ScxError::Parse));
                        lemma_operand_error_stays(line@, tail, k as int);
                    }
                    return Err(ScxError::Parse);
                },
            };
            args.push(CastArg::Number(w));
            proof {
                let v = ArgValue::Word(w);
                assert(vs.push(v).drop_last() =~= vs);
                assert forall|j: int| 0 <= j < args@.len() implies (#[trigger] args@[j]).fits(
                    arena@.len(),
                ) by {
                    if j < args0.len() {
                        assert(args@[j] == args0[j]);
                    }
                }
                assert(arg_values(args@, arena@) =~= vs.push(v));
            }
        }
        k = k + 1;
    }
    assert(tail.subrange(0, ops@.len() - 1) =~= tail);
    let s = SyscallStatement { id, args };
    Ok(Some(s))
}

} // verus!
