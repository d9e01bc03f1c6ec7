//! The one call given on the command line: `<number> [<hint>:<value>]...`.

use vstd::prelude::*;
use vstd::string::StringSliceAdditionalSpecFns;
use vstd::utf8::encode_utf8;
use syscalls::Sysno;
use crate::cast::Arena;
use crate::cast::ArgValue;
use crate::cast::CastArg;
use crate::cast::cast_value;
use crate::cast::lemma_cast_outcome;
use crate::error::ScxError;
use crate::number::decimal_value;
use crate::number::parse_decimal;
use crate::statement::MAX_ARGS;
use crate::statement::StatementModel;
use crate::statement::SyscallStatement;
use crate::statement::arg_values;
use crate::sysno::resolve_sysno;
use crate::sysno::sysno_known;

verus! {

/// The UTF-8 bytes of each argument.
pub open spec fn arg_bytes(args: Seq<String>) -> Seq<Seq<u8>> {
    args.map_values(|s: String| encode_utf8(s@))
}

/// What each typed token casts to, or the error of the first that fails.
pub open spec fn cast_values(tokens: Seq<Seq<u8>>) -> Result<Seq<ArgValue>, ScxError>
    decreases tokens.len(),
{
    if tokens.len() == 0 {
        Ok(Seq::empty())
    } else {
        match cast_values(tokens.drop_last()) {
            Err(e) => Err(e),
            Ok(vs) => match cast_value(tokens.last()) {
                Err(e) => Err(e),
                Ok(v) => Ok(vs.push(v)),
            },
        }
    }
}

/// At most the first six of `vs`.
pub open spec fn first_six(vs: Seq<ArgValue>) -> Seq<ArgValue> {
    if vs.len() > MAX_ARGS {
        vs.take(MAX_ARGS as int)
    } else {
        vs
    }
}

/// The call that the command line `args` asks for (`args[0]` is the
/// program). `args[1]` is the call number, an unsigned decimal; every later
/// argument is a typed token, and all of them are cast, but only the first
/// six are passed.
pub open spec fn cli_statement(args: Seq<Seq<u8>>) -> Result<StatementModel, ScxError> {
    if args.len() < 2 {
        Err(ScxError::ArgumentCount)
    } else {
        match decimal_value(args[1]) {
            None => Err(ScxError::Parse),
            Some(id) => if !sysno_known(id) {
                Err(ScxError::UnknownSyscall)
            } else {
                match cast_values(args.subrange(2, args.len() as int)) {
                    Err(e) => Err(e),
                    Ok(vs) => Ok(StatementModel { id, args: first_six(vs) }),
                }
            },
        }
    }
}

proof fn lemma_cast_error_stays(ts: Seq<Seq<u8>>, k: int)
    requires
        0 <= k <= ts.len(),
        cast_values(ts.take(k)) is Err,
    ensures
        cast_values(ts) == cast_values(ts.take(k)),
    decreases ts.len(),
{
    if k < ts.len() {
        assert(ts.drop_last().take(k) =~= ts.take(k));
        lemma_cast_error_stays(ts.drop_last(), k);
    } else {
        assert(ts.take(k) =~= ts);
    }
}

proof fn lemma_arena_grows(base: Seq<Seq<u8>>, a: Seq<Seq<u8>>, b: Seq<Seq<u8>>)
    requires
        base.len() <= a.len(),
        a.take(base.len() as int) == base,
        a.len() <= b.len(),
        b.take(a.len() as int) == a,
    ensures
        base.len() <= b.len(),
        b.take(base.len() as int) == base,
{
    assert forall|j: int| 0 <= j < base.len() implies b[j] == base[j] by {
        assert(b.take(a.len() as int)[j] == b[j]);
        assert(a.take(base.len() as int)[j] == a[j]);
    }
    assert(b.take(base.len() as int) =~= base);
}

/// One more cast argument: kept while fewer than six are, dropped after.
proof fn lemma_keep_first_six(
    casts0: Seq<CastArg>,
    casts1: Seq<CastArg>,
    a: Seq<Seq<u8>>,
    b: Seq<Seq<u8>>,
    c: CastArg,
    vs: Seq<ArgValue>,
    v: ArgValue,
)
    requires
        arg_values(casts0, a) == first_six(vs),
        casts0.len() <= MAX_ARGS,
        forall|j: int| 0 <= j < casts0.len() ==> (#[trigger] casts0[j]).fits(a.len()),
        a.len() <= b.len(),
        b.take(a.len() as int) == a,
        c.value(b) == v,
        c.fits(b.len()),
        casts1 == (if casts0.len() < MAX_ARGS {
            casts0.push(c)
        } else {
            casts0
        }),
    ensures
        arg_values(casts1, b) == first_six(vs.push(v)),
        casts1.len() <= MAX_ARGS,
        forall|j: int| 0 <= j < casts1.len() ==> (#[trigger] casts1[j]).fits(b.len()),
{
    assert forall|j: int| 0 <= j < casts0.len() implies #[trigger] casts0[j].value(a)
        == casts0[j].value(b) && casts0[j].fits(b.len()) by {
        assert(casts0[j].fits(a.len()));
        if let CastArg::String(slot) = casts0[j] {
            assert(b.take(a.len() as int)[slot as int] == b[slot as int]);
        }
    }
    assert(arg_values(casts0, b) =~= arg_values(casts0, a));
    if casts0.len() < MAX_ARGS {
        assert(first_six(vs) == vs);
        assert(arg_values(casts1, b) =~= vs.push(v));
        assert forall|j: int| 0 <= j < casts1.len() implies (#[trigger] casts1[j]).fits(b.len()) by {
            if j < casts0.len() {
                assert(casts1[j] == casts0[j]);
            }
        }
    } else {
        assert(vs.push(v).take(MAX_ARGS as int) =~= vs.take(MAX_ARGS as int));
    }
}

/// Reads the command line `args` (`args[0]` is the program) into the system
/// call to make and its statement. String text goes into `arena`.
pub fn parse_args(args: &Vec<String>, arena: &mut Arena) -> (r: Result<(Sysno, SyscallStatement), ScxError>)
    ensures
        match r {
            Ok((_, s)) => cli_statement(arg_bytes(args@)) == Ok::<StatementModel, ScxError>(
                s.model(final(arena)@),
            ) && s.wf(final(arena)@.len()),
            Err(e) => cli_statement(arg_bytes(args@)) == Err::<StatementModel, ScxError>(e),
        },
        old(arena)@.len() <= final(arena)@.len(),
        final(arena)@.take(old(arena)@.len() as int) == old(arena)@,
{
    let ghost all = arg_bytes(args@);
    let ghost base = arena@;
    proof {
        assert(arena@.take(base.len() as int) =~= base);
    }
    if args.len() < 2 {
        return Err(ScxError::ArgumentCount);
    }
    let id = match parse_decimal(args[1].as_str().as_bytes()) {
        Some(v) => v,
        None => return Err(ScxError::Parse),
    };
    let sysno = match resolve_sysno(id) {
        Ok(s) => s,
        Err(e) => return Err(e),
    };
    let ghost toks = all.subrange(2, all.len() as int);
    let mut casts: Vec<CastArg> = Vec::new();
    let mut i: usize = 2;
    assert(toks.take(0) =~= Seq::<Seq<u8>>::empty());
    assert(arg_values(casts@, arena@) =~= Seq::<ArgValue>::empty());
    while i < args.len()
        invariant
            2 <= i <= args@.len(),
            all == arg_bytes(args@),
            toks == all.subrange(2, all.len() as int),
            base == old(arena)@,
            decimal_value(all[1]) == Some(id),
            sysno_known(id),
            cast_values(toks.take(i - 2)) is Ok,
            arg_values(casts@, arena@) == first_six(cast_values(toks.take(i - 2))->Ok_0),
            casts@.len() <= MAX_ARGS,
            forall|j: int| 0 <= j < casts@.len() ==> (#[trigger] casts@[j]).fits(arena@.len()),
            base.len() <= arena@.len(),
            arena@.take(base.len() as int) == base,
        decreases args@.len() - i,
    {
        let ghost vs = cast_values(toks.take(i - 2))->Ok_0;
        let ghost arena0 = arena@;
        let ghost casts0 = casts@;
        assert(toks.take(i - 1).drop_last() =~= toks.take(i - 2));
        assert(toks.take(i - 1).last() == all[i as int]);
        let text = args[i].as_str();
        assert(text.spec_bytes() == all[i as int]);
        let c = match CastArg::new(text, arena) {
            Ok(c) => c,
            Err(e) => {
                proof {
                    lemma_cast_error_stays(toks, i - 1);
                }
                return Err(e);
            },
        };
        let ghost v = cast_value(all[i as int])->Ok_0;
        proof {
            lemma_cast_outcome(all[i as int], c, arena0, arena@);
            assert(cast_values(toks.take(i - 1)) == Ok::<Seq<ArgValue>, ScxError>(vs.push(v)));
            lemma_arena_grows(base, arena0, arena@);
        }
        if casts.len() < MAX_ARGS {
            casts.push(c);
        }
        proof {
            lemma_keep_first_six(casts0, casts@, arena0, arena@, c, vs, v);
        }
        i = i + 1;
    }
    assert(toks.take(i - 2) =~= toks);
    Ok((sysno, SyscallStatement { id, args: casts }))
}

} // verus!
