//! Scripts: every line is read before any call is made, and the calls are
//! then made in the order of their lines.

use vstd::prelude::*;
use syscalls::Sysno;
use crate::cast::Arena;
use crate::error::ScxError;
use crate::statement::StatementModel;
use crate::statement::SyscallStatement;
use crate::statement::lemma_model_stable;
use crate::statement::parse_statement;
use crate::statement::statement_of;
use crate::statement::texts;
use crate::sysno::resolve_sysno;
use crate::sysno::sysno_known;

verus! {

/// A statement held back until the whole script has been read, with the
/// number (from one) of the line it stands on.
pub struct DeferredCall {
    pub line: usize,
    pub statement: SyscallStatement,
}

/// The line (from one) that stopped a script from being read, and why.
#[derive(Debug, Clone, Copy, PartialEq, Eq, Structural)]
pub struct LineError {
    pub line: usize,
    pub error: ScxError,
}

/// The calls of a script, each with its line number (from one), in the order
/// of the lines; or the first line that fails, with its error.
pub open spec fn plan_of(lines: Seq<Seq<u8>>) -> Result<Seq<(nat, StatementModel)>, (nat, ScxError)>
    decreases lines.len(),
{
    if lines.len() == 0 {
        Ok(Seq::empty())
    } else {
        match plan_of(lines.drop_last()) {
            Err(e) => Err(e),
            Ok(calls) => match statement_of(lines.last()) {
                Err(e) => Err((lines.len(), e)),
                Ok(None) => Ok(calls),
                Ok(Some(s)) => Ok(calls.push((lines.len(), s))),
            },
        }
    }
}

/// The bytes of each line.
pub open spec fn line_bytes(lines: Seq<Vec<u8>>) -> Seq<Seq<u8>> {
    lines.map_values(|l: Vec<u8>| l@)
}

/// Each call with its line number and what it stands for.
pub open spec fn call_models(calls: Seq<DeferredCall>, arena: Seq<Seq<u8>>) -> Seq<(nat, StatementModel)> {
    calls.map_values(|c: DeferredCall| (c.line as nat, c.statement.model(arena)))
}

/// Every call's statement is well formed over an arena of `arena_len` buffers.
pub open spec fn calls_wf(calls: Seq<DeferredCall>, arena_len: nat) -> bool {
    forall|k: int| 0 <= k < calls.len() ==> (#[trigger] calls[k]).statement.wf(arena_len)
}

/// Reads the statement on line number `line`, whose bytes are `text`, and
/// holds it back in `calls`. A line without a statement adds nothing.
pub fn add_call(calls: &mut Vec<DeferredCall>, text: &[u8], line: usize, arena: &mut Arena) -> (r:
    Result<(), ScxError>)
    ensures
        match r {
            Ok(()) => match statement_of(text@) {
                Ok(None) => final(calls)@ == old(calls)@ && final(arena)@ == old(arena)@,
                Ok(Some(m)) => {
                    &&& final(calls)@.len() == old(calls)@.len() + 1
                    &&& final(calls)@.take(old(calls)@.len() as int) == old(calls)@
                    &&& final(calls)@.last().line == line
                    &&& final(calls)@.last().statement.model(final(arena)@) == m
                    &&& final(calls)@.last().statement.wf(final(arena)@.len())
                    &&& final(arena)@ == old(arena)@ + texts(m.args)
                },
                Err(_) => false,
            },
            Err(e) => {
                &&& statement_of(text@) == Err::<Option<StatementModel>, ScxError>(e)
                &&& final(calls)@ == old(calls)@
                &&& old(arena)@.len() <= final(arena)@.len()
                &&& final(arena)@.take(old(arena)@.len() as int) == old(arena)@
            },
        },
{
    match parse_statement(text, arena) {
        Ok(Some(statement)) => {
            calls.push(DeferredCall { line, statement });
            assert(calls@.take(old(calls)@.len() as int) =~= old(calls)@);
            Ok(())
        },
        Ok(None) => Ok(()),
        Err(e) => Err(e),
    }
}

proof fn lemma_plan_error_stays(lines: Seq<Seq<u8>>, k: int)
    requires
        0 <= k <= lines.len(),
        plan_of(lines.take(k)) is Err,
    ensures
        plan_of(lines) == plan_of(lines.take(k)),
    decreases lines.len(),
{
    if k < lines.len() {
        assert(lines.drop_last().take(k) =~= lines.take(k));
        lemma_plan_error_stays(lines.drop_last(), k);
    } else {
        assert(lines.take(k) =~= lines);
    }
}

/// Reads every line of a script and returns its calls, in the order of the
/// lines, without making any. The text of string arguments goes into
/// `arena`. A line that fails stops the reading: no call is returned then.
pub fn plan_script(lines: &Vec<Vec<u8>>, arena: &mut Arena) -> (r: Result<Vec<DeferredCall>, LineError>)
    ensures
        match r {
            Ok(calls) => {
                &&& plan_of(line_bytes(lines@)) is Ok
                &&& call_models(calls@, final(arena)@) == plan_of(line_bytes(lines@))->Ok_0
                &&& calls_wf(calls@, final(arena)@.len())
            },
            Err(e) => plan_of(line_bytes(lines@)) == Err::<Seq<(nat, StatementModel)>, (nat, ScxError)>(
                (e.line as nat, e.error),
            ),
        },
        old(arena)@.len() <= final(arena)@.len(),
        final(arena)@.take(old(arena)@.len() as int) == old(arena)@,
{
    let ghost all = line_bytes(lines@);
    let ghost base = arena@;
    let mut calls: Vec<DeferredCall> = Vec::new();
    let mut i: usize = 0;
    assert(all.take(0) =~= Seq::<Seq<u8>>::empty());
    assert(call_models(calls@, arena@) =~= Seq::<(nat, StatementModel)>::empty());
    assert(arena@.take(base.len() as int) =~= base);
    while i < lines.len()
        invariant
            i <= lines@.len(),
            all == line_bytes(lines@),
            base == old(arena)@,
            plan_of(all.take(i as int)) is Ok,
            call_models(calls@, arena@) == plan_of(all.take(i as int))->Ok_0,
            calls_wf(calls@, arena@.len()),
            base.len() <= arena@.len(),
            arena@.take(base.len() as int) == base,
        decreases lines@.len() - i,
    {
        let ghost calls0 = calls@;
        let ghost arena0 = arena@;
        let ghost done = plan_of(all.take(i as int))->Ok_0;
        assert(all.take(i + 1).drop_last() =~= all.take(i as int));
        assert(all.take(i + 1).last() == lines@[i as int]@);
        let r = add_call(&mut calls, lines[i].as_slice(), i + 1, arena);
        proof {
            assert(arena@.take(base.len() as int) =~= base) by {
                assert(arena@.take(arena0.len() as int) =~= arena0);
                assert forall|j: int| 0 <= j < base.len() implies arena@[j] == base[j] by {
                    assert(arena@.take(arena0.len() as int)[j] == arena@[j]);
                    assert(arena0.take(base.len() as int)[j] == arena0[j]);
                }
            }
        }
        match r {
            Err(e) => {
                proof {
                    lemma_plan_error_stays(all, i + 1);
                }
                return Err(LineError { line: i + 1, error: e });
            },
            Ok(()) => {
                proof {
                    assert(arena@.take(arena0.len() as int) =~= arena0);
                    assert forall|k: int| 0 <= k < calls0.len() implies #[trigger] calls0[k].statement.model(
                        arena0,
                    ) == calls0[k].statement.model(arena@) && calls0[k].statement.wf(arena@.len()) by {
                        lemma_model_stable(&calls0[k].statement, arena0, arena@);
                    }
                    assert forall|k: int| 0 <= k < calls@.len() implies (#[trigger] calls@[k]).statement.wf(
                        arena@.len(),
                    ) by {
                        if k < calls0.len() {
                            assert(calls@[k] == calls@.take(calls0.len() as int)[k]);
                        }
                    }
                    if calls@.len() == calls0.len() {
                        assert(call_models(calls@, arena@) =~= done);
                    } else {
                        assert forall|k: int| 0 <= k < calls0.len() implies #[trigger] calls@[k]
                            == calls0[k] by {
                            assert(calls@[k] == calls@.take(calls0.len() as int)[k]);
                        }
                        assert(call_models(calls@, arena@) =~= plan_of(all.take(i + 1))->Ok_0);
                    }
                }
            },
        }
        i = i + 1;
    }
    assert(all.take(lines@.len() as int) =~= all);
    Ok(calls)
}

/// Makes one held-back call ready to run: its system call, and the six words
/// to hand it given the address of each of the arena's buffers. A number
/// that the platform does not know fails here, when the call's turn comes,
/// and not while the script is read.
pub fn prepare_call(call: &DeferredCall, addresses: &Vec<usize>) -> (r: Result<(Sysno, [usize; 6]), ScxError>)
    requires
        call.statement.wf(addresses@.len()),
    ensures
        r is Ok <==> sysno_known(call.statement.id),
        match r {
            Ok((_, words)) => forall|k: int|
                0 <= k < 6 ==> #[trigger] words@[k] == (if k < call.statement.args@.len() {
                    call.statement.args@[k].word(addresses@)
                } else {
                    0
                }),
            Err(e) => e == ScxError::UnknownSyscall,
        },
{
    match resolve_sysno(call.statement.id) {
        Ok(sysno) => Ok((sysno, call.statement.words(addresses))),
        Err(e) => Err(e),
    }
}

} // verus!
