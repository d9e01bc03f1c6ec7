//! Typed arguments and the arena that keeps their text alive.

use vstd::prelude::*;
use vstd::slice::slice_subrange;
use vstd::slice::slice_to_vec;
use vstd::string::StringSliceAdditionalSpecFns;
use crate::error::ScxError;
use crate::number::parse_word;
use crate::number::word_value;

verus! {

/// The byte of the string hint `s`.
pub const HINT_STRING: u8 = 0x73;

/// The byte of the number hint `n`.
pub const HINT_NUMBER: u8 = 0x6e;

/// The byte of the separator `:` between a hint and its value.
pub const SEPARATOR: u8 = 0x3a;

/// Owns the text of every string argument, so that the text stays at one
/// address until the calls that use it have run. Buffers are only added,
/// never changed or removed.
pub struct Arena {
    buffers: Vec<Vec<u8>>,
}

impl View for Arena {
    type V = Seq<Seq<u8>>;

    closed spec fn view(&self) -> Seq<Seq<u8>> {
        self.buffers@.map_values(|b: Vec<u8>| b@)
    }
}

impl Arena {
    /// An arena that holds no text.
    pub fn new() -> (r: Arena)
        ensures
            r@ == Seq::<Seq<u8>>::empty(),
    {
        let r = Arena { buffers: Vec::new() };
        assert(r@ =~= Seq::<Seq<u8>>::empty());
        r
    }

    /// The number of buffers held.
    pub fn len(&self) -> (r: usize)
        ensures
            r == self@.len(),
    {
        self.buffers.len()
    }

    /// The text held in `slot`.
    pub fn buffer(&self, slot: usize) -> (r: &Vec<u8>)
        requires
            slot < self@.len(),
        ensures
            r@ == self@[slot as int],
    {
        &self.buffers[slot]
    }

    /// Keeps `text` and returns the slot it is held in.
    pub fn store(&mut self, text: Vec<u8>) -> (slot: usize)
        ensures
            slot == old(self)@.len(),
            final(self)@ == old(self)@.push(text@),
    {
        let ghost t = text@;
        let slot = self.buffers.len();
        self.buffers.push(text);
        assert(self@ =~= old(self)@.push(t));
        slot
    }
}

/// What an argument stands for, with string text read out of the arena.
pub enum ArgValue {
    /// The bytes of a string argument.
    Text(Seq<u8>),
    /// A numeric machine word.
    Word(usize),
}

/// A cast argument: the slot of a string's text in an `Arena`, or a machine
/// word.
#[derive(Debug, Clone, Copy, PartialEq, Eq, Structural)]
pub enum CastArg {
    /// The text held in this slot of the arena; its word is the text's address.
    String(usize),
    /// A number, already as a machine word (negative ones in two's complement).
    Number(usize),
}

/// What a typed token `<hint>:<value>` casts to: `s` takes the value's bytes
/// as they are, `n` reads them with `word_value`.
pub open spec fn cast_value(token: Seq<u8>) -> Result<ArgValue, ScxError> {
    if token.len() < 3 || !(token[0] == HINT_STRING || token[0] == HINT_NUMBER)
        || token[1] != SEPARATOR {
        Err(ScxError::ArgumentFormat)
    } else if token[0] == HINT_STRING {
        Ok(ArgValue::Text(token.subrange(2, token.len() as int)))
    } else {
        match word_value(token.subrange(2, token.len() as int)) {
            Some(w) => Ok(ArgValue::Word(w)),
            None => Err(ScxError::Parse),
        }
    }
}

/// Casting `token` gave `r` and took the arena from `before` to `after`: a
/// string's text goes into a new slot at the end, a number is its word, and
/// an error stores nothing.
pub open spec fn cast_outcome(
    token: Seq<u8>,
    r: Result<CastArg, ScxError>,
    before: Seq<Seq<u8>>,
    after: Seq<Seq<u8>>,
) -> bool {
    match cast_value(token) {
        Ok(ArgValue::Text(t)) => {
            &&& r matches Ok(CastArg::String(slot)) && slot == before.len()
            &&& after == before.push(t)
        },
        Ok(ArgValue::Word(w)) => r == Ok::<CastArg, ScxError>(CastArg::Number(w)) && after == before,
        Err(e) => r == Err::<CastArg, ScxError>(e) && after == before,
    }
}

/// A successful cast stands for what the token casts to, and only adds to
/// the arena.
pub proof fn lemma_cast_outcome(
    token: Seq<u8>,
    c: CastArg,
    before: Seq<Seq<u8>>,
    after: Seq<Seq<u8>>,
)
    requires
        cast_outcome(token, Ok(c), before, after),
    ensures
        cast_value(token) is Ok,
        c.value(after) == cast_value(token)->Ok_0,
        c.fits(after.len()),
        before.len() <= after.len(),
        after.take(before.len() as int) == before,
{
    assert(after.take(before.len() as int) =~= before);
}

impl CastArg {
    /// What this argument stands for, given the arena's buffers.
    pub open spec fn value(self, arena: Seq<Seq<u8>>) -> ArgValue {
        match self {
            CastArg::String(slot) => ArgValue::Text(arena[slot as int]),
            CastArg::Number(w) => ArgValue::Word(w),
        }
    }

    /// The machine word of this argument, given the address of each of the
    /// arena's buffers: a string's address, or the number itself.
    pub open spec fn word(self, addresses: Seq<usize>) -> usize {
        match self {
            CastArg::String(slot) => addresses[slot as int],
            CastArg::Number(w) => w,
        }
    }

    /// A string argument's slot is one that the arena has.
    pub open spec fn fits(self, arena_len: nat) -> bool {
        match self {
            CastArg::String(slot) => slot < arena_len,
            CastArg::Number(_) => true,
        }
    }

    /// Casts a typed token `<hint>:<value>`. A string's text is stored in
    /// `arena`; nothing is stored for a number or on an error.
    pub fn new(arg: &str, arena: &mut Arena) -> (r: Result<CastArg, ScxError>)
        ensures
            cast_outcome(arg.spec_bytes(), r, old(arena)@, final(arena)@),
    {
        let b = arg.as_bytes();
        if b.len() < 3 {
            return Err(ScxError::ArgumentFormat);
        }
        if !Self::is_type_hint(arg) || b[1] != SEPARATOR {
            return Err(ScxError::ArgumentFormat);
        }
        let value = slice_subrange(b, 2, b.len());
        if b[0] == HINT_STRING {
            let slot = arena.store(slice_to_vec(value));
            Ok(CastArg::String(slot))
        } else {
            match parse_word(value) {
                Some(w) => Ok(CastArg::Number(w)),
                None => Err(ScxError::Parse),
            }
        }
    }

    /// The machine word handed to the call, given the address of each of the
    /// arena's buffers.
    pub fn get_usize(&self, addresses: &Vec<usize>) -> (r: usize)
        requires
            self.fits(addresses@.len()),
        ensures
            r == self.word(addresses@),
    {
        match self {
            CastArg::String(slot) => addresses[*slot],
            CastArg::Number(w) => *w,
        }
    }

    /// The hint that selects this kind of argument.
    pub fn get_type_hint_str(&self) -> (r: &'static str)
        ensures
            r@ == (match *self {
                CastArg::String(_) => seq!['s'],
                CastArg::Number(_) => seq!['n'],
            }),
    {
        proof {
            reveal_strlit("s");
            reveal_strlit("n");
        }
        match self {
            CastArg::String(_) => "s",
            CastArg::Number(_) => "n",
        }
    }

    /// The token starts with one of the hints `s` and `n`.
    pub fn is_type_hint(arg: &str) -> (r: bool)
        ensures
            r == (arg.spec_bytes().len() > 0 && (arg.spec_bytes()[0] == HINT_STRING
                || arg.spec_bytes()[0] == HINT_NUMBER)),
    {
        let b = arg.as_bytes();
        b.len() > 0 && (b[0] == HINT_STRING || b[0] == HINT_NUMBER)
    }
}

} // verus!
