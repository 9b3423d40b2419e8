//! What a grammar may answer when it is shown a buffer.
use vstd::prelude::*;

verus! {

/// How much more input a grammar wants before it can decide.
#[derive(Debug, Clone, Copy, PartialEq, Eq)]
pub enum Needed {
    /// More input may help, but the grammar cannot say how much.
    Unknown,
    /// This many more bytes are wanted.
    Size(usize),
}

/// The answer of a grammar to one buffer.
#[derive(Debug, PartialEq, Eq)]
pub enum Outcome<O, E> {
    /// A record was decoded. The second field is the length of the suffix of
    /// the buffer that the grammar left unconsumed.
    Success(O, usize),
    /// The buffer is a proper beginning of a record.
    NeedMore(Needed),
    /// No continuation of the buffer can ever form a record.
    Unrecoverable(E),
}

impl<O, E> Outcome<O, E> {
    /// The same outcome with the decoded value, if there is one, passed
    /// through `f`.
    pub open spec fn map<P>(self, f: spec_fn(O) -> P) -> Outcome<P, E> {
        match self {
            Outcome::Success(value, remainder) => Outcome::Success(f(value), remainder),
            Outcome::NeedMore(needed) => Outcome::NeedMore(needed),
            Outcome::Unrecoverable(detail) => Outcome::Unrecoverable(detail),
        }
    }
}

/// The number of bytes fetched in answer to `needed`: the size that was asked
/// for, or one byte where the size is unknown. A size of zero carries no
/// information and counts as unknown, so every fetch makes the buffer longer.
pub open spec fn demand(needed: Needed) -> nat {
    match needed {
        Needed::Unknown => 1,
        Needed::Size(count) => if count == 0 {
            1
        } else {
            count as nat
        },
    }
}

impl Needed {
    /// The number of bytes to fetch, at least one.
    pub fn demand(&self) -> (count: usize)
        ensures
            count == demand(*self),
            count >= 1,
    {
        match self {
            Needed::Unknown => 1,
            Needed::Size(count) => if *count == 0 {
                1
            } else {
                *count
            },
        }
    }
}

/// A grammar as a mathematical function of the buffer's contents.
pub type Grammar<O, E> = spec_fn(Seq<u8>) -> Outcome<O, E>;

/// `parser` can be called on every buffer.
pub open spec fn total<O, E, F: Fn(&[u8]) -> Outcome<O, E>>(parser: F) -> bool {
    forall|buffer: &[u8]| #[trigger] call_requires(parser, (buffer,))
}

/// Whatever `parser` returns for a buffer is what `g` gives for the buffer's
/// contents: `parser` is deterministic and looks at nothing but the bytes.
pub open spec fn obeys<O, E, F: Fn(&[u8]) -> Outcome<O, E>>(parser: F, g: Grammar<O, E>) -> bool {
    forall|buffer: &[u8], outcome: Outcome<O, E>| #[trigger]
        call_ensures(parser, (buffer,), outcome) ==> outcome == g(buffer@)
}

} // verus!
