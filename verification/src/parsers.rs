//! The fetch-and-retry engine and the lazy sequence of records built on it.
//!
//! One attempt decodes one record. It starts from a buffer, shows the buffer
//! to the grammar, and while the grammar wants more it fetches exactly what
//! was asked for from the source, appends it and asks again. [`attempt`] says
//! what an attempt comes to; [`parse_from_read`] computes it.
use crate::grammar::{demand, obeys, total, Grammar, Outcome};
use crate::laws::lemma_position_after_one_more;
use crate::source::{read_rest, read_result, MemorySource, ReadFailure};
use vstd::prelude::*;

verus! {

/// Why an attempt produced no record.
#[derive(Debug, PartialEq, Eq)]
pub enum ParseError<E> {
    /// The source had ended before the attempt got its first byte: there is no
    /// next record.
    EndOfStream,
    /// The source ended inside a record.
    Truncated,
    /// The source failed in another way.
    Source,
    /// The grammar rejected the buffered bytes for good.
    Grammar(E),
}

/// What the engine does next, given the grammar's answer to the buffer.
#[derive(Debug, PartialEq, Eq)]
pub enum Step<O, E> {
    /// The record is complete.
    Yield(O),
    /// Fetch exactly this many bytes, append them to the buffer, ask again.
    Fetch(usize),
    /// Give up on this record.
    Abort(E),
}

/// The step that follows `outcome`.
pub open spec fn step_after<O, E>(outcome: Outcome<O, E>) -> Step<O, E> {
    match outcome {
        Outcome::Success(value, _) => Step::Yield(value),
        Outcome::NeedMore(needed) => Step::Fetch(demand(needed) as usize),
        Outcome::Unrecoverable(detail) => Step::Abort(detail),
    }
}

/// The error of an attempt whose fetch failed with `failure` when `buffered`
/// bytes of the record had been fetched before. Only an end of stream that
/// meets an empty buffer is the end of the sequence.
pub open spec fn fetch_error<E>(failure: ReadFailure, buffered: nat) -> ParseError<E> {
    match failure {
        ReadFailure::EndOfStream => if buffered == 0 {
            ParseError::EndOfStream
        } else {
            ParseError::Truncated
        },
        ReadFailure::Truncated => ParseError::Truncated,
        ReadFailure::Failed => ParseError::Source,
    }
}

/// What one attempt comes to.
pub struct Run<O, E> {
    /// The record, or why there is none.
    pub result: Result<O, ParseError<E>>,
    /// The buffer as the attempt leaves it.
    pub buffer: Seq<u8>,
    /// What the source still holds.
    pub rest: Seq<u8>,
}

/// The attempt that starts with `buffer` on a source that holds `stream`.
pub open spec fn attempt<O, E>(g: Grammar<O, E>, buffer: Seq<u8>, stream: Seq<u8>) -> Run<O, E>
    decreases stream.len(),
{
    match g(buffer) {
        Outcome::Success(value, _) => Run { result: Ok(value), buffer, rest: stream },
        Outcome::Unrecoverable(detail) => Run {
            result: Err(ParseError::Grammar(detail)),
            buffer,
            rest: stream,
        },
        Outcome::NeedMore(needed) => match read_result(stream, demand(needed)) {
            Ok(bytes) => attempt(g, buffer + bytes, read_rest(stream, demand(needed))),
            Err(failure) => Run {
                result: Err(fetch_error(failure, buffer.len())),
                buffer,
                rest: read_rest(stream, demand(needed)),
            },
        },
    }
}

/// Where a sequence of records stands: whether it has ended, and what its
/// source still holds.
pub struct Position {
    /// The sequence has ended.
    pub exhausted: bool,
    /// What the source still holds.
    pub stream: Seq<u8>,
}

/// The item that an attempt's result stands for: `None` where the source had
/// ended at the record's start, the record or the error otherwise.
pub open spec fn item_of<O, E>(result: Result<O, ParseError<E>>) -> Option<
    Result<O, ParseError<E>>,
> {
    match result {
        Err(ParseError::EndOfStream) => None,
        _ => Some(result),
    }
}

/// The item that a sequence at `at` produces next.
pub open spec fn next_item<O, E>(g: Grammar<O, E>, at: Position) -> Option<
    Result<O, ParseError<E>>,
> {
    if at.exhausted {
        None
    } else {
        item_of(attempt(g, Seq::empty(), at.stream).result)
    }
}

/// Where the sequence stands after producing that item. Once it has ended it
/// stays ended and leaves the source alone.
pub open spec fn next_position<O, E>(g: Grammar<O, E>, at: Position) -> Position {
    if at.exhausted {
        at
    } else {
        let run = attempt(g, Seq::empty(), at.stream);
        Position { exhausted: item_of(run.result) is None, stream: run.rest }
    }
}

/// The start of a sequence over a source that holds `stream`.
pub open spec fn fresh(stream: Seq<u8>) -> Position {
    Position { exhausted: false, stream }
}

/// Where a sequence that stands at `at` stands after `calls` more items.
pub open spec fn position_after<O, E>(g: Grammar<O, E>, at: Position, calls: nat) -> Position
    decreases calls,
{
    if calls == 0 {
        at
    } else {
        position_after(g, next_position(g, at), (calls - 1) as nat)
    }
}

/// The item with number `index`, counted from zero, of a sequence that stands
/// at `at`.
pub open spec fn item_at<O, E>(g: Grammar<O, E>, at: Position, index: nat) -> Option<
    Result<O, ParseError<E>>,
> {
    next_item(g, position_after(g, at, index))
}

/// Decides what to do with the grammar's answer.
pub fn step<O, E>(outcome: Outcome<O, E>) -> (next: Step<O, E>)
    ensures
        next == step_after(outcome),
{
    match outcome {
        Outcome::Success(value, _) => Step::Yield(value),
        Outcome::NeedMore(needed) => Step::Fetch(needed.demand()),
        Outcome::Unrecoverable(detail) => Step::Abort(detail),
    }
}

/// Names the error of an attempt whose fetch failed.
pub fn failed_fetch<E>(failure: ReadFailure, buffered: usize) -> (error: ParseError<E>)
    ensures
        error == fetch_error::<E>(failure, buffered as nat),
{
    match failure {
        ReadFailure::EndOfStream => if buffered == 0 {
            ParseError::EndOfStream
        } else {
            ParseError::Truncated
        },
        ReadFailure::Truncated => ParseError::Truncated,
        ReadFailure::Failed => ParseError::Source,
    }
}

/// Turns an attempt's result into an item of the sequence.
pub fn conclude<O, E>(result: Result<O, ParseError<E>>) -> (item: Option<Result<O, ParseError<E>>>)
    ensures
        item == item_of(result),
{
    match result {
        Err(ParseError::EndOfStream) => None,
        other => Some(other),
    }
}

/// Decodes one record: asks `parser` about `buffer`, fetches from `input`
/// what it wants, and repeats until it has decided or a fetch fails.
pub fn parse_from_read<O, E, F>(parser: &F, buffer: &mut Vec<u8>, input: &mut MemorySource) -> (result:
    Result<O, ParseError<E>>) where F: Fn(&[u8]) -> Outcome<O, E>
    requires
        total(*parser),
    ensures
        forall|g: Grammar<O, E>| #[trigger]
            obeys(*parser, g) ==> {
                let run = attempt(g, old(buffer)@, old(input).remaining());
                &&& result == run.result
                &&& final(buffer)@ == run.buffer
                &&& final(input).remaining() == run.rest
            },
{
    loop
        invariant
            total(*parser),
            forall|g: Grammar<O, E>| #[trigger]
                obeys(*parser, g) ==> attempt(g, buffer@, input.remaining()) == attempt(
                    g,
                    old(buffer)@,
                    old(input).remaining(),
                ),
        decreases input.remaining().len(),
    {
        let outcome = parser(buffer.as_slice());
        match step(outcome) {
            Step::Yield(value) => {
                return Ok(value);
            },
            Step::Abort(detail) => {
                return Err(ParseError::Grammar(detail));
            },
            Step::Fetch(count) => {
                match input.read_exact(count) {
                    Ok(mut bytes) => {
                        buffer.append(&mut bytes);
                    },
                    Err(failure) => {
                        return Err(failed_fetch(failure, buffer.len()));
                    },
                }
            },
        }
    }
}

/// A grammar function, ready to decode records from a source.
pub struct Parser<F> {
    parser: F,
}

impl<O, E, F: Fn(&[u8]) -> Outcome<O, E>> Parser<F> {
    /// The grammar function that this parser runs.
    pub closed spec fn function(&self) -> F {
        self.parser
    }

    /// A parser that runs `parser`.
    pub fn new(parser: F) -> (made: Self)
        ensures
            made.function() == parser,
    {
        Parser { parser }
    }

    /// Decodes one record from `input`, starting from an empty buffer. The
    /// buffer is dropped when the attempt ends, with whatever the grammar left
    /// unconsumed in it.
    pub fn parse(&mut self, input: &mut MemorySource) -> (result: Result<O, ParseError<E>>)
        requires
            total(old(self).function()),
        ensures
            final(self).function() == old(self).function(),
            forall|g: Grammar<O, E>| #[trigger]
                obeys(old(self).function(), g) ==> {
                    let run = attempt(g, Seq::empty(), old(input).remaining());
                    &&& result == run.result
                    &&& final(input).remaining() == run.rest
                },
    {
        let mut buf: Vec<u8> = Vec::new();
        parse_from_read(&self.parser, &mut buf, input)
    }
}

/// The records of a source, decoded one per call of [`ParsingIterator::next`].
pub struct ParsingIterator<F> {
    input: MemorySource,
    parser: Parser<F>,
    exhausted: bool,
}

impl<O, E, F: Fn(&[u8]) -> Outcome<O, E>> ParsingIterator<F> {
    /// The grammar function that decodes the records.
    pub closed spec fn function(&self) -> F {
        self.parser.function()
    }

    /// Where the sequence stands.
    pub closed spec fn position(&self) -> Position {
        Position { exhausted: self.exhausted, stream: self.input.remaining() }
    }

    /// The sequence of the records that `parser` decodes from `input`, not
    /// yet begun.
    pub fn new(parser: Parser<F>, input: MemorySource) -> (made: Self)
        ensures
            made.function() == parser.function(),
            made.position() == (Position { exhausted: false, stream: input.remaining() }),
    {
        ParsingIterator { input, parser, exhausted: false }
    }

    /// Attempts the next record. `None` says that the source had ended where
    /// the record would have begun; from then on every call returns `None`.
    /// An error is an item like any other: the call after it starts a new
    /// record where the source then stands.
    pub fn next(&mut self) -> (item: Option<Result<O, ParseError<E>>>)
        requires
            total(old(self).function()),
        ensures
            final(self).function() == old(self).function(),
            forall|g: Grammar<O, E>| #[trigger]
                obeys(old(self).function(), g) ==> {
                    &&& item == next_item(g, old(self).position())
                    &&& final(self).position() == next_position(g, old(self).position())
                },
    {
        if self.exhausted {
            return None;
        }
        let item = conclude(self.parser.parse(&mut self.input));
        if item.is_none() {
            self.exhausted = true;
        }
        item
    }

    /// The next `count` items: what `count` calls of [`ParsingIterator::next`]
    /// return, in their order.
    pub fn next_items(&mut self, count: usize) -> (items: Vec<Option<Result<O, ParseError<E>>>>)
        requires
            total(old(self).function()),
        ensures
            final(self).function() == old(self).function(),
            items@.len() == count,
            forall|g: Grammar<O, E>| #[trigger]
                obeys(old(self).function(), g) ==> {
                    &&& final(self).position() == position_after(g, old(self).position(), count as nat)
                    &&& forall|i: nat|
                        i < count ==> items@[i as int] == #[trigger] item_at(
                            g,
                            old(self).position(),
                            i,
                        )
                },
    {
        let mut items = Vec::new();
        let ghost start = self.position();
        while items.len() < count
            invariant
                self.function() == old(self).function(),
                total(self.function()),
                items@.len() <= count,
                start == old(self).position(),
                forall|g: Grammar<O, E>| #[trigger]
                    obeys(self.function(), g) ==> {
                        &&& self.position() == position_after(g, start, items@.len())
                        &&& forall|i: nat|
                            i < items@.len() ==> items@[i as int] == #[trigger] item_at(g, start, i)
                    },
            decreases count - items@.len(),
        {
            let ghost done = items@.len();
            let item = self.next();
            proof {
                assert forall|g: Grammar<O, E>| #[trigger]
                    obeys(self.function(), g) implies self.position() == position_after(
                    g,
                    start,
                    done + 1,
                ) by {
                    lemma_position_after_one_more(g, start, done);
                }
            }
            items.push(item);
        }
        items
    }
}

} // verus!
