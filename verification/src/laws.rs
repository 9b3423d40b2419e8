//! What holds of every attempt and of every sequence of records, whatever the
//! grammar.
use crate::grammar::{demand, Grammar, Needed, Outcome};
use crate::parsers::{
    attempt, fresh, item_at, next_item, next_position, position_after, ParseError, Position, Run,
};
use vstd::prelude::*;

verus! {

/// The attempt came to a decision of the grammar: a record or a rejection.
pub open spec fn decided<O, E>(run: Run<O, E>) -> bool {
    run.result is Ok || run.result matches Err(ParseError::Grammar(_))
}

/// `record` holds exactly one record with value `value`: an attempt on a
/// source that holds these bytes and no others decodes `value` and leaves
/// nothing in the source.
pub open spec fn is_record<O, E>(g: Grammar<O, E>, record: Seq<u8>, value: O) -> bool {
    let run = attempt(g, Seq::empty(), record);
    run.result == Ok::<O, ParseError<E>>(value) && run.rest.len() == 0
}

/// `g` reads `record` as `value` and keeps to the record's boundary: it
/// consumes all of `record`, and shown any proper beginning of it, it wants
/// more, but never more than `record` still has.
pub open spec fn encodes<O, E>(g: Grammar<O, E>, record: Seq<u8>, value: O) -> bool {
    &&& g(record) == Outcome::<O, E>::Success(value, 0)
    &&& forall|k: int|
        0 <= k < record.len() ==> match #[trigger] g(record.take(k)) {
            Outcome::NeedMore(needed) => k + demand(needed) <= record.len(),
            _ => false,
        }
}

/// No byte is lost, repeated or reordered on the way from the source to the
/// grammar: the buffer only grows at its end, and when the grammar decides,
/// the buffer followed by what the source still holds is the old buffer
/// followed by what the source held. A failed fetch leaves nothing in the
/// source.
pub proof fn lemma_attempt_keeps_every_byte<O, E>(
    g: Grammar<O, E>,
    buffer: Seq<u8>,
    stream: Seq<u8>,
)
    ensures
        ({
            let run = attempt(g, buffer, stream);
            &&& buffer.len() <= run.buffer.len()
            &&& run.buffer.take(buffer.len() as int) == buffer
            &&& decided(run) ==> run.buffer + run.rest == buffer + stream
            &&& !decided(run) ==> run.rest.len() == 0 && (run.result == Err::<O, ParseError<E>>(
                ParseError::EndOfStream,
            ) || run.result == Err::<O, ParseError<E>>(ParseError::Truncated))
            &&& run.result == Err::<O, ParseError<E>>(ParseError::EndOfStream) ==> buffer.len() == 0
                && stream.len() == 0
        }),
    decreases stream.len(),
{
    let run = attempt(g, buffer, stream);
    match g(buffer) {
        Outcome::NeedMore(needed) => {
            let count = demand(needed);
            if count <= stream.len() {
                let grown = buffer + stream.take(count as int);
                let left = stream.skip(count as int);
                lemma_attempt_keeps_every_byte(g, grown, left);
                assert(run.buffer.take(buffer.len() as int) == buffer) by {
                    assert(run.buffer.take(grown.len() as int) == grown);
                    assert(run.buffer.take(buffer.len() as int) =~= grown.take(
                        buffer.len() as int,
                    ));
                    assert(grown.take(buffer.len() as int) =~= buffer);
                }
                if decided(run) {
                    assert(grown + left =~= buffer + stream);
                }
            }
        },
        _ => {
            assert(run.buffer.take(buffer.len() as int) =~= buffer);
        },
    }
}

/// An attempt that came to a decision comes to the same decision when the
/// source holds more behind what the attempt used, and leaves the additional
/// bytes in the source.
pub proof fn lemma_attempt_ignores_what_follows<O, E>(
    g: Grammar<O, E>,
    buffer: Seq<u8>,
    stream: Seq<u8>,
    more: Seq<u8>,
)
    requires
        decided(attempt(g, buffer, stream)),
    ensures
        ({
            let short = attempt(g, buffer, stream);
            let long = attempt(g, buffer, stream + more);
            &&& long.result == short.result
            &&& long.buffer == short.buffer
            &&& long.rest == short.rest + more
        }),
    decreases stream.len(),
{
    match g(buffer) {
        Outcome::NeedMore(needed) => {
            let count = demand(needed);
            assert(count <= stream.len());
            let all = stream + more;
            assert(all.take(count as int) =~= stream.take(count as int));
            assert(all.skip(count as int) =~= stream.skip(count as int) + more);
            lemma_attempt_ignores_what_follows(
                g,
                buffer + stream.take(count as int),
                stream.skip(count as int),
                more,
            );
        },
        _ => {},
    }
}

/// A grammar that keeps to a record's boundary makes the engine read exactly
/// that record.
pub proof fn lemma_encoding_is_record<O, E>(g: Grammar<O, E>, record: Seq<u8>, value: O)
    requires
        encodes(g, record, value),
    ensures
        is_record(g, record, value),
{
    lemma_encoding_from(g, record, value, 0);
    assert(record.take(0) =~= Seq::<u8>::empty());
    assert(record.skip(0) =~= record);
}

proof fn lemma_encoding_from<O, E>(g: Grammar<O, E>, record: Seq<u8>, value: O, k: int)
    requires
        encodes(g, record, value),
        0 <= k <= record.len(),
    ensures
        attempt(g, record.take(k), record.skip(k)).result == Ok::<O, ParseError<E>>(value),
        attempt(g, record.take(k), record.skip(k)).rest.len() == 0,
    decreases record.len() - k,
{
    if k == record.len() {
        assert(record.take(k) =~= record);
    } else {
        match g(record.take(k)) {
            Outcome::NeedMore(needed) => {
                let count = demand(needed) as int;
                assert(record.take(k) + record.skip(k).take(count) =~= record.take(k + count));
                assert(record.skip(k).skip(count) =~= record.skip(k + count));
                lemma_encoding_from(g, record, value, k + count);
            },
            _ => {},
        }
    }
}

/// One more item moves a sequence one position on: the position after
/// `calls + 1` items is the next position after `calls` items.
pub proof fn lemma_position_after_one_more<O, E>(g: Grammar<O, E>, at: Position, calls: nat)
    ensures
        position_after(g, at, calls + 1) == next_position(g, position_after(g, at, calls)),
    decreases calls,
{
    if calls > 0 {
        lemma_position_after_one_more(g, next_position(g, at), (calls - 1) as nat);
    } else {
        assert(position_after(g, next_position(g, at), 0) == next_position(g, at));
    }
}

/// A sequence that has ended yields nothing more, however often it is asked.
pub proof fn lemma_ended_stays_ended<O, E>(g: Grammar<O, E>, at: Position, index: nat)
    requires
        at.exhausted,
    ensures
        position_after(g, at, index) == at,
        item_at(g, at, index) is None,
    decreases index,
{
    if index > 0 {
        lemma_ended_stays_ended(g, at, (index - 1) as nat);
    }
}

/// Records written back to back, with nothing between or behind them, are
/// decoded one per call, each to its own value and in their order; after
/// the last one the sequence ends, and stays ended. The grammar must want
/// more when shown an empty buffer: one that decides on no input at all never
/// reaches the end of any source.
pub proof fn lemma_records_back_to_back<O, E>(
    g: Grammar<O, E>,
    records: Seq<Seq<u8>>,
    values: Seq<O>,
)
    requires
        records.len() == values.len(),
        g(Seq::empty()) is NeedMore,
        forall|i: int| 0 <= i < records.len() ==> is_record(g, #[trigger] records[i], values[i]),
    ensures
        forall|i: nat|
            i < records.len() ==> #[trigger] item_at(g, fresh(records.flatten()), i) == Some(
                Ok::<O, ParseError<E>>(values[i as int]),
            ),
        forall|i: nat| i >= records.len() ==> #[trigger] item_at(g, fresh(records.flatten()), i) is None,
    decreases records.len(),
{
    let start = fresh(records.flatten());
    if records.len() == 0 {
        assert(records.flatten() =~= Seq::<u8>::empty());
        let ended = next_position(g, start);
        assert(next_item(g, start) is None);
        assert(ended.exhausted);
        assert forall|i: nat| i >= records.len() implies #[trigger] item_at(g, start, i) is None by {
            if i > 0 {
                lemma_ended_stays_ended(g, ended, (i - 1) as nat);
            }
        }
    } else {
        let first = records.first();
        let later = records.drop_first();
        let behind = later.flatten();
        assert(is_record(g, records[0], values[0]));
        lemma_attempt_ignores_what_follows(g, Seq::empty(), first, behind);
        let run = attempt(g, Seq::empty(), first + behind);
        assert(run.rest =~= behind);
        assert(next_position(g, start) == fresh(behind));
        assert forall|i: int| 0 <= i < later.len() implies is_record(
            g,
            #[trigger] later[i],
            values.drop_first()[i],
        ) by {
            assert(later[i] == records[i + 1]);
        }
        lemma_records_back_to_back(g, later, values.drop_first());
        assert forall|i: nat| i < records.len() implies #[trigger] item_at(g, start, i) == Some(
            Ok::<O, ParseError<E>>(values[i as int]),
        ) by {
            if i > 0 {
                let before = (i - 1) as nat;
                assert(item_at(g, start, i) == item_at(g, fresh(behind), before));
                assert(values.drop_first()[before as int] == values[i as int]);
            }
        }
        assert forall|i: nat| i >= records.len() implies #[trigger] item_at(g, start, i) is None by {
            let before = (i - 1) as nat;
            assert(item_at(g, start, i) == item_at(g, fresh(behind), before));
        }
    }
}

/// The same for records that are told by what the grammar makes of them:
/// encodings written back to back are decoded one per call, each to the
/// value it encodes, and then the sequence ends.
pub proof fn lemma_encodings_back_to_back<O, E>(
    g: Grammar<O, E>,
    records: Seq<Seq<u8>>,
    values: Seq<O>,
)
    requires
        records.len() == values.len(),
        g(Seq::empty()) is NeedMore,
        forall|i: int| 0 <= i < records.len() ==> encodes(g, #[trigger] records[i], values[i]),
    ensures
        forall|i: nat|
            i < records.len() ==> #[trigger] item_at(g, fresh(records.flatten()), i) == Some(
                Ok::<O, ParseError<E>>(values[i as int]),
            ),
        forall|i: nat| i >= records.len() ==> #[trigger] item_at(g, fresh(records.flatten()), i) is None,
{
    assert forall|i: int| 0 <= i < records.len() implies is_record(
        g,
        #[trigger] records[i],
        values[i],
    ) by {
        lemma_encoding_is_record(g, records[i], values[i]);
    }
    lemma_records_back_to_back(g, records, values);
}

/// Decoding reads back what was encoded: where the grammar keeps to the
/// boundary of `record`, a source that holds `record` yields its value first,
/// and, unless the record is empty, nothing after it.
pub proof fn lemma_decoding_reads_back<O, E>(g: Grammar<O, E>, record: Seq<u8>, value: O)
    requires
        encodes(g, record, value),
    ensures
        item_at(g, fresh(record), 0) == Some(Ok::<O, ParseError<E>>(value)),
        record.len() > 0 ==> forall|i: nat| i >= 1 ==> #[trigger] item_at(g, fresh(record), i) is None,
{
    lemma_encoding_is_record(g, record, value);
    if record.len() > 0 {
        assert(record.take(0) =~= Seq::<u8>::empty());
        let records = seq![record];
        let values = seq![value];
        assert(records.drop_first().flatten() =~= Seq::<u8>::empty());
        assert(records.flatten() =~= record);
        lemma_records_back_to_back(g, records, values);
    }
}

/// The end of the record, as far as the grammar has told it: the length of
/// the buffer and the demand together.
pub open spec fn told_end(buffer: Seq<u8>, needed: Needed) -> nat {
    buffer.len() + demand(needed)
}

/// A fetch that succeeds makes progress: the grammar is asked again about a
/// buffer that is the old one followed by exactly the bytes it asked for, at
/// least one, taken from the front of the source. If it then wants more
/// again, the end that it tells lies behind the end that it told before.
pub proof fn lemma_fetch_makes_progress<O, E>(
    g: Grammar<O, E>,
    buffer: Seq<u8>,
    stream: Seq<u8>,
    needed: Needed,
)
    requires
        g(buffer) == Outcome::<O, E>::NeedMore(needed),
        demand(needed) <= stream.len(),
    ensures
        demand(needed) >= 1,
        attempt(g, buffer, stream) == attempt(
            g,
            buffer + stream.take(demand(needed) as int),
            stream.skip(demand(needed) as int),
        ),
        forall|again: Needed|
            g(buffer + stream.take(demand(needed) as int)) == Outcome::<O, E>::NeedMore(again)
                ==> #[trigger] told_end(buffer + stream.take(demand(needed) as int), again)
                > told_end(buffer, needed),
{
}

/// A grammar that is never satisfied cannot hang the engine: the attempt ends
/// when the source does, with an error, and has used the source up. The error
/// says that the sequence has ended only if there was nothing to read and
/// nothing had been buffered.
pub proof fn lemma_starved_attempt_ends<O, E>(g: Grammar<O, E>, buffer: Seq<u8>, stream: Seq<u8>)
    requires
        forall|b: Seq<u8>| #[trigger] g(b) is NeedMore,
    ensures
        ({
            let run = attempt(g, buffer, stream);
            &&& run.rest.len() == 0
            &&& run.result == Err::<O, ParseError<E>>(
                if buffer.len() == 0 && stream.len() == 0 {
                    ParseError::EndOfStream
                } else {
                    ParseError::Truncated
                },
            )
        }),
    decreases stream.len(),
{
    assert(g(buffer) is NeedMore);
    match g(buffer) {
        Outcome::NeedMore(needed) => {
            let count = demand(needed);
            if count <= stream.len() {
                lemma_starved_attempt_ends(
                    g,
                    buffer + stream.take(count as int),
                    stream.skip(count as int),
                );
            }
        },
        _ => {},
    }
}

/// `g` does not decide before it has what it asked for: where it wants more,
/// it still wants more of every longer buffer that falls short of its demand.
pub open spec fn honest<O, E>(g: Grammar<O, E>) -> bool {
    forall|buffer: Seq<u8>, more: Seq<u8>|
        match g(buffer) {
            Outcome::NeedMore(needed) => more.len() < demand(needed),
            _ => false,
        } ==> #[trigger] g(buffer + more) is NeedMore
}

/// `g` with every demand replaced by one of unknown size, which the engine
/// meets one byte at a time.
pub open spec fn byte_by_byte<O, E>(g: Grammar<O, E>) -> Grammar<O, E> {
    |buffer: Seq<u8>|
        match g(buffer) {
            Outcome::NeedMore(_) => Outcome::NeedMore(Needed::Unknown),
            decision => decision,
        }
}

/// The two grammars decide alike: they want more of the same buffers, accept
/// the same buffers with the same value and reject the same buffers with the
/// same detail. How much they ask for may differ.
pub open spec fn same_decisions<O, E>(g: Grammar<O, E>, h: Grammar<O, E>) -> bool {
    forall|buffer: Seq<u8>|
        #![trigger g(buffer)]
        #![trigger h(buffer)]
        match (g(buffer), h(buffer)) {
            (Outcome::Success(a, _), Outcome::Success(b, _)) => a == b,
            (Outcome::NeedMore(_), Outcome::NeedMore(_)) => true,
            (Outcome::Unrecoverable(a), Outcome::Unrecoverable(b)) => a == b,
            _ => false,
        }
}

proof fn lemma_byte_by_byte_walk<O, E>(g: Grammar<O, E>, buffer: Seq<u8>, stream: Seq<u8>, k: nat)
    requires
        honest(g),
        k <= stream.len(),
        match g(buffer) {
            Outcome::NeedMore(needed) => k <= demand(needed),
            _ => false,
        },
    ensures
        attempt(byte_by_byte(g), buffer, stream) == attempt(
            byte_by_byte(g),
            buffer + stream.take(k as int),
            stream.skip(k as int),
        ),
    decreases k,
{
    let h = byte_by_byte(g);
    if k == 0 {
        assert(buffer + stream.take(0) =~= buffer);
        assert(stream.skip(0) =~= stream);
    } else {
        let j = (k - 1) as nat;
        lemma_byte_by_byte_walk(g, buffer, stream, j);
        let grown = buffer + stream.take(j as int);
        let left = stream.skip(j as int);
        assert(g(grown) is NeedMore);
        assert(h(grown) == Outcome::<O, E>::NeedMore(Needed::Unknown));
        assert(grown + left.take(1) =~= buffer + stream.take(k as int));
        assert(left.skip(1) =~= stream.skip(k as int));
    }
}

/// The size of the refills does not show in the result. An honest grammar
/// gets the same result, and leaves the same bytes in the source, whether the
/// engine fetches what it asks for at once or a single byte at a time.
pub proof fn lemma_refill_size_is_irrelevant<O, E>(
    g: Grammar<O, E>,
    buffer: Seq<u8>,
    stream: Seq<u8>,
)
    requires
        honest(g),
    ensures
        attempt(g, buffer, stream).result == attempt(byte_by_byte(g), buffer, stream).result,
        attempt(g, buffer, stream).rest == attempt(byte_by_byte(g), buffer, stream).rest,
    decreases stream.len(),
{
    let h = byte_by_byte(g);
    match g(buffer) {
        Outcome::NeedMore(needed) => {
            let count = demand(needed);
            if count <= stream.len() {
                lemma_byte_by_byte_walk(g, buffer, stream, count);
                lemma_refill_size_is_irrelevant(
                    g,
                    buffer + stream.take(count as int),
                    stream.skip(count as int),
                );
            } else {
                lemma_byte_by_byte_walk(g, buffer, stream, stream.len());
                let whole = buffer + stream;
                assert(stream.take(stream.len() as int) =~= stream);
                assert(stream.skip(stream.len() as int) =~= Seq::<u8>::empty());
                assert(g(whole) is NeedMore);
                assert(h(whole) == Outcome::<O, E>::NeedMore(Needed::Unknown));
            }
        },
        _ => {},
    }
}

proof fn lemma_same_decisions_byte_by_byte<O, E>(
    g: Grammar<O, E>,
    h: Grammar<O, E>,
    buffer: Seq<u8>,
    stream: Seq<u8>,
)
    requires
        same_decisions(g, h),
    ensures
        attempt(byte_by_byte(g), buffer, stream).result == attempt(
            byte_by_byte(h),
            buffer,
            stream,
        ).result,
        attempt(byte_by_byte(g), buffer, stream).rest == attempt(
            byte_by_byte(h),
            buffer,
            stream,
        ).rest,
    decreases stream.len(),
{
    match (g(buffer), h(buffer)) {
        (Outcome::NeedMore(_), Outcome::NeedMore(_)) => {
            if stream.len() >= 1 {
                lemma_same_decisions_byte_by_byte(g, h, buffer + stream.take(1), stream.skip(1));
            }
        },
        _ => {},
    }
}

/// Two honest grammars that decide alike decode the same from the same
/// source, however differently they size their demands.
pub proof fn lemma_same_decisions_same_result<O, E>(
    g: Grammar<O, E>,
    h: Grammar<O, E>,
    buffer: Seq<u8>,
    stream: Seq<u8>,
)
    requires
        honest(g),
        honest(h),
        same_decisions(g, h),
    ensures
        attempt(g, buffer, stream).result == attempt(h, buffer, stream).result,
        attempt(g, buffer, stream).rest == attempt(h, buffer, stream).rest,
{
    lemma_refill_size_is_irrelevant(g, buffer, stream);
    lemma_refill_size_is_irrelevant(h, buffer, stream);
    lemma_same_decisions_byte_by_byte(g, h, buffer, stream);
}

/// Two honest grammars that decide alike yield the same sequence of items
/// from the same source.
pub proof fn lemma_same_decisions_same_items<O, E>(
    g: Grammar<O, E>,
    h: Grammar<O, E>,
    at: Position,
    index: nat,
)
    requires
        honest(g),
        honest(h),
        same_decisions(g, h),
    ensures
        position_after(g, at, index) == position_after(h, at, index),
        item_at(g, at, index) == item_at(h, at, index),
    decreases index,
{
    lemma_same_decisions_same_result(g, h, Seq::empty(), at.stream);
    if index > 0 {
        lemma_same_decisions_same_items(g, h, next_position(g, at), (index - 1) as nat);
    } 
    let reached = position_after(g, at, index);
    lemma_same_decisions_same_result(g, h, Seq::empty(), reached.stream);
}

} // verus!
