//! The byte source: a finite stream that hands out its bytes in order, once.
use vstd::prelude::*;

verus! {

/// Why a request for bytes was not met.
#[derive(Debug, Clone, Copy, PartialEq, Eq)]
pub enum ReadFailure {
    /// The stream had ended before the first byte of the request.
    EndOfStream,
    /// The stream ended after some bytes of the request, but not all.
    Truncated,
    /// The source failed in any other way.
    Failed,
}

/// What a request for `count` bytes returns on a stream that still holds
/// `stream`.
pub open spec fn read_result(stream: Seq<u8>, count: nat) -> Result<Seq<u8>, ReadFailure> {
    if count <= stream.len() {
        Ok(stream.take(count as int))
    } else if stream.len() == 0 {
        Err(ReadFailure::EndOfStream)
    } else {
        Err(ReadFailure::Truncated)
    }
}

/// What the stream still holds after that request. A request that cannot be
/// met uses up what was left.
pub open spec fn read_rest(stream: Seq<u8>, count: nat) -> Seq<u8> {
    if count <= stream.len() {
        stream.skip(count as int)
    } else {
        Seq::empty()
    }
}

/// The number of bytes that one read hands out: the least of what was asked
/// for, the size of a piece and what the stream still holds.
pub open spec fn read_size(limit: nat, piece: nat, left: nat) -> nat {
    if limit <= piece && limit <= left {
        limit
    } else if piece <= left {
        piece
    } else {
        left
    }
}

/// The failure of a read that got `filled` bytes of its request before the
/// stream ended.
pub open spec fn short_read(filled: nat) -> ReadFailure {
    if filled == 0 {
        ReadFailure::EndOfStream
    } else {
        ReadFailure::Truncated
    }
}

impl ReadFailure {
    /// Names the failure of a request that met the end of the stream after
    /// `filled` of its bytes had arrived.
    pub fn at_end(filled: usize) -> (failure: ReadFailure)
        ensures
            failure == short_read(filled as nat),
    {
        if filled == 0 {
            ReadFailure::EndOfStream
        } else {
            ReadFailure::Truncated
        }
    }
}

/// The gathering of the bytes of one request from a source that may hand
/// them out in pieces.
pub struct Refill {
    wanted: usize,
    bytes: Vec<u8>,
}

impl Refill {
    #[verifier::type_invariant]
    spec fn within_request(self) -> bool {
        self.bytes@.len() <= self.wanted
    }

    /// The number of bytes that were asked for.
    pub closed spec fn wanted(&self) -> nat {
        self.wanted as nat
    }

    /// The bytes gathered so far.
    pub closed spec fn gathered(&self) -> Seq<u8> {
        self.bytes@
    }

    /// Starts to gather `wanted` bytes.
    pub fn new(wanted: usize) -> (refill: Refill)
        ensures
            refill.wanted() == wanted,
            refill.gathered() == Seq::<u8>::empty(),
    {
        Refill { wanted, bytes: Vec::new() }
    }

    /// The number of bytes still to come: what to ask the source for next, and
    /// no more. Zero says that the request is met.
    pub fn missing(&self) -> (count: usize)
        ensures
            count == self.wanted() - self.gathered().len(),
    {
        proof {
            use_type_invariant(self);
        }
        self.wanted - self.bytes.len()
    }

    /// Takes in a piece that the source handed out.
    pub fn accept(self, piece: Vec<u8>) -> (grown: Refill)
        requires
            piece@.len() <= self.wanted() - self.gathered().len(),
        ensures
            grown.wanted() == self.wanted(),
            grown.gathered() == self.gathered() + piece@,
    {
        let mut bytes = self.bytes;
        let mut piece = piece;
        bytes.append(&mut piece);
        Refill { wanted: self.wanted, bytes }
    }

    /// The failure of the request, where the source ended before it was met.
    pub fn cut_short(&self) -> (failure: ReadFailure)
        ensures
            failure == short_read(self.gathered().len()),
    {
        ReadFailure::at_end(self.bytes.len())
    }

    /// The bytes that were gathered.
    pub fn finish(self) -> (bytes: Vec<u8>)
        ensures
            bytes@ == self.gathered(),
    {
        self.bytes
    }
}

/// A byte source over bytes held in memory. It hands them out in pieces of a
/// size chosen when it is made, as a file or a socket may; what a request for
/// an exact number of bytes returns does not depend on that size.
pub struct MemorySource {
    data: Vec<u8>,
    position: usize,
    piece: usize,
}

impl MemorySource {
    #[verifier::type_invariant]
    spec fn within_bounds(self) -> bool {
        self.position <= self.data@.len() && self.piece >= 1
    }

    /// The bytes not yet handed out.
    pub closed spec fn remaining(&self) -> Seq<u8> {
        self.data@.skip(self.position as int)
    }

    /// The largest number of bytes that one read hands out.
    pub closed spec fn piece(&self) -> nat {
        self.piece as nat
    }

    /// A source that will hand out `data` from its first byte, as much at a
    /// time as is asked for.
    pub fn new(data: Vec<u8>) -> (source: MemorySource)
        ensures
            source.remaining() == data@,
            source.piece() == usize::MAX,
    {
        MemorySource { data, position: 0, piece: usize::MAX }
    }

    /// A source that will hand out `data` from its first byte, at most `piece`
    /// bytes at a time, and at least one.
    pub fn in_pieces(data: Vec<u8>, piece: usize) -> (source: MemorySource)
        ensures
            source.remaining() == data@,
            source.piece() == if piece == 0 {
                1
            } else {
                piece as nat
            },
    {
        let piece = if piece == 0 {
            1
        } else {
            piece
        };
        MemorySource { data, position: 0, piece }
    }

    /// The number of bytes not yet handed out.
    pub fn available(&self) -> (count: usize)
        ensures
            count == self.remaining().len(),
    {
        proof {
            use_type_invariant(self);
        }
        self.data.len() - self.position
    }

    /// One read: hands out the next bytes, as many as `limit`, the size of a
    /// piece and what is left allow. It returns nothing only if `limit` is
    /// zero or the source has ended.
    pub fn read(&mut self, limit: usize) -> (bytes: Vec<u8>)
        ensures
            final(self).piece() == old(self).piece(),
            bytes@.len() == read_size(
                limit as nat,
                old(self).piece(),
                old(self).remaining().len(),
            ),
            bytes@ == old(self).remaining().take(bytes@.len() as int),
            final(self).remaining() == old(self).remaining().skip(bytes@.len() as int),
    {
        proof {
            use_type_invariant(&*self);
        }
        let available = self.data.len() - self.position;
        let mut count = limit;
        if self.piece < count {
            count = self.piece;
        }
        if available < count {
            count = available;
        }
        let start = self.position;
        let end = start + count;
        let mut bytes: Vec<u8> = Vec::new();
        let mut index = start;
        while index < end
            invariant
                start <= index <= end <= self.data@.len(),
                bytes@ == self.data@.subrange(start as int, index as int),
            decreases end - index,
        {
            bytes.push(self.data[index]);
            index += 1;
        }
        self.position = end;
        assert(bytes@ == old(self).remaining().take(count as int));
        assert(self.remaining() == old(self).remaining().skip(count as int));
        bytes
    }

    /// Hands out the next `count` bytes, gathered from as many reads as it
    /// takes, or fails and leaves nothing behind.
    pub fn read_exact(&mut self, count: usize) -> (result: Result<Vec<u8>, ReadFailure>)
        ensures
            final(self).piece() == old(self).piece(),
            match result {
                Ok(bytes) => read_result(old(self).remaining(), count as nat) == Ok::<
                    Seq<u8>,
                    ReadFailure,
                >(bytes@),
                Err(failure) => read_result(old(self).remaining(), count as nat) == Err::<
                    Seq<u8>,
                    ReadFailure,
                >(failure),
            },
            final(self).remaining() == read_rest(old(self).remaining(), count as nat),
    {
        let ghost stream = self.remaining();
        let mut refill = Refill::new(count);
        loop
            invariant
                self.piece() == old(self).piece(),
                refill.wanted() == count,
                refill.gathered().len() <= stream.len(),
                refill.gathered().len() <= count,
                refill.gathered() == stream.take(refill.gathered().len() as int),
                self.remaining() == stream.skip(refill.gathered().len() as int),
                stream == old(self).remaining(),
            decreases count - refill.gathered().len(),
        {
            let missing = refill.missing();
            if missing == 0 {
                return Ok(refill.finish());
            }
            let piece = self.read(missing);
            if piece.len() == 0 {
                proof {
                    use_type_invariant(&*self);
                }
                return Err(refill.cut_short());
            }
            refill = refill.accept(piece);
            proof {
                let after = refill.gathered();
                assert(after =~= stream.take(after.len() as int));
                assert(self.remaining() =~= stream.skip(after.len() as int));
            }
        }
    }
}

} // verus!
