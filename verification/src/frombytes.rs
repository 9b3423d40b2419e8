//! Reading values from an iterator of bytes, chunk by chunk.
use vstd::prelude::*;

verus! {

/// Why a value could not be read from bytes.
#[derive(Debug, PartialEq, Eq, Clone, Copy)]
pub enum ParsingError {
    /// A byte cannot stand where it stands.
    InvalidByte,
    /// The bytes ended before the value did.
    NotEnoughBytes,
}

/// A type whose values can be read from the front of an iterator of bytes.
pub trait FromBytes {
    /// The type of the values that are read.
    type Output;

    /// Reads one value and hands the iterator back, advanced past the bytes
    /// that were used.
    fn from_bytes<T: Iterator<Item = u8>>(bytes: T) -> Result<(Self::Output, T), ParsingError>;
}

/// An iterator cut after its first `size` items: it yields these, then says
/// once that it has ended, and from then on yields what the inner iterator
/// has left.
pub struct Chunk<T: Iterator> {
    /// The iterator that is cut.
    pub inner: T,
    /// The number of items before the cut.
    pub size: usize,
    /// The number of calls of `next` so far.
    pub current: usize,
}

impl<T: Iterator> Chunk<T> {
    /// Cuts `iterator` after `size` items.
    pub fn new(iterator: T, size: usize) -> (chunk: Self)
        ensures
            chunk.inner == iterator,
            chunk.size == size,
            chunk.current == 0,
    {
        Chunk { inner: iterator, size, current: 0 }
    }

    /// The next item. The call with number `size`, counted from zero, yields
    /// `None` and leaves the inner iterator alone; every other call yields what
    /// the inner iterator yields. Of an inner iterator that keeps to the
    /// iterator laws of vstd this is the first of the items it has left.
    pub fn next(&mut self) -> (item: Option<T::Item>)
        requires
            old(self).current < usize::MAX,
        ensures
            final(self).size == old(self).size,
            final(self).current == old(self).current + 1,
            old(self).current == old(self).size ==> item is None && final(self).inner == old(
                self,
            ).inner,
            vstd::std_specs::iter::IteratorSpec::obeys_prophetic_iter_laws(&final(self).inner)
                == vstd::std_specs::iter::IteratorSpec::obeys_prophetic_iter_laws(
                &old(self).inner,
            ),
            old(self).current != old(self).size
                && vstd::std_specs::iter::IteratorSpec::obeys_prophetic_iter_laws(
                &old(self).inner,
            ) ==> {
                let left = vstd::std_specs::iter::IteratorSpec::remaining(&old(self).inner);
                let kept = vstd::std_specs::iter::IteratorSpec::remaining(&final(self).inner);
                if left.len() > 0 {
                    item == Some(left[0]) && kept == left.drop_first()
                } else {
                    item is None && kept == left
                }
            },
    {
        let value = if self.current < self.size {
            self.inner.next()
        } else if self.current == self.size {
            None
        } else {
            self.inner.next()
        };
        self.current += 1;
        value
    }
}

} // verus!
