//! Incremental decoding of records from a byte source.
//!
//! A grammar is a pure function from a byte buffer to an
//! [`grammar::Outcome`]: a record, a demand for more bytes or a rejection. The
//! engine in [`parsers`] shows it a growing buffer, fetching from a
//! [`source::MemorySource`] exactly as many bytes as the grammar asks for, and
//! [`parsers::ParsingIterator`] turns that into a sequence of records. [`laws`]
//! proves what holds of every such sequence, whatever the grammar.
//!
//! [`adobe::ase`] holds the values of the Adobe Swatch Exchange format, their
//! encoding to bytes and the grammars that read them back. [`frombytes`] cuts
//! an iterator of bytes into chunks.
pub mod adobe;
pub mod frombytes;
pub mod grammar;
pub mod laws;
pub mod parsers;
pub mod source;
