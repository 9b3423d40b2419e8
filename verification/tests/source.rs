use preidolia::source::{MemorySource, ReadFailure, Refill};

#[test]
fn a_source_hands_out_its_bytes_in_order() {
    let mut source = MemorySource::new(vec![1, 2, 3, 4, 5]);
    assert_eq!(source.available(), 5);
    assert_eq!(source.read_exact(2), Ok(vec![1, 2]));
    assert_eq!(source.available(), 3);
    assert_eq!(source.read_exact(0), Ok(vec![]));
    assert_eq!(source.read_exact(3), Ok(vec![3, 4, 5]));
    assert_eq!(source.available(), 0);
    assert_eq!(source.read_exact(0), Ok(vec![]));
    assert_eq!(source.read_exact(1), Err(ReadFailure::EndOfStream));
    assert_eq!(source.read_exact(1), Err(ReadFailure::EndOfStream));
}

#[test]
fn a_request_that_cannot_be_met_uses_the_source_up() {
    let mut source = MemorySource::new(vec![1, 2, 3]);
    assert_eq!(source.read_exact(4), Err(ReadFailure::Truncated));
    assert_eq!(source.available(), 0);
    assert_eq!(source.read_exact(1), Err(ReadFailure::EndOfStream));

    let mut source = MemorySource::new(vec![1, 2, 3]);
    assert_eq!(source.read_exact(usize::MAX), Err(ReadFailure::Truncated));
    assert_eq!(source.available(), 0);

    let mut source = MemorySource::new(vec![]);
    assert_eq!(source.read_exact(usize::MAX), Err(ReadFailure::EndOfStream));
}

#[test]
fn the_end_of_a_stream_is_named_by_what_had_arrived() {
    assert_eq!(ReadFailure::at_end(0), ReadFailure::EndOfStream);
    assert_eq!(ReadFailure::at_end(1), ReadFailure::Truncated);
    assert_eq!(ReadFailure::at_end(usize::MAX), ReadFailure::Truncated);
}

#[test]
fn one_read_hands_out_one_piece_at_most() {
    let mut source = MemorySource::in_pieces(vec![1, 2, 3, 4, 5, 6, 7], 3);
    assert_eq!(source.read(10), vec![1, 2, 3]);
    assert_eq!(source.read(2), vec![4, 5]);
    assert_eq!(source.read(0), vec![]);
    assert_eq!(source.read(3), vec![6, 7]);
    assert_eq!(source.read(3), vec![]);
    assert_eq!(source.available(), 0);

    let mut whole = MemorySource::new(vec![1, 2, 3, 4, 5, 6, 7]);
    assert_eq!(whole.read(10), vec![1, 2, 3, 4, 5, 6, 7]);

    let mut single = MemorySource::in_pieces(vec![1, 2], 0);
    assert_eq!(single.read(10), vec![1]);
    assert_eq!(single.read(10), vec![2]);
    assert_eq!(single.read(10), vec![]);
}

#[test]
fn the_size_of_the_pieces_does_not_show_in_exact_reads() {
    let data: Vec<u8> = (0u8..20).collect();
    for piece in 0..25 {
        let mut source = MemorySource::in_pieces(data.clone(), piece);
        assert_eq!(source.read_exact(7), Ok((0u8..7).collect::<Vec<u8>>()));
        assert_eq!(source.available(), 13);
        assert_eq!(source.read_exact(0), Ok(vec![]));
        assert_eq!(source.read_exact(13), Ok((7u8..20).collect::<Vec<u8>>()));
        assert_eq!(source.read_exact(1), Err(ReadFailure::EndOfStream));

        let mut source = MemorySource::in_pieces(data.clone(), piece);
        assert_eq!(source.read_exact(19), Ok((0u8..19).collect::<Vec<u8>>()));
        assert_eq!(source.read_exact(2), Err(ReadFailure::Truncated));
        assert_eq!(source.available(), 0);
        assert_eq!(source.read_exact(2), Err(ReadFailure::EndOfStream));
    }
}

#[test]
fn a_refill_gathers_what_was_asked_for() {
    let refill = Refill::new(5);
    assert_eq!(refill.missing(), 5);
    assert_eq!(refill.cut_short(), ReadFailure::EndOfStream);
    let refill = refill.accept(vec![1, 2]);
    assert_eq!(refill.missing(), 3);
    assert_eq!(refill.cut_short(), ReadFailure::Truncated);
    let refill = refill.accept(vec![]);
    assert_eq!(refill.missing(), 3);
    let refill = refill.accept(vec![3, 4, 5]);
    assert_eq!(refill.missing(), 0);
    assert_eq!(refill.finish(), vec![1, 2, 3, 4, 5]);

    let nothing = Refill::new(0);
    assert_eq!(nothing.missing(), 0);
    assert_eq!(nothing.finish(), vec![]);
}
