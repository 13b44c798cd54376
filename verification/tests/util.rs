use byst::buf::chunks::{Chunks, ChunksBack, SingleChunk};
use byst::buf::Rope;
use byst::util::{buf_eq, ExactSizeIter, IsEndIter, MapFunc, MapIter, Peekable};

#[test]
fn buf_eq_returns_false_for_different_lengths() {
    assert!(!buf_eq(b"Hello", b"Wor"));
    assert!(!buf_eq(b"", b"Hello"));
    assert!(!buf_eq(b"Hello", b""));
}

#[test]
fn buf_eq_returns_false_for_same_length_buf_different_bytes() {
    assert!(!buf_eq(b"Hello", b"World"));
    assert!(!buf_eq(b"Hello", b"HellO"));
}

#[test]
fn buf_eq_returns_true_for_empty_buffers() {
    assert!(buf_eq(b"", b""));
}

#[test]
fn buf_eq_returns_true_for_equal_buffers() {
    assert!(buf_eq(b"Hello", b"Hello"));
}

#[test]
fn buf_eq_returns_true_for_same_contents_but_differently_sized_chunks() {
    let mut buf1 = Rope::with_capacity(2);
    buf1.push(b"Hello" as &[u8]);
    buf1.push(b" World" as &[u8]);
    let mut buf2 = Rope::with_capacity(2);
    buf2.push(b"Hel" as &[u8]);
    buf2.push(b"lo World" as &[u8]);
    assert!(buf_eq(buf1, buf2));
}

#[test]
fn buf_eq_returns_true_even_if_with_empty_chunks() {
    let mut buf1 = Rope::with_capacity(5);
    buf1.push(b"" as &[u8]);
    buf1.push(b"Hello" as &[u8]);
    buf1.push(b"" as &[u8]);
    buf1.push(b"World" as &[u8]);
    buf1.push(b"" as &[u8]);
    let mut buf2 = Rope::with_capacity(2);
    buf2.push(b"Hello" as &[u8]);
    buf2.push(b"World" as &[u8]);
    assert!(buf_eq(buf1, buf2));
}

#[test]
fn buf_eq_finds_difference_across_chunks() {
    let mut buf1 = Rope::new();
    buf1.push(b"Hel" as &[u8]);
    buf1.push(b"lo" as &[u8]);
    assert!(!buf_eq(&buf1, b"Help!"));
    assert!(buf_eq(&buf1, b"Hello"));
}

#[test]
fn peekable_peeks_from_both_ends() {
    let data = b"abc";
    let mut chunks = Peekable::new(SingleChunk::new(data));
    assert_eq!(chunks.peek(), Some(&(data as &[u8])));
    assert_eq!(chunks.peek_back(), Some(&(data as &[u8])));
    assert_eq!(chunks.next(), Some(data as &[u8]));
    assert_eq!(chunks.peek(), None);
    assert_eq!(chunks.next_back(), None);
}

#[test]
fn peekable_back_then_front() {
    let data = b"xy";
    let mut chunks = Peekable::new(SingleChunk::new(data));
    assert_eq!(chunks.peek_back(), Some(&(data as &[u8])));
    assert_eq!(chunks.next(), Some(data as &[u8]));
    assert_eq!(chunks.next(), None);
}

#[test]
fn is_end_iter_marks_single_item_as_start_and_end() {
    let data = b"xy";
    let mut chunks = IsEndIter::new(SingleChunk::new(data));
    let item = chunks.next().unwrap();
    assert!(item.is_start);
    assert!(item.is_end);
    assert_eq!(item.item, data as &[u8]);
    assert!(chunks.next().is_none());
}

#[test]
fn is_end_iter_from_the_back() {
    let data = b"xy";
    let mut chunks = IsEndIter::new(SingleChunk::new(data));
    let item = chunks.next_back().unwrap();
    assert!(item.is_start);
    assert!(item.is_end);
    assert!(chunks.next_back().is_none());
}

#[test]
fn exact_size_iter_counts_down() {
    let data = b"xy";
    let mut chunks = ExactSizeIter::new(SingleChunk::new(data), 1);
    assert_eq!(chunks.size_hint(), (1, Some(1)));
    assert_eq!(chunks.next(), Some(data as &[u8]));
    assert_eq!(chunks.size_hint(), (0, Some(0)));
    assert_eq!(chunks.next(), None);
}

struct ChunkLength;

impl<'a> MapFunc<&'a [u8]> for ChunkLength {
    type Output = usize;

    fn spec_map(&self, input: &'a [u8]) -> usize {
        input.len()
    }

    fn map(&mut self, input: &'a [u8]) -> usize {
        input.len()
    }
}

#[test]
fn map_iter_applies_function() {
    let data = b"hello";
    let mut lengths = MapIter::new(SingleChunk::new(data), ChunkLength);
    assert_eq!(lengths.next(), Some(5));
    assert_eq!(lengths.next(), None);
}

#[test]
fn with_offset_yields_chunks_with_their_offsets() {
    let mut chunks = byst::buf::chunks::WithOffset::with_offset(SingleChunk::new(b"abc"), 5);
    assert_eq!(chunks.next(), Some((5, b"abc" as &[u8])));
    assert_eq!(chunks.offset(), 8);
    assert_eq!(chunks.next(), None);
    assert_eq!(chunks.offset(), 8);
}

#[test]
fn non_empty_skips_an_empty_chunk() {
    let mut chunks = byst::buf::chunks::NonEmpty::new(SingleChunk::new(b""));
    assert_eq!(chunks.next(), None);
    let mut chunks = byst::buf::chunks::NonEmpty::new(SingleChunk::new(b"ab"));
    assert_eq!(chunks.next(), Some(b"ab" as &[u8]));
    assert_eq!(chunks.next(), None);
}

#[test]
fn peek_sees_the_item_peeked_from_the_back() {
    let mut chunks = Peekable::new(SingleChunk::new(b"ab"));
    assert_eq!(chunks.peek_back().copied(), Some(b"ab" as &[u8]));
    assert_eq!(chunks.peek().copied(), Some(b"ab" as &[u8]));
    assert_eq!(chunks.next(), Some(b"ab" as &[u8]));
    assert_eq!(chunks.next_back(), None);
    assert_eq!(chunks.peek(), None);
}

#[test]
fn exact_size_iter_counts_down_from_the_back() {
    let data = b"xy";
    let mut chunks = ExactSizeIter::new(SingleChunk::new(data), 1);
    assert_eq!(chunks.next_back(), Some(data as &[u8]));
    assert_eq!(chunks.size_hint(), (0, Some(0)));
    assert_eq!(chunks.next_back(), None);
}
