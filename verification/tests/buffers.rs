use byst::buf::arc_buf::ArcBufMut;
use byst::bytes::{Bytes, BytesMut, Static};
use byst::buf::array_buf::{ArrayBuf, NotFullyInitialized};
use byst::buf::chunks::{SingleChunk, SingleChunkMut};
use byst::buf::copy::{copy as copy_ranges, copy_chunks, CopyError, LengthMismatch};
use byst::util::Peekable;
use byst::buf::{Buf, BufExt, BufMut, Full, Length, PartiallyInitialized, Rope, SizeLimit};
use byst::Range;

#[test]
fn array_buf_cant_write_more_than_buf_size() {
    let mut bytes_mut = ArrayBuf::<4>::new();
    assert_eq!(
        byst::copy(&mut bytes_mut, b"abcdefgh").unwrap_err(),
        Full {
            required: 8,
            capacity: 4
        }
    );
}

#[test]
fn array_buf_grows_and_resizes() {
    let mut buf = ArrayBuf::<8>::new();
    assert!(buf.is_empty());
    assert_eq!(buf.size_limit(), SizeLimit::Exact(8));
    buf.extend(b"abc").unwrap();
    assert_eq!(buf.into_vec(), b"abc");
    buf.resize(5, b'x');
    assert_eq!(buf.into_vec(), b"abcxx");
    buf.resize(2, 0);
    assert_eq!(buf.into_vec(), b"ab");
    assert!(!buf.is_full());
    buf.resize(8, b'z');
    assert!(buf.is_full());
    assert_eq!(buf.into_vec(), b"abzzzzzz");
    assert_eq!(buf.view(1..3).unwrap(), b"bz");
    buf.clear();
    assert_eq!(buf.len(), 0);
    assert_eq!(buf.inner_ref()[..2], *b"ab");
}

#[test]
fn array_buf_into_array() {
    let mut buf = ArrayBuf::<3>::new();
    buf.extend(b"ab").unwrap();
    assert_eq!(
        buf.try_into_array().unwrap_err(),
        NotFullyInitialized {
            initialized: 2,
            buf_size: 3
        }
    );
    buf.extend(b"c").unwrap();
    assert_eq!(buf.try_into_array().unwrap(), *b"abc");
    assert_eq!(
        buf.extend(b"d").unwrap_err(),
        Full {
            required: 4,
            capacity: 3
        }
    );
}

#[test]
fn array_buf_inner_mut_changes_bytes() {
    let mut buf = ArrayBuf::<4>::new();
    buf.extend(b"abcd").unwrap();
    buf.inner_mut()[1] = b'X';
    assert_eq!(buf.into_vec(), b"aXcd");
}

#[test]
fn partially_initialized_parts() {
    let mut pi = PartiallyInitialized::new([7u8; 4]);
    assert_eq!(pi.capacity(), 4);
    assert_eq!(pi.len(), 0);
    pi.grow(2, 1).unwrap();
    assert_eq!(pi.into_vec(), vec![1, 1]);
    assert_eq!(pi.grow(5, 1).unwrap_err(), Full { required: 5, capacity: 4 });
    pi.overwrite(1, b"\x09");
    let (array, n) = pi.into_parts();
    assert_eq!(array, [1, 9, 7, 7]);
    assert_eq!(n, 2);
    pi.clear();
    assert_eq!(pi.len(), 0);
    assert_eq!(*pi.inner_ref(), [1, 9, 7, 7]);
}

#[test]
fn rope_concatenates_segments() {
    let mut rope = Rope::with_capacity(4);
    rope.push(b"Hello" as &[u8]);
    rope.push(b"" as &[u8]);
    rope.push(b" " as &[u8]);
    rope.push(b"World" as &[u8]);
    rope.push(b"!" as &[u8]);
    assert_eq!(rope.num_segments(), 4);
    assert_eq!(rope.len(), 12);
    assert_eq!(rope.into_vec(), b"Hello World!");
    assert_eq!(rope.chunk_at(7), b"orld");
    assert_eq!(rope.chunk_at(5), b" ");
}

#[test]
fn rope_len_of_empty_segments() {
    let mut rope = Rope::new();
    rope.push(b"" as &[u8]);
    rope.push(b"" as &[u8]);
    assert_eq!(rope.len(), 0);
    assert!(rope.is_empty());
    assert_eq!(rope.num_segments(), 0);
}

#[test]
fn buf_copy_fails_if_source_longer_than_destination() {
    let mut destination = [0u8; 4];
    let source = [1u8; 16];
    assert_eq!(
        copy_ranges(&mut destination, .., &source, ..).unwrap_err(),
        CopyError::Full(Full {
            required: 16,
            capacity: 4
        })
    );
}

#[test]
fn fails_if_source_shorter_than_destination() {
    let mut destination = [0u8; 16];
    let source = [1u8; 4];
    assert_eq!(
        copy_ranges(&mut destination, .., &source, ..).unwrap_err(),
        CopyError::LengthMismatch(LengthMismatch {
            destination_range: Range::from(..),
            destination_length: 16,
            source_range: Range::from(..),
            source_length: 4,
        })
    );
}

#[test]
fn fails_if_source_range_shorter_than_destination_range() {
    let mut destination = [0u8; 16];
    let source = [1u8; 16];
    assert_eq!(
        copy_ranges(&mut destination, .., &source, ..4).unwrap_err(),
        CopyError::LengthMismatch(LengthMismatch {
            destination_range: Range::from(..),
            destination_length: 16,
            source_range: Range::from(..4),
            source_length: 4,
        })
    );
}

#[test]
fn fails_if_source_range_longer_than_destination_range() {
    let mut destination = [0u8; 16];
    let source = [1u8; 16];
    assert_eq!(
        copy_ranges(&mut destination, ..4, &source, ..).unwrap_err(),
        CopyError::LengthMismatch(LengthMismatch {
            destination_range: Range::from(..4),
            destination_length: 4,
            source_range: Range::from(..),
            source_length: 16,
        })
    );
}

#[test]
fn copy_full_range() {
    let mut destination = [42u8; 16];
    let mut source = [0u8; 16];
    for i in 0..16 {
        source[i] = i as u8;
    }
    let expected = source;
    let total_copied = copy_ranges(&mut destination, .., source, ..).unwrap();
    assert_eq!(total_copied, 16);
    assert_eq!(expected, destination);
}

#[test]
fn buf_copy_into_vec_grows_with_zeros() {
    let mut destination = b"ab".to_vec();
    let total_copied = copy_ranges(&mut destination, 4.., b"xyz", ..).unwrap();
    assert_eq!(total_copied, 3);
    assert_eq!(destination, b"ab\0\0xyz");
    let total_copied = copy_ranges(&mut destination, 1..3, b"0123", 1..3).unwrap();
    assert_eq!(total_copied, 2);
    assert_eq!(destination, b"a12\0xyz");
}

#[test]
fn buf_copy_source_out_of_bounds() {
    let mut destination = [0u8; 4];
    match copy_ranges(&mut destination, .., b"ab", ..3).unwrap_err() {
        CopyError::SourceRangeOutOfBounds(e) => {
            assert_eq!(e.required, Range::from(..3));
            assert_eq!(e.bounds, (0, 2));
        }
        e => panic!("unexpected error: {e:?}"),
    }
}

#[test]
fn copy_fails_if_source_longer_than_destination() {
    let mut destination = [0u8; 4];
    let source = [1u8; 16];
    assert_eq!(
        byst::copy(&mut destination, source).unwrap_err(),
        Full {
            required: 16,
            capacity: 4
        }
    );
}

#[test]
fn it_copies() {
    let mut destination = [42u8; 16];
    let mut source = [0u8; 16];
    for i in 0..16 {
        source[i] = i as u8;
    }
    let expected = source;
    byst::copy(&mut destination, source).unwrap();
    assert_eq!(expected, destination);
}

fn hello_world_rope() -> Rope<&'static [u8]> {
    let mut rope = Rope::new();
    rope.push(b"Hello" as &[u8]);
    rope.push(b" " as &[u8]);
    rope.push(b"World" as &[u8]);
    rope.push(b"!" as &[u8]);
    rope
}

fn collect_chunks<B: Buf>(buf: &B) -> Vec<Vec<u8>> {
    let mut chunks = vec![];
    let mut offset = 0;
    while offset < buf.len() {
        let chunk = buf.chunk_at(offset);
        chunks.push(chunk.to_vec());
        offset += chunk.len();
    }
    chunks
}

#[test]
fn it_chunks_correctly() {
    let rope = hello_world_rope();
    assert_eq!(
        collect_chunks(&rope),
        vec![b"Hello".to_vec(), b" ".to_vec(), b"World".to_vec(), b"!".to_vec()]
    );
}

#[test]
fn it_views_correctly() {
    let rope = hello_world_rope();
    assert_eq!(rope.view(2..9).unwrap().into_vec(), b"llo Wor");
    assert_eq!(rope.view(5..9).unwrap().into_vec(), b" Wor");
    assert_eq!(rope.view(6..).unwrap().into_vec(), b"World!");
}

#[test]
fn it_chunks_corner_cases_correctly() {
    let rope = hello_world_rope();
    let view = rope.view(5..6).unwrap();
    assert_eq!(collect_chunks(&view), vec![b" ".to_vec()]);
    let view = rope.view(5..11).unwrap();
    assert_eq!(collect_chunks(&view), vec![b" ".to_vec(), b"World".to_vec()]);
}

#[test]
fn it_views_views_correctly() {
    let rope = hello_world_rope();
    let view = rope.view(2..9).unwrap();
    assert_eq!(view.view(2..4).unwrap().into_vec(), b"o ");
    let view = rope.view(5..9).unwrap();
    assert_eq!(view.view(1..).unwrap().into_vec(), b"Wor");
    let view = rope.view(6..).unwrap();
    assert_eq!(view.view(..5).unwrap().into_vec(), b"World");
}

#[test]
fn len_is_correct() {
    let rope = hello_world_rope();
    assert_eq!(rope.len(), 12);
    let mut rope = Rope::new();
    rope.push(b"" as &[u8]);
    rope.push(b"" as &[u8]);
    assert_eq!(rope.len(), 0);
    assert!(rope.is_empty());
}

#[test]
fn it_views_empty_ropes_correctly() {
    let rope = Rope::<&'static [u8]>::new();
    assert!(rope.view(..).unwrap().is_empty());
    let err = rope.view(..1).err().unwrap();
    assert_eq!(err.required, Range::from(..1));
    assert_eq!(err.bounds, (0, 0));
}

#[test]
fn bytes_of_any_backing() {
    let empty = Bytes::new();
    assert!(empty.is_empty());
    assert!(empty.view(..).unwrap().is_empty());
    assert!(empty.view(..1).is_err());

    let text = Bytes::from_static(b"Hello World");
    assert_eq!(text.view(6..).unwrap().into_vec(), b"World");
    assert_eq!(text.clone().into_vec(), b"Hello World");
    let err = text.view(3..20).err().unwrap();
    assert_eq!(err.bounds, (0, 11));

    let shared = Bytes::from_shared(ArcBufMut::copy_from_slice(b"abc").freeze());
    assert_eq!(shared.view(1..).unwrap().into_vec(), b"bc");
    assert_eq!(Bytes::default().len(), 0);

    let mut bytes_mut = BytesMut::with_capacity(4);
    bytes_mut.extend(b"ab").unwrap();
    assert_eq!(bytes_mut.into_vec(), b"ab");
    assert_eq!(
        bytes_mut.extend(b"cde").unwrap_err(),
        Full {
            required: 5,
            capacity: 4
        }
    );
    let mut unbacked = BytesMut::new();
    assert_eq!(unbacked.size_limit(), SizeLimit::Exact(0));
    assert!(unbacked.extend(b"a").is_err());

    let s = Static(b"xyz");
    assert_eq!(s.len(), 3);
    assert_eq!(s.chunk_at(1), b"yz");
}

#[test]
fn copy_single_chunk_full_range() {
    let mut destination = [42; 16];
    let mut source = [0; 16];
    for i in 0..16 {
        source[i] = i as u8;
    }
    let expected = source;

    let mut dest_chunks = Peekable::new(SingleChunkMut::new(&mut destination));
    let mut src_chunks = Peekable::new(SingleChunk::new(&source));

    let mut dest_offset = 0;
    let mut src_offset = 0;

    match copy_chunks(
        &mut dest_chunks,
        &mut dest_offset,
        &mut src_chunks,
        &mut src_offset,
        Some(16),
    ) {
        Err(e) => panic!("copy_chunks failed: {e:?}"),
        Ok(total_copied) => {
            assert_eq!(dest_offset, 0);
            assert_eq!(src_offset, 0);
            assert_eq!(total_copied, 16);
            assert_eq!(dest_chunks.peek(), None);
            assert_eq!(src_chunks.peek(), None);
            assert_eq!(expected, destination);
        }
    }
}

#[test]
fn copy_single_chunk_partially() {
    let mut destination = [42; 16];
    let mut source = [0; 16];
    let mut expected = destination;
    for i in 0..16 {
        source[i] = i as u8;
    }
    expected[1..9].copy_from_slice(&source[4..12]);

    let mut dest_chunks = Peekable::new(SingleChunkMut::new(&mut destination));
    let mut src_chunks = Peekable::new(SingleChunk::new(&source));

    let mut dest_offset = 1;
    let mut src_offset = 4;

    match copy_chunks(
        &mut dest_chunks,
        &mut dest_offset,
        &mut src_chunks,
        &mut src_offset,
        Some(8),
    ) {
        Err(e) => panic!("copy_chunks failed: {e:?}"),
        Ok(total_copied) => {
            assert_eq!(dest_offset, 9);
            assert_eq!(src_offset, 12);
            assert_eq!(total_copied, 8);
            assert!(dest_chunks.peek().is_some());
            assert_eq!(src_chunks.peek(), Some(&source.as_ref()));
            assert_eq!(expected, destination);
        }
    }
}

#[test]
fn copy_chunks_without_amount_copies_what_both_hold() {
    let mut destination = [0u8; 6];
    let (first, second) = destination.split_at_mut(2);
    let source = *b"abcd";

    let mut dest_chunks = Peekable::new(SingleChunkMut::new(first));
    let mut src_chunks = Peekable::new(SingleChunk::new(&source));
    let mut dest_offset = 0;
    let mut src_offset = 1;

    let total = copy_chunks(&mut dest_chunks, &mut dest_offset, &mut src_chunks, &mut src_offset, None)
        .unwrap();
    assert_eq!(total, 2);
    assert_eq!(dest_offset, 0);
    assert_eq!(src_offset, 3);
    assert!(dest_chunks.peek().is_none());
    second[0] = 9;
    assert_eq!(destination, [b'b', b'c', 9, 0, 0, 0]);
}

#[test]
fn rope_views_at_segment_boundaries() {
    let rope = hello_world_rope();
    assert!(rope.view(5..5).unwrap().is_empty());
    assert_eq!(rope.view(..5).unwrap().into_vec(), b"Hello");
    assert_eq!(rope.view(5..).unwrap().into_vec(), b" World!");
    assert_eq!(rope.view(..).unwrap().len(), 12);
    let view = rope.view(4..7).unwrap();
    assert_eq!(view.len(), 3);
    assert_eq!(collect_chunks(&view), vec![b"o".to_vec(), b" ".to_vec(), b"W".to_vec()]);
    assert_eq!(view.view(1..2).unwrap().into_vec(), b" ");
    assert!(view.view(3..3).unwrap().is_empty());
}

#[test]
fn copy_range_reports_the_unreachable_destination_start() {
    let mut destination = [0u8; 4];
    assert_eq!(
        byst::copy::copy_range(&mut destination, 6..8, b"ab" as &[u8], ..).unwrap_err(),
        byst::copy::CopyRangeError::DestinationFull(Full {
            required: 6,
            capacity: 4
        })
    );
    assert_eq!(
        byst::copy::copy_range(&mut destination, 2..6, b"abcd" as &[u8], ..).unwrap_err(),
        byst::copy::CopyRangeError::DestinationFull(Full {
            required: 6,
            capacity: 4
        })
    );
    assert_eq!(destination, [0u8; 4]);
    byst::copy::copy_range(&mut destination, 1..3, b"xy" as &[u8], ..).unwrap();
    assert_eq!(destination, [0, b'x', b'y', 0]);
}
