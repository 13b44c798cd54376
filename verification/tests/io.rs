use byst::buf::{Buf, Length as _};
use byst::io::cursor::Length;
use byst::io::{BufReader, Count, Cursor, End, Full, Limit, ReadError, Reader, ReaderExt, Remaining, Seek};

#[test]
fn slice_reader_views_and_advances() {
    let mut reader: &[u8] = b"Hello World";
    assert_eq!(reader.peek_chunk(), Some(b"Hello World" as &[u8]));
    assert_eq!(reader.view(5).unwrap(), b"Hello");
    assert_eq!(BufReader::remaining(&reader), 6);
    assert_eq!(
        reader.view(7).unwrap_err(),
        End {
            read: 0,
            requested: 7,
            remaining: 6
        }
    );
    assert_eq!(reader.peek_view(3).unwrap(), b" Wo");
    reader.advance(1).unwrap();
    assert_eq!(reader.rest(), b"World");
    assert!(reader.peek_chunk().is_none());
    assert!(reader.is_at_end());
}

#[test]
fn slice_reader_seeks_back() {
    let mut reader: &[u8] = b"abcdef";
    let start = reader.tell();
    reader.advance(4).unwrap();
    assert_eq!(reader.peek_rest(), b"ef");
    let left = reader.seek(&start);
    assert_eq!(left, b"ef");
    assert_eq!(reader.peek_rest(), b"abcdef");
}

#[test]
fn count_counts_bytes_read() {
    let mut reader = Count::new(b"abcdef" as &[u8]);
    assert_eq!(reader.count(), 0);
    assert_eq!(reader.view(2).unwrap(), b"ab");
    reader.advance(1).unwrap();
    assert!(reader.advance(10).is_err());
    assert_eq!(reader.count(), 3);
    assert_eq!(reader.rest(), b"def");
    assert_eq!(reader.count(), 6);
    assert_eq!(reader.into_inner(), b"");
}

#[test]
fn limit_stops_at_limit() {
    let mut reader = Limit::new(b"abcdef" as &[u8], 4);
    assert_eq!(reader.remaining_limit(), 4);
    assert_eq!(BufReader::remaining(&reader), 4);
    assert_eq!(reader.peek_chunk(), Some(b"abcd" as &[u8]));
    assert_eq!(
        reader.view(5).unwrap_err(),
        End {
            read: 0,
            requested: 5,
            remaining: 4
        }
    );
    assert_eq!(reader.view(1).unwrap(), b"a");
    assert_eq!(reader.remaining_limit(), 3);
    assert_eq!(reader.rest(), b"bcd");
    assert_eq!(reader.into_inner(), b"ef");
}

#[test]
fn limit_skip_remaining() {
    let mut reader = Limit::new(b"abcdef" as &[u8], 4);
    reader.skip_remaining().unwrap();
    assert_eq!(reader.remaining_limit(), 0);
    assert_eq!(reader.into_inner(), b"ef");

    let mut reader = Limit::new(b"ab" as &[u8], 4);
    assert_eq!(
        reader.skip_remaining().unwrap_err(),
        End {
            read: 2,
            requested: 4,
            remaining: 0
        }
    );
    assert_eq!(reader.remaining_limit(), 2);
}

#[test]
fn cursor_reads_slices() {
    let mut cursor = Cursor::new(b"Hello World" as &[u8]);
    assert_eq!(cursor.read_slice(Length(5)).unwrap(), b"Hello");
    assert_eq!(cursor.position(), 5);
    assert_eq!(cursor.remaining(), 6);
    cursor.skip(1).unwrap();
    assert_eq!(
        cursor.read_slice(Length(6)).unwrap_err(),
        End {
            read: 0,
            requested: 6,
            remaining: 5
        }
    );
    assert_eq!(cursor.read_rest(), b"World");
    assert!(cursor.is_at_end());
    cursor.set_position(100);
    assert_eq!(cursor.remaining(), 0);
    assert_eq!(cursor.into_inner().len(), 11);
}

#[test]
fn cursor_with_offset_skips() {
    let mut cursor = Cursor::with_offset(b"abc".to_vec(), 1);
    assert_eq!(cursor.remaining(), 2);
    assert_eq!(
        cursor.skip(3).unwrap_err(),
        End {
            read: 0,
            requested: 3,
            remaining: 2
        }
    );
    cursor.skip(2).unwrap();
    assert_eq!(cursor.remaining(), 0);
    assert_eq!(cursor.into_inner().bytes_len(), 3);
}

trait BytesLen {
    fn bytes_len(&self) -> usize;
}

impl<B: Buf> BytesLen for B {
    fn bytes_len(&self) -> usize {
        self.len()
    }
}

#[test]
fn end_is_a_read_error() {
    let end = End::from_end(End {
        read: 2,
        requested: 4,
        remaining: 0,
    });
    assert!(end.is_end());
    assert_eq!(end.amount_read(), 2);
    assert!(!end.is_exact_end());
    assert!(End::default().is_exact_end());
}

#[test]
fn io_full_from_buf_full() {
    let full = Full::from(byst::buf::Full {
        required: 8,
        capacity: 4,
    });
    assert_eq!(
        full,
        Full {
            written: 0,
            requested: 8,
            remaining: 4
        }
    );
}

#[test]
fn slice_reader_skips_and_reads_into() {
    let mut reader: &[u8] = b"abcdef";
    reader.skip(2).unwrap();
    let mut dest = [0u8; 3];
    reader.read_into_exact(&mut dest, 3).unwrap();
    assert_eq!(dest, *b"cde");
    let mut dest = b"zz".to_vec();
    assert_eq!(
        reader.read_into_exact(&mut dest, 2).unwrap_err(),
        End {
            read: 0,
            requested: 2,
            remaining: 1
        }
    );
    assert_eq!(dest, b"zz");
    assert_eq!(
        reader.skip(5).unwrap_err(),
        End {
            read: 1,
            requested: 5,
            remaining: 0
        }
    );
    assert!(reader.is_empty());
}

#[test]
fn limit_and_count_read_into() {
    let mut reader = Count::new(Limit::new(b"abcdef" as &[u8], 3));
    let mut dest = Vec::new();
    reader.read_into_exact(&mut dest, 2).unwrap();
    assert_eq!(dest, b"ab");
    assert_eq!(
        reader.read_into_exact(&mut dest, 2).unwrap_err(),
        End {
            read: 0,
            requested: 2,
            remaining: 1
        }
    );
    reader.skip(5).unwrap();
    assert_eq!(reader.count(), 7);
    assert_eq!(reader.into_inner().into_inner(), b"def");
}

#[test]
fn count_tells_and_seeks() {
    let mut reader = Count::new(b"abcdef" as &[u8]);
    let start = reader.tell();
    reader.advance(4).unwrap();
    assert_eq!(reader.count(), 4);
    let previous = reader.seek(&start);
    assert_eq!(previous.count(), 4);
    assert_eq!(previous.into_inner(), b"ef");
    // the count stays as it was
    assert_eq!(reader.count(), 4);
    assert_eq!(reader.peek_rest(), b"abcdef");
}

#[test]
fn reads_values_from_a_slice() {
    let mut reader: &[u8] = &[1, 0xff, 3, 4, 5];
    let a: u8 = reader.read().unwrap();
    assert_eq!(a, 1);
    let b: i8 = reader.read().unwrap();
    assert_eq!(b, -1);
    let c: [u8; 2] = reader.read().unwrap();
    assert_eq!(c, [3, 4]);
    let () = reader.read().unwrap();
    assert!(reader.read_byte_array::<2>().is_err());
    assert_eq!(reader, &[5u8][..]);
    assert_eq!(reader.read_with::<u8, ()>(()).unwrap(), 5);
    assert!(reader.read::<u8>().is_err());
}

#[test]
fn new_cursor_has_whole_buffer_left() {
    let cursor = Cursor::new(b"abcd" as &[u8]);
    assert_eq!(cursor.position(), 0);
    assert_eq!(cursor.remaining(), 4);
    assert_eq!(cursor.into_inner(), b"abcd");
}

#[test]
fn count_and_remaining_add_up_to_the_input() {
    let mut reader = Count::new(b"abcdef" as &[u8]);
    reader.advance(2).unwrap();
    assert_eq!(reader.count() + BufReader::remaining(&reader), 6);
    assert!(reader.view(10).is_err());
    assert_eq!(reader.count() + BufReader::remaining(&reader), 6);
    reader.skip(3).unwrap();
    assert_eq!(reader.count() + BufReader::remaining(&reader), 6);
    assert_eq!(reader.rest(), b"f");
    assert_eq!(reader.count(), 6);
}

#[test]
fn read_into_reads_what_fits() {
    let mut reader: &[u8] = b"abcdef";
    let mut dest = Vec::new();
    assert_eq!(reader.read_into(&mut dest, Some(4)), Ok(4));
    assert_eq!(dest, b"abcd");
    assert_eq!(reader, b"ef");
    let mut small = [0u8; 1];
    assert_eq!(reader.read_into(&mut small, None), Ok(1));
    assert_eq!(small, [b'e']);
    assert_eq!(reader, b"f");
}

#[test]
fn read_into_through_count_and_limit() {
    let mut reader = Count::new(Limit::new(b"abcdef" as &[u8], 3));
    let mut dest = Vec::new();
    assert_eq!(reader.read_into(&mut dest, None), Ok(3));
    assert_eq!(dest, b"abc");
    assert_eq!(reader.count(), 3);
    assert_eq!(reader.into_inner().remaining_limit(), 0);
}
