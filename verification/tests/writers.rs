use byst::buf::array_buf::ArrayBuf;
use byst::buf::{BufExt, Length, PartiallyInitialized, VecWriter};
use byst::io::write::BufWriter;
use byst::io::Full;

#[test]
fn slice_writer_writes_from_its_start_and_shrinks() {
    let mut buf = [0u8; 6];
    {
        let mut writer: &mut [u8] = &mut buf;
        writer.extend(b"ab").unwrap();
        assert_eq!(writer.remaining(), 4);
        writer.advance(1).unwrap();
        writer.extend(b"cd").unwrap();
        assert_eq!(writer.remaining(), 1);
        assert_eq!(
            writer.extend(b"xyz").unwrap_err(),
            Full { written: 0, requested: 3, remaining: 1 }
        );
        assert_eq!(
            writer.advance(2).unwrap_err(),
            Full { written: 0, requested: 2, remaining: 1 }
        );
        let chunk = writer.chunk_mut().unwrap();
        chunk[0] = b'z';
        writer.advance(1).unwrap();
        assert!(writer.chunk_mut().is_none());
    }
    assert_eq!(&buf, b"ab\0cdz");
}

#[test]
fn vec_writer_overwrites_then_grows() {
    let mut vec = b"hello".to_vec();
    {
        let mut writer = VecWriter::new(&mut vec);
        assert_eq!(writer.remaining(), 5);
        writer.advance(1).unwrap();
        writer.extend(b"EL").unwrap();
        let chunk = writer.chunk_mut().unwrap();
        assert_eq!(chunk, b"lo");
        chunk[0] = b'L';
        writer.extend(b"lo world").unwrap();
        assert!(writer.chunk_mut().is_none());
        writer.advance(2).unwrap();
    }
    assert_eq!(vec, b"hELlo world\0\0");
}

#[test]
fn array_buf_writer_stops_at_capacity() {
    let mut buf = ArrayBuf::<6>::new();
    {
        let mut writer = buf.writer();
        writer.extend(b"abc").unwrap();
        writer.advance(1).unwrap();
        assert_eq!(writer.remaining(), 0);
        assert_eq!(
            writer.extend(b"xyz").unwrap_err(),
            Full { written: 0, requested: 3, remaining: 6 }
        );
        writer.extend(b"de").unwrap();
        assert_eq!(
            writer.advance(1).unwrap_err(),
            Full { written: 0, requested: 1, remaining: 6 }
        );
    }
    assert_eq!(buf.len(), 6);
    assert_eq!(buf.into_vec(), b"abc\0de");
    {
        let mut writer = buf.writer();
        writer.advance(1).unwrap();
        let chunk = writer.chunk_mut().unwrap();
        chunk[0] = b'B';
        writer.extend(b"X").unwrap();
    }
    assert_eq!(buf.into_vec(), b"aXc\0de");
}

#[test]
fn partially_initialized_writer_grows_the_buffer() {
    let mut buf = PartiallyInitialized::new([7u8; 4]);
    {
        let mut writer = buf.writer();
        assert!(writer.chunk_mut().is_none());
        writer.advance(2).unwrap();
        writer.extend(b"z").unwrap();
    }
    assert_eq!(buf.into_vec(), b"\0\0z");
}

#[test]
fn copy_io_fills_a_vector() {
    let mut vec = Vec::new();
    let mut writer = VecWriter::new(&mut vec);
    let mut source: &[u8] = b"hello";
    assert_eq!(byst::copy::copy_io(&mut writer, &mut source, None), 5);
    assert!(source.is_empty());
    assert_eq!(vec, b"hello");
}

#[test]
fn copy_io_overwrites_what_is_ahead() {
    let mut vec = b"abcdef".to_vec();
    let mut writer = VecWriter::new(&mut vec);
    let mut source: &[u8] = b"XY";
    assert_eq!(byst::copy::copy_io(&mut writer, &mut source, None), 2);
    assert_eq!(vec, b"XYcdef");
}

#[test]
fn copy_io_stops_at_amount() {
    let mut vec = b"abcdef".to_vec();
    let mut writer = VecWriter::new(&mut vec);
    let mut source: &[u8] = b"XYZ";
    assert_eq!(byst::copy::copy_io(&mut writer, &mut source, Some(2)), 2);
    assert_eq!(source, b"Z");
    assert_eq!(vec, b"XYcdef");
}

#[test]
fn copy_io_stops_when_a_chunk_does_not_fit() {
    let mut buf = [0u8; 3];
    let mut writer: &mut [u8] = &mut buf;
    let mut source: &[u8] = b"hello";
    assert_eq!(byst::copy::copy_io(&mut writer, &mut source, None), 3);
    assert_eq!(source, b"lo");
    assert_eq!(&buf, b"hel");

    let mut array = ArrayBuf::<4>::new();
    let mut writer = array.writer();
    let mut source: &[u8] = b"hello";
    assert_eq!(byst::copy::copy_io(&mut writer, &mut source, None), 0);
    assert_eq!(source, b"hello");
    let mut source: &[u8] = b"hey";
    assert_eq!(byst::copy::copy_io(&mut writer, &mut source, None), 3);
    assert_eq!(array.into_vec(), b"hey");
}

#[test]
fn it_copies_io() {
    let mut destination: [u8; 8] = [42; 8];
    let source: [u8; 8] = [1, 2, 3, 4, 5, 6, 7, 8];

    let mut writer: &mut [u8] = destination.as_mut();
    let total_copied = byst::copy::copy_io(&mut writer, &mut source.as_ref(), None);
    assert_eq!(total_copied, 8);
    assert_eq!(source, destination);
}

#[test]
fn it_copies_partial() {
    let mut destination: [u8; 8] = [42; 8];
    let source: [u8; 8] = [1, 2, 3, 4, 5, 6, 7, 8];

    let mut writer: &mut [u8] = destination.as_mut();
    let total_copied = byst::copy::copy_io(&mut writer, &mut source.as_ref(), Some(4));
    assert_eq!(total_copied, 4);
    assert_eq!([1, 2, 3, 4, 42, 42, 42, 42], destination);
}

#[test]
fn copy_io_adds_no_more_than_amount() {
    let mut vec = Vec::new();
    let mut writer = VecWriter::new(&mut vec);
    let mut source: &[u8] = b"hello";
    assert_eq!(byst::copy::copy_io(&mut writer, &mut source, Some(2)), 2);
    assert_eq!(source, b"llo");
    assert_eq!(vec, b"he");
}

#[test]
fn copy_into_chunk_copies_what_both_hold() {
    let mut dest = *b"abcd";
    assert_eq!(byst::copy::copy_into_chunk(&mut dest, b"XY", None), 2);
    assert_eq!(&dest, b"XYcd");
    assert_eq!(byst::copy::copy_into_chunk(&mut dest, b"123456", Some(3)), 3);
    assert_eq!(&dest, b"123d");
}
