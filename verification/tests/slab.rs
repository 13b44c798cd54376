use byst::buf::chunks::Chunks;
use byst::buf::WriteError;
use byst::slab::{RefCount, Slab};
use byst::RangeOutOfBounds;

#[test]
fn write_read_full_from_start() {
    let mut slab = Slab::new(128, 32);

    let mut bytes_mut = slab.get();
    bytes_mut.write(0..4, b"abcd", ..).unwrap();
    assert_eq!(bytes_mut.chunks(..).unwrap().next().unwrap(), b"abcd");
}

#[test]
fn write_read_partial_from_start() {
    let mut slab = Slab::new(128, 32);

    let mut bytes_mut = slab.get();
    bytes_mut.write(0..4, b"abcd", ..).unwrap();
    assert_eq!(bytes_mut.chunks(0..2).unwrap().next().unwrap(), b"ab");
}

#[test]
fn write_with_fill() {
    let mut slab = Slab::new(128, 32);

    let mut bytes_mut = slab.get();
    bytes_mut.write(4..8, b"abcd", ..).unwrap();
    assert_eq!(
        bytes_mut.chunks(..).unwrap().next().unwrap(),
        b"\x00\x00\x00\x00abcd"
    );
}

#[test]
fn write_over_buf_end() {
    let mut slab = Slab::new(128, 32);

    let mut bytes_mut = slab.get();

    bytes_mut.write(0..4, b"abcd", ..).unwrap();
    bytes_mut.write(2..6, b"efgh", ..).unwrap();

    assert_eq!(bytes_mut.chunks(..).unwrap().next().unwrap(), b"abefgh");
}

#[test]
fn write_extend_with_unbounded_destination_slice() {
    let mut slab = Slab::new(128, 32);

    let mut bytes_mut = slab.get();

    bytes_mut.write(0..4, b"abcd", ..).unwrap();
    bytes_mut.write(2.., b"efgh", ..).unwrap();

    assert_eq!(bytes_mut.chunks(..).unwrap().next().unwrap(), b"abefgh");
}

#[test]
fn slab_cant_read_more_than_written() {
    let mut slab = Slab::new(128, 32);

    let mut bytes_mut = slab.get();
    bytes_mut.write(0..4, b"abcd", 0..4).unwrap();

    assert_eq!(
        bytes_mut.chunks(0..8).unwrap_err(),
        RangeOutOfBounds {
            required: (0..8).into(),
            bounds: (0, 4)
        },
    );
}

#[test]
fn slab_cant_write_more_than_buf_size() {
    let mut slab = Slab::new(4, 32);

    let mut bytes_mut = slab.get();
    assert_eq!(
        bytes_mut.write(0..8, b"abcdefgh", 0..8).unwrap_err(),
        WriteError::Full {
            required: (0..8).into(),
            buf_length: 4
        }
    );
}

#[test]
fn slab_write_freeze_read() {
    let mut slab = Slab::new(128, 32);

    let mut bytes_mut = slab.get();
    bytes_mut.write(0..4, b"abcd", 0..4).unwrap();

    let bytes = bytes_mut.freeze();
    assert_eq!(bytes.chunks(..).unwrap().next().unwrap(), b"abcd");

    let bytes2 = bytes.clone();
    assert_eq!(bytes2.chunks(..).unwrap().next().unwrap(), b"abcd");
}

#[test]
fn it_increments_ref_count_on_clone() {
    let mut slab = Slab::new(128, 32);
    let mut bytes_mut = slab.get();
    // if we don't write something into the buffer, we'll get a static (dangling,
    // zero-sized) buffer.
    bytes_mut.write(.., b"foobar", ..).unwrap();
    let bytes = bytes_mut.freeze();

    assert_eq!(bytes.ref_count().ref_count().unwrap(), 1);
    let bytes2 = bytes.clone();
    assert_eq!(bytes.ref_count().ref_count().unwrap(), 2);
    assert_eq!(bytes2.ref_count().ref_count().unwrap(), 2);
}

#[test]
fn it_decrements_ref_count_on_drop() {
    let mut slab = Slab::new(128, 32);
    let mut bytes_mut = slab.get();
    bytes_mut.write(.., b"foobar", ..).unwrap();
    let bytes = bytes_mut.freeze();
    let bytes2 = bytes.clone();

    assert_eq!(bytes.ref_count().ref_count().unwrap(), 2);
    assert_eq!(bytes2.ref_count().ref_count().unwrap(), 2);
    drop(bytes2);
    assert_eq!(bytes.ref_count().ref_count().unwrap(), 1);
}

#[test]
fn it_orphanes_buffers() {
    let mut slab = Slab::new(128, 32);
    let bytes_mut = slab.get();

    assert!(!bytes_mut.ref_count().is_orphaned());
    drop(slab);
    assert!(bytes_mut.ref_count().is_orphaned());
}

#[test]
fn empty_bytes_are_not_ref_counted() {
    let mut slab = Slab::new(128, 32);
    let bytes_mut = slab.get();
    let bytes = bytes_mut.freeze();

    assert!(matches!(bytes.ref_count(), RefCount::Static));
}

#[test]
fn slab_it_reuses_buffers() {
    let mut slab = Slab::new(128, 32);
    assert_eq!(slab.num_in_use(), 0);
    assert_eq!(slab.num_available(), 0);

    let bytes_mut = slab.get();
    assert_eq!(slab.num_in_use(), 1);
    assert_eq!(slab.num_available(), 0);

    drop(bytes_mut);
    let _bytes_mut = slab.get();
    assert_eq!(slab.num_in_use(), 1);
    assert_eq!(slab.num_available(), 0);
}

#[test]
fn slab_write_length_mismatch_and_source_out_of_bounds() {
    let mut slab = Slab::new(128, 32);
    let mut bytes_mut = slab.get();
    assert!(matches!(
        bytes_mut.write(0..3, b"abcd", ..),
        Err(WriteError::LengthMismatch(_))
    ));
    assert!(matches!(
        bytes_mut.write(0..3, b"abcd", 0..5),
        Err(WriteError::SourceRangeOutOfBounds(_))
    ));
    assert_eq!(bytes_mut.chunks(..).unwrap().next().unwrap(), b"");
}

#[test]
fn slab_view_of_frozen_bytes() {
    let mut slab = Slab::new(16, 4);
    let mut bytes_mut = slab.get();
    bytes_mut.write(.., b"Hello World", ..).unwrap();
    let bytes = bytes_mut.freeze();
    let view = bytes.view(6..).unwrap();
    assert_eq!(view.chunks(..).unwrap().next().unwrap(), b"World");
    let view2 = view.view(1..3).unwrap();
    assert_eq!(view2.chunks(..).unwrap().next().unwrap(), b"or");
    assert!(bytes.view(3..20).is_err());
}

#[test]
fn slab_grow_for() {
    let mut slab = Slab::new(8, 4);
    let mut bytes_mut = slab.get();
    bytes_mut.grow_for(..5).unwrap();
    assert_eq!(bytes_mut.view(..).unwrap(), &[0, 0, 0, 0, 0]);
    assert!(bytes_mut.grow_for(..9).is_err());
}

#[test]
fn slab_keeps_other_free_buffers_available() {
    let mut slab = Slab::new(128, 32);
    let a = slab.get();
    let b = slab.get();
    let _c = slab.get();
    assert_eq!(slab.num_in_use(), 3);
    drop(a);
    drop(b);
    let _d = slab.get();
    assert_eq!(slab.num_in_use(), 2);
    assert_eq!(slab.num_available(), 1);
    let _e = slab.get();
    assert_eq!(slab.num_in_use(), 3);
    assert_eq!(slab.num_available(), 0);
    assert_eq!(slab.num_total(), 3);
}
