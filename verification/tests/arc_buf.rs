use byst::buf::arc_buf::ArcBufMut;
use byst::buf::{BufExt, BufMut, Full, Length, Slab};

#[test]
fn it_reclaims_empty_buffers_correctly() {
    let (buf, reclaim) = ArcBufMut::new_reclaimable(0);
    assert!(buf.ref_count().is_static());
    drop(buf);
    assert!(reclaim.can_reclaim());
    let reclaimed = reclaim.try_reclaim().unwrap();
    assert!(reclaimed.ref_count().is_static());
}

#[test]
fn empty_bufs_dont_ref_count() {
    let buf = ArcBufMut::new(10);
    let frozen = buf.freeze();
    assert_eq!(frozen.ref_count().ref_count(), None);
}

#[test]
fn it_doesnt_reuse_in_use_buffer() {
    let mut slab = Slab::new(128, 32);

    let bytes_mut = slab.get();
    let bytes_mut2 = slab.get();
    assert_eq!(bytes_mut.ref_count().ref_count(), Some(1));
    assert_eq!(bytes_mut2.ref_count().ref_count(), Some(1));
}

#[test]
fn buf_slab_it_reuses_buffers() {
    let mut slab = Slab::new(128, 32);
    assert_eq!(slab.num_in_use(), 0);
    assert_eq!(slab.num_available(), 0);

    let bytes_mut = slab.get();
    assert_eq!(slab.num_in_use(), 1);
    assert_eq!(slab.num_available(), 0);

    drop(bytes_mut);
    let _bytes_mut = slab.get();
    assert_eq!(slab.num_in_use(), 1);
    assert_eq!(slab.num_available(), 0);
}

#[test]
fn buf_slab_cant_write_more_than_buf_size() {
    let mut slab = Slab::new(4, 32);
    let mut bytes_mut = slab.get();
    assert_eq!(
        byst::copy(&mut bytes_mut, b"abcdefgh").unwrap_err(),
        Full { required: 8, capacity: 4 }
    );
}

#[test]
fn buf_slab_write_freeze_read() {
    let mut slab = Slab::new(128, 32);
    let mut bytes_mut = slab.get();
    byst::copy(&mut bytes_mut, b"abcd").unwrap();
    let bytes = bytes_mut.freeze();
    assert_eq!(bytes.into_vec(), b"abcd");
    let bytes2 = bytes.clone();
    assert_eq!(bytes2.into_vec(), b"abcd");
}

#[test]
fn arc_buf_mut_extend_split_and_view() {
    let mut buf = ArcBufMut::copy_from_slice(b"Hello World");
    assert_eq!(buf.capacity(), 11);
    assert_eq!(
        buf.extend(b"!").unwrap_err(),
        Full { required: 12, capacity: 11 }
    );
    let front = buf.split_at(5).unwrap();
    assert_eq!(front.view(..).unwrap(), b"Hello");
    assert_eq!(buf.view(..).unwrap(), b" World");
    assert!(buf.split_at(7).is_err());
    let frozen = buf.freeze();
    assert_eq!(frozen.view(1..).unwrap().into_vec(), b"World");
    assert_eq!(frozen.len(), 6);
}

#[test]
fn arc_buf_mut_grow() {
    let mut buf = ArcBufMut::new(4);
    buf.grow(3, 7).unwrap();
    assert_eq!(buf.view(..).unwrap(), &[7, 7, 7]);
    assert_eq!(buf.grow(5, 0).unwrap_err(), Full { required: 5, capacity: 4 });
    buf.clear();
    assert_eq!(buf.len(), 0);
}

#[test]
fn buf_slab_keeps_other_free_buffers_available() {
    let mut slab = Slab::new(128, 1);
    let a = slab.get();
    let b = slab.get();
    let c = slab.get();
    let _d = slab.get();
    assert_eq!(slab.num_in_use(), 4);
    drop(a);
    drop(b);
    drop(c);
    let _e = slab.get();
    // one of the three free buffers is handed out, one is kept available, and
    // the third is dropped, since only one is kept
    assert_eq!(slab.num_in_use(), 2);
    assert_eq!(slab.num_available(), 1);
    let _f = slab.get();
    assert_eq!(slab.num_in_use(), 3);
    assert_eq!(slab.num_available(), 0);
}

#[test]
fn new_buffers_are_counted_once_and_not_reclaimable() {
    let b = ArcBufMut::new(4);
    assert_eq!(
        b.ref_count(),
        byst::buf::arc_buf::RefCount::Counted {
            ref_count: 1,
            reclaim: false
        }
    );
    let (b, r) = ArcBufMut::new_reclaimable(4);
    assert_eq!(
        b.ref_count(),
        byst::buf::arc_buf::RefCount::Counted {
            ref_count: 1,
            reclaim: true
        }
    );
    assert!(!r.can_reclaim());
    drop(b);
    assert!(r.can_reclaim());
}

#[test]
fn buf_slab_hands_out_distinct_buffers() {
    let mut slab = Slab::new(128, 32);
    let a = slab.get();
    let b = slab.get();
    assert_eq!(a.ref_count().ref_count(), Some(1));
    assert_eq!(b.ref_count().ref_count(), Some(1));
    assert_eq!(slab.num_in_use(), 2);
}
