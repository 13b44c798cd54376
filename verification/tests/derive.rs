use byst::derive::{
    bitfield_layout, field_bits, BitfieldError, BitfieldFieldOptions, ByteOrder,
    ConflictingEndianness, Endianness,
};

fn options(bits: Option<usize>, start: Option<usize>, end: Option<usize>) -> BitfieldFieldOptions {
    BitfieldFieldOptions { bits, start, end }
}

#[test]
fn fields_follow_each_other() {
    let fields = [
        options(None, None, None),
        options(Some(3), None, None),
        options(None, None, Some(8)),
        options(Some(2), Some(12), None),
        options(None, None, None),
    ];
    assert_eq!(
        bitfield_layout(&fields).unwrap(),
        vec![(0, 1), (1, 3), (4, 4), (12, 2), (14, 1)]
    );
}

#[test]
fn bad_fields_are_reported_with_their_index() {
    let fields = [
        options(Some(4), None, None),
        options(Some(1), None, Some(9)),
    ];
    assert_eq!(
        bitfield_layout(&fields).unwrap_err(),
        (1, BitfieldError::BitsAndEnd)
    );
    assert_eq!(
        field_bits(&options(None, Some(5), Some(5)), 0),
        Err(BitfieldError::ZeroBits)
    );
    assert_eq!(
        field_bits(&options(None, Some(6), Some(5)), 0),
        Err(BitfieldError::EndNotAfterStart)
    );
    assert_eq!(
        field_bits(&options(Some(0), None, None), 3),
        Err(BitfieldError::ZeroBits)
    );
    assert_eq!(
        bitfield_layout(&[options(Some(2), Some(usize::MAX), None)]).unwrap_err(),
        (0, BitfieldError::TooWide)
    );
    assert_eq!(bitfield_layout(&[]).unwrap(), vec![]);
}

#[test]
fn one_byte_order_at_most() {
    let none = Endianness::default();
    assert_eq!(none.ty(), Ok(None));
    let big = Endianness {
        big: true,
        ..Endianness::default()
    };
    assert_eq!(big.ty(), Ok(Some(ByteOrder::Big)));
    let network = Endianness {
        network: true,
        ..Endianness::default()
    };
    assert_eq!(network.ty(), Ok(Some(ByteOrder::Network)));
    let both = Endianness {
        big: true,
        little: true,
        ..Endianness::default()
    };
    assert_eq!(both.ty(), Err(ConflictingEndianness));
}
