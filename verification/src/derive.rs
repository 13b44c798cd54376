//! The decisions the derive macros for reading and writing make: where each
//! field of a bit field lies, and in which byte order a field is read.

use vstd::prelude::*;

verus! {

/// What the attributes of a field of a bit field say of its bits.
#[derive(Clone, Copy, Debug, Default, PartialEq, Eq)]
pub struct BitfieldFieldOptions {
    pub bits: Option<usize>,
    pub start: Option<usize>,
    pub end: Option<usize>,
}

/// Why a field of a bit field can't be laid out.
#[derive(Clone, Copy, Debug, PartialEq, Eq)]
pub enum BitfieldError {
    /// Both `bits` and `end` were given.
    BitsAndEnd,
    /// `end` doesn't lie after `start`.
    EndNotAfterStart,
    /// The field has no bits.
    ZeroBits,
    /// The field ends past the largest bit index.
    TooWide,
}

/// Where a field lies, starting from bit `bit_index` unless it says where to
/// start: its start and its number of bits.
pub open spec fn spec_field_bits(
    options: BitfieldFieldOptions,
    bit_index: usize,
) -> Result<(usize, usize), BitfieldError> {
    let start = match options.start {
        Some(s) => s,
        None => bit_index,
    };
    match (options.bits, options.end) {
        (Some(_), Some(_)) => Err(BitfieldError::BitsAndEnd),
        (None, None) => Ok((start, 1usize)),
        (Some(bits), None) => if bits == 0 {
            Err(BitfieldError::ZeroBits)
        } else {
            Ok((start, bits))
        },
        (None, Some(end)) => if end < start {
            Err(BitfieldError::EndNotAfterStart)
        } else if end == start {
            Err(BitfieldError::ZeroBits)
        } else {
            Ok((start, (end - start) as usize))
        },
    }
}

/// Lays out one field of a bit field, which starts at `bit_index` unless
/// it says where to start. Returns its start and its number of bits.
pub fn field_bits(options: &BitfieldFieldOptions, bit_index: usize) -> (r: Result<
    (usize, usize),
    BitfieldError,
>)
    ensures
        r == spec_field_bits(*options, bit_index),
{
    let start = match options.start {
        Some(s) => s,
        None => bit_index,
    };
    let (start, bits) = match (options.bits, options.end) {
        (Some(_), Some(_)) => {
            return Err(BitfieldError::BitsAndEnd);
        },
        (None, None) => (start, 1),
        (Some(bits), None) => (start, bits),
        (None, Some(end)) => match end.checked_sub(start) {
            Some(bits) => (start, bits),
            None => {
                return Err(BitfieldError::EndNotAfterStart);
            },
        },
    };
    if bits == 0 {
        return Err(BitfieldError::ZeroBits);
    }
    Ok((start, bits))
}

/// The layout of fields `fields`, the first starting at `bit_index`: each
/// field starts where the one before it ended, unless it says where to
/// start. `Err((i, e))` for the first field `i` that can't be laid out.
pub open spec fn spec_layout(fields: Seq<BitfieldFieldOptions>, bit_index: usize) -> Result<
    Seq<(usize, usize)>,
    (nat, BitfieldError),
>
    decreases fields.len(),
{
    if fields.len() == 0 {
        Ok(Seq::empty())
    } else {
        match spec_field_bits(fields[0], bit_index) {
            Err(e) => Err((0nat, e)),
            Ok((start, bits)) => if start + bits > usize::MAX {
                Err((0nat, BitfieldError::TooWide))
            } else {
                match spec_layout(fields.drop_first(), (start + bits) as usize) {
                    Ok(rest) => Ok(seq![(start, bits)] + rest),
                    Err((i, e)) => Err((i + 1, e)),
                }
            },
        }
    }
}

/// Lays out the fields of a bit field: where each field starts, and how
/// many bits it has. The first field starts at bit 0; each other field
/// starts where the one before it ended, unless it says where to start.
/// Fails with the index of the first field that can't be laid out.
pub fn bitfield_layout(fields: &[BitfieldFieldOptions]) -> (r: Result<
    Vec<(usize, usize)>,
    (usize, BitfieldError),
>)
    ensures
        match spec_layout(fields@, 0) {
            Ok(layout) => r matches Ok(v) && v@ == layout,
            Err((i, e)) => r == Err::<Vec<(usize, usize)>, _>((i as usize, e)),
        },
{
    let mut layout: Vec<(usize, usize)> = Vec::new();
    let mut bit_index: usize = 0;
    let mut i: usize = 0;
    let n = fields.len();
    proof {
        assert(fields@.skip(0) =~= fields@);
        if let Ok(r) = spec_layout(fields@, 0) {
            assert(layout@ + r =~= r);
        }
    }
    while i < n
        invariant
            n == fields@.len(),
            i <= n,
            spec_layout(fields@, 0) == match spec_layout(fields@.skip(i as int), bit_index) {
                Ok(rest) => Ok(layout@ + rest),
                Err((j, e)) => Err::<Seq<(usize, usize)>, (nat, BitfieldError)>(((j + i) as nat, e)),
            },
        decreases n - i,
    {
        let ghost rest = fields@.skip(i as int);
        assert(rest[0] == fields@[i as int]);
        assert(rest.drop_first() =~= fields@.skip(i + 1));
        match field_bits(&fields[i], bit_index) {
            Err(e) => {
                return Err((i, e));
            },
            Ok((start, bits)) => {
                if bits > usize::MAX - start {
                    return Err((i, BitfieldError::TooWide));
                }
                let ghost before = layout@;
                layout.push((start, bits));
                bit_index = start + bits;
                proof {
                    if let Ok(r2) = spec_layout(fields@.skip(i + 1), bit_index) {
                        assert(layout@ + r2 =~= before + (seq![(start, bits)] + r2));
                    }
                }
                i += 1;
            },
        }
    }
    proof {
        assert(fields@.skip(n as int) =~= Seq::<BitfieldFieldOptions>::empty());
        assert(layout@ + Seq::<(usize, usize)>::empty() =~= layout@);
    }
    Ok(layout)
}

/// The byte orders a field can be read in.
#[derive(Clone, Copy, Debug, PartialEq, Eq)]
pub enum ByteOrder {
    Big,
    Little,
    Network,
    Native,
}

/// The error returned when more than one byte order was given.
#[derive(Clone, Copy, Debug, PartialEq, Eq)]
pub struct ConflictingEndianness;

/// What the attributes of a field say of its byte order.
#[derive(Clone, Copy, Debug, Default, PartialEq, Eq)]
pub struct Endianness {
    pub big: bool,
    pub little: bool,
    pub network: bool,
    pub native: bool,
}

impl Endianness {
    /// The byte order given, if one is: more than one is an error.
    pub fn ty(&self) -> (r: Result<Option<ByteOrder>, ConflictingEndianness>)
        ensures
            r == match (self.big, self.little, self.network, self.native) {
                (false, false, false, false) => Ok(None),
                (true, false, false, false) => Ok(Some(ByteOrder::Big)),
                (false, true, false, false) => Ok(Some(ByteOrder::Little)),
                (false, false, true, false) => Ok(Some(ByteOrder::Network)),
                (false, false, false, true) => Ok(Some(ByteOrder::Native)),
                _ => Err(ConflictingEndianness),
            },
    {
        match (self.big, self.little, self.network, self.native) {
            (false, false, false, false) => Ok(None),
            (true, false, false, false) => Ok(Some(ByteOrder::Big)),
            (false, true, false, false) => Ok(Some(ByteOrder::Little)),
            (false, false, true, false) => Ok(Some(ByteOrder::Network)),
            (false, false, false, true) => Ok(Some(ByteOrder::Native)),
            _ => Err(ConflictingEndianness),
        }
    }
}

} // verus!
