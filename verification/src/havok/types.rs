//! The value-type word of a Havok member declaration and the record tags.
use vstd::prelude::*;

verus! {

/// The type word of a member: a base type in the low four bits, plus the
/// array (`0x10`) and tuple (`0x20`) flags.
#[derive(Clone, Copy, Debug, PartialEq, Eq, Structural)]
pub struct HavokValueType {
    pub bits: u32,
}

/// Base type: no value.
pub const TYPE_EMPTY: u32 = 0;
/// Base type: one byte.
pub const TYPE_BYTE: u32 = 1;
/// Base type: a packed integer.
pub const TYPE_INT: u32 = 2;
/// Base type: a 32-bit float.
pub const TYPE_REAL: u32 = 3;
/// Base type: four floats.
pub const TYPE_VEC4: u32 = 4;
/// Base type: eight floats.
pub const TYPE_VEC8: u32 = 5;
/// Base type: twelve floats.
pub const TYPE_VEC12: u32 = 6;
/// Base type: sixteen floats.
pub const TYPE_VEC16: u32 = 7;
/// Base type: a reference to a remembered object.
pub const TYPE_OBJECT: u32 = 8;
/// Base type: an inline structure of a named type.
pub const TYPE_STRUCT: u32 = 9;
/// Base type: a string.
pub const TYPE_STRING: u32 = 10;
/// Flag: the member holds an array of the base type.
pub const TYPE_ARRAY: u32 = 0x10;
/// Flag: the member holds a tuple of the base type.
pub const TYPE_TUPLE: u32 = 0x20;
/// Every bit that a type word may carry.
pub const TYPE_ALL_BITS: u32 = 0x3f;

impl HavokValueType {
    /// The raw type word.
    pub open spec fn spec_bits(self) -> u32 {
        self.bits
    }

    /// A type word is valid when it carries no bit outside [`TYPE_ALL_BITS`].
    pub open spec fn valid_bits(bits: u32) -> bool {
        bits <= TYPE_ALL_BITS
    }

    /// Whether the array flag (bit 4) is set.
    pub open spec fn spec_is_array(self) -> bool {
        (self.bits / 16) % 2 == 1
    }

    /// Whether the tuple flag (bit 5) is set.
    pub open spec fn spec_is_tuple(self) -> bool {
        (self.bits / 32) % 2 == 1
    }

    /// The base type: the low four bits.
    pub open spec fn spec_base_bits(self) -> u32 {
        self.bits % 16
    }

    pub open spec fn spec_is_vec(self) -> bool {
        TYPE_VEC4 <= self.spec_base_bits() <= TYPE_VEC16
    }

    /// Number of floats in a vector base type.
    pub open spec fn spec_vec_size(self) -> u8 {
        if self.spec_base_bits() == TYPE_VEC4 {
            4
        } else if self.spec_base_bits() == TYPE_VEC8 {
            8
        } else if self.spec_base_bits() == TYPE_VEC12 {
            12
        } else {
            16
        }
    }

    /// The type with exactly the given word, when that word is valid.
    pub fn from_bits(bits: u32) -> (r: Option<Self>)
        ensures
            r is Some <==> Self::valid_bits(bits),
            r matches Some(t) ==> t.spec_bits() == bits,
    {
        assert(bits & !TYPE_ALL_BITS == 0 <==> bits <= 0x3f) by (bit_vector);
        if bits & !TYPE_ALL_BITS == 0 {
            Some(HavokValueType { bits })
        } else {
            None
        }
    }

    pub fn bits(&self) -> (r: u32)
        ensures
            r == self.spec_bits(),
    {
        self.bits
    }

    pub fn is_array(&self) -> (r: bool)
        ensures
            r == self.spec_is_array(),
    {
        let b = self.bits;
        assert(b & 0x10 != 0 <==> (b / 16) % 2 == 1) by (bit_vector);
        self.bits & TYPE_ARRAY != 0
    }

    pub fn is_tuple(&self) -> (r: bool)
        ensures
            r == self.spec_is_tuple(),
    {
        let b = self.bits;
        assert(b & 0x20 != 0 <==> (b / 32) % 2 == 1) by (bit_vector);
        self.bits & TYPE_TUPLE != 0
    }

    /// The base type, without the array and tuple flags.
    pub fn base_type(&self) -> (r: Self)
        ensures
            r.spec_bits() == self.spec_base_bits(),
    {
        let b = self.bits;
        assert(b & 0x0f == b % 16) by (bit_vector);
        HavokValueType { bits: self.bits & 0x0f }
    }

    /// Whether the base type is one of the float vectors.
    pub fn is_vec(&self) -> (r: bool)
        ensures
            r == self.spec_is_vec(),
    {
        let b = self.bits;
        assert(b & 0x0f == b % 16) by (bit_vector);
        let base = self.bits & 0x0f;
        TYPE_VEC4 <= base && base <= TYPE_VEC16
    }

    /// Number of floats in the vector base type.
    pub fn vec_size(&self) -> (r: u8)
        requires
            self.spec_is_vec(),
        ensures
            r == self.spec_vec_size(),
            r == 4 * (self.spec_base_bits() - TYPE_VEC4 + 1),
    {
        let b = self.bits;
        assert(b & 0x0f == b % 16) by (bit_vector);
        let base = self.bits & 0x0f;
        if base == TYPE_VEC4 {
            4
        } else if base == TYPE_VEC8 {
            8
        } else if base == TYPE_VEC12 {
            12
        } else {
            16
        }
    }
}

/// The tag that opens each record of a tag file.
#[derive(Clone, Copy, Debug, PartialEq, Eq, Structural)]
pub enum HavokTagType {
    Eof,
    Invalid,
    FileInfo,
    Type,
    Object,
    ObjectRemember,
    Backref,
    ObjectNull,
    FileEnd,
}

impl HavokTagType {
    pub open spec fn spec_from_raw(raw: u8) -> HavokTagType {
        if raw == 1 {
            HavokTagType::FileInfo
        } else if raw == 2 {
            HavokTagType::Type
        } else if raw == 3 {
            HavokTagType::Object
        } else if raw == 4 {
            HavokTagType::ObjectRemember
        } else if raw == 5 {
            HavokTagType::Backref
        } else if raw == 6 {
            HavokTagType::ObjectNull
        } else if raw == 7 {
            HavokTagType::FileEnd
        } else if raw == 255 {
            HavokTagType::Eof
        } else {
            HavokTagType::Invalid
        }
    }

    /// The tag with the given code; unknown codes are [`HavokTagType::Invalid`].
    pub fn from_raw(raw: u8) -> (r: Self)
        ensures
            r == Self::spec_from_raw(raw),
    {
        if raw == 1 {
            HavokTagType::FileInfo
        } else if raw == 2 {
            HavokTagType::Type
        } else if raw == 3 {
            HavokTagType::Object
        } else if raw == 4 {
            HavokTagType::ObjectRemember
        } else if raw == 5 {
            HavokTagType::Backref
        } else if raw == 6 {
            HavokTagType::ObjectNull
        } else if raw == 7 {
            HavokTagType::FileEnd
        } else if raw == 255 {
            HavokTagType::Eof
        } else {
            HavokTagType::Invalid
        }
    }
}

} // verus!
