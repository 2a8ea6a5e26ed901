//! How much of the file each encoded item takes and what it yields, stated
//! by byte positions: a vector element holds four floats per row of its
//! vector type, a tuple member's declaration is followed by its tuple size,
//! and a bit field of `n` bits fills `n / 8` bytes rounded up.
use vstd::prelude::*;

use super::format::{
    at, default_value, packed_int, read_bits, read_element, read_float, read_floats,
    read_member_decl, read_string, spec_read, ReadState,
};
use vstd::utf8::decode_utf8;
use super::object::HavokValueView;
use super::types::{HavokTagType, HavokValueType, TYPE_OBJECT, TYPE_STRUCT, TYPE_VEC16, TYPE_VEC4};
use crate::util::spec_u32_le;

verus! {

/// `n` floats read in a row take `4 * n` bytes and are the little-endian
/// words found there, in order.
pub proof fn lemma_floats_in_a_row(data: Seq<u8>, s: ReadState, n: nat)
    ensures
        n > 0 ==> (read_floats(data, s, n) is Some <==> (0 <= s.cursor && s.cursor + 4 * n <= data.len())),
        read_floats(data, s, n) matches Some((s1, fs)) ==> {
            &&& s1 == at(s, s.cursor + 4 * n)
            &&& fs.len() == n
            &&& forall|i: int| 0 <= i < n ==> #[trigger] fs[i] == spec_u32_le(data, s.cursor + 4 * i)
        },
    decreases n,
{
    if n > 0 {
        lemma_floats_in_a_row(data, s, (n - 1) as nat);
        if let Some((s1, fs)) = read_floats(data, s, (n - 1) as nat) {
            if let Some((s2, f)) = read_float(data, s1) {
                let all = fs.push(f);
                assert forall|i: int| 0 <= i < n implies #[trigger] all[i] == spec_u32_le(data, s.cursor + 4 * i) by {
                    if i < n - 1 {
                        assert(all[i] == fs[i]);
                    }
                }
            }
        }
    }
}

/// An array element of a vector type holds `4 * (base - VEC4 + 1)` floats,
/// which is the vector size of that type (4, 8, 12 or 16): it takes four
/// bytes per float, the floats are the words found there, and it is read
/// exactly when those bytes are in the file.
pub proof fn lemma_vector_element(data: Seq<u8>, s: ReadState, base: u32)
    requires
        TYPE_VEC4 <= base <= TYPE_VEC16,
    ensures
        4 * (base - TYPE_VEC4 + 1) == (HavokValueType { bits: base }).spec_vec_size(),
        read_element(data, s, base) is Some <==> (0 <= s.cursor && s.cursor + 16 * (base - TYPE_VEC4 + 1)
            <= data.len()),
        read_element(data, s, base) matches Some((s1, v)) ==> {
            &&& s1 == at(s, s.cursor + 16 * (base - TYPE_VEC4 + 1))
            &&& v matches HavokValueView::Vec(fs)
            &&& fs.len() == 4 * (base - TYPE_VEC4 + 1)
            &&& forall|i: int| 0 <= i < fs.len() ==> #[trigger] fs[i] == spec_u32_le(data, s.cursor + 4 * i)
        },
{
    assert(base % 16 == base);
    lemma_floats_in_a_row(data, s, (4 * (base - TYPE_VEC4 + 1)) as nat);
}

/// A member declaration is its name, its type word, then, for a tuple type
/// only, the tuple size as a packed integer, then, for an object or
/// structure base type only, its class name; the declaration ends after the
/// last of these.
pub proof fn lemma_member_decl_layout(data: Seq<u8>, s: ReadState)
    ensures
        read_member_decl(data, s) matches Some((s4, m)) ==> {
            let (s1, name) = read_string(data, s)->0;
            let (p2, raw) = packed_int(data, s1.cursor)->0;
            let after_tuple = if m.type_.spec_is_tuple() {
                (packed_int(data, p2)->0).0
            } else {
                p2
            };
            let base = m.type_.spec_base_bits();
            &&& m.name == name
            &&& m.type_.spec_bits() == raw as u32
            &&& m.type_.spec_is_tuple() ==> (packed_int(data, p2) matches Some((p3, size)) && m.tuple_size
                == size as u32)
            &&& !m.type_.spec_is_tuple() ==> m.tuple_size == 0
            &&& (base == TYPE_OBJECT || base == TYPE_STRUCT) ==> (read_string(data, at(s1, after_tuple))
                matches Some((s5, c)) && m.class_name == Some(c) && s4 == s5)
            &&& !(base == TYPE_OBJECT || base == TYPE_STRUCT) ==> m.class_name is None && s4 == at(
                s1,
                after_tuple,
            )
        },
{
}

/// A bit field of `count` bits takes `count / 8` bytes rounded up, is read
/// exactly when those bytes are in the file, and holds bit `i % 8` of byte
/// `i / 8` as its bit `i`.
pub proof fn lemma_bit_field_layout(data: Seq<u8>, s: ReadState, count: usize)
    requires
        count + 7 <= 0xffff_ffff,
    ensures
        read_bits(data, s, count) is Some <==> (0 <= s.cursor && s.cursor + (count + 7) / 8 <= data.len()),
        read_bits(data, s, count) matches Some((s1, bits)) ==> {
            &&& s1 == at(s, s.cursor + (count + 7) / 8)
            &&& bits.len() == count
            &&& forall|i: int|
                0 <= i < count ==> #[trigger] bits[i] == ((data[s.cursor + i / 8] >> ((i % 8) as u8)) & 1u8
                    == 1u8)
        },
{
    let x: usize = (count + 7) as usize;
    assert((x & 0xffff_fff8usize) / 8 == x / 8) by (bit_vector)
        requires
            x <= 0xffff_ffff,
    ;
    let n = (count + 7) / 8;
    assert(8 * n >= count) by (nonlinear_arith)
        requires
            n == (count + 7) / 8,
    ;
}

/// A type word holds the array flag in bit 4, the tuple flag in bit 5 and
/// the base type in its low four bits.
pub proof fn lemma_type_word_bits(bits: u32)
    ensures
        (HavokValueType { bits }).spec_is_array() <==> bits & 0x10 != 0,
        (HavokValueType { bits }).spec_is_tuple() <==> bits & 0x20 != 0,
        (HavokValueType { bits }).spec_base_bits() == bits & 0x0f,
{
    assert(((bits / 16) % 2 == 1) <==> bits & 0x10 != 0) by (bit_vector);
    assert(((bits / 32) % 2 == 1) <==> bits & 0x20 != 0) by (bit_vector);
    assert(bits % 16 == bits & 0x0f) by (bit_vector);
}

/// The record tags by their codes: 1 file information, 2 a type, 3 an
/// object, 4 a remembered object, 5 a back reference, 6 a null object,
/// 7 the end of the file, 255 the end of the stream.
pub proof fn lemma_tag_codes(raw: u8)
    ensures
        HavokTagType::spec_from_raw(raw) == HavokTagType::FileInfo <==> raw == 1,
        HavokTagType::spec_from_raw(raw) == HavokTagType::Type <==> raw == 2,
        HavokTagType::spec_from_raw(raw) == HavokTagType::Object <==> raw == 3,
        HavokTagType::spec_from_raw(raw) == HavokTagType::ObjectRemember <==> raw == 4,
        HavokTagType::spec_from_raw(raw) == HavokTagType::Backref <==> raw == 5,
        HavokTagType::spec_from_raw(raw) == HavokTagType::ObjectNull <==> raw == 6,
        HavokTagType::spec_from_raw(raw) == HavokTagType::FileEnd <==> raw == 7,
        HavokTagType::spec_from_raw(raw) == HavokTagType::Eof <==> raw == 255,
{
}

/// A packed integer in one byte (bit 7 clear) is bits 1 to 6 of that byte,
/// negated when bit 0 is set.
pub proof fn lemma_packed_one_byte(data: Seq<u8>, pos: int)
    requires
        0 <= pos < data.len(),
        data[pos] < 0x80,
    ensures
        packed_int(data, pos) == Some(
            (
                pos + 1,
                if data[pos] % 2 == 1 {
                    -((data[pos] / 2) as int)
                } else {
                    (data[pos] / 2) as int
                } as i32,
            ),
        ),
{
    let b = data[pos];
    assert(b & 0x80 == 0 && ((b & 0x7f) >> 1u8) == b / 2 && b & 1 == b % 2) by (bit_vector)
        requires
            b < 0x80,
    ;
}

/// A packed integer in two bytes (bit 7 set in the first, clear in the
/// second): bits 1 to 6 of the first byte are the low six bits of the
/// magnitude, the low seven bits of the second byte the next seven; bit 0 of
/// the first byte is the sign.
pub proof fn lemma_packed_two_bytes(data: Seq<u8>, pos: int)
    requires
        0 <= pos,
        pos + 1 < data.len(),
        data[pos] >= 0x80,
        data[pos + 1] < 0x80,
    ensures
        packed_int(data, pos) == Some(
            (
                pos + 2,
                if data[pos] % 2 == 1 {
                    -(((data[pos] % 0x80) / 2) + data[pos + 1] * 64)
                } else {
                    ((data[pos] % 0x80) / 2) + data[pos + 1] * 64
                } as i32,
            ),
        ),
{
    let b0 = data[pos];
    let b1 = data[pos + 1];
    let first = ((b0 & 0x7f) >> 1u8) as u32;
    assert(b0 & 0x80 != 0 && ((b0 & 0x7f) >> 1u8) == (b0 % 0x80) / 2 && b0 & 1 == b0 % 2) by (bit_vector)
        requires
            b0 >= 0x80,
    ;
    assert(b1 & 0x80 == 0) by (bit_vector)
        requires
            b1 < 0x80,
    ;
    assert(first | (((b1 as u32) & 0xffff_ff7f) << 6u32) == first + (b1 as u32) * 64) by (bit_vector)
        requires
            first < 64,
            b1 < 0x80,
    ;
    assert(first < 64) by (bit_vector)
        requires
            first == ((b0 & 0x7f) >> 1u8) as u32,
    ;
}

/// A file that reads starts with the eight signature bytes
/// 1E 0D B0 CA CE FA 11 D0.
pub proof fn lemma_signature_bytes(data: Seq<u8>)
    requires
        spec_read(data) is Some,
    ensures
        data.len() >= 8,
        data.subrange(0, 8) == seq![0x1Eu8, 0x0Du8, 0xB0u8, 0xCAu8, 0xCEu8, 0xFAu8, 0x11u8, 0xD0u8],
{
    let (a, b, c, d) = (data[0], data[1], data[2], data[3]);
    assert(a as int + b as int * 0x100 + c as int * 0x1_0000 + d as int * 0x100_0000 == 0xCAB0_0D1E ==> a
        == 0x1E && b == 0x0D && c == 0xB0 && d == 0xCA) by (nonlinear_arith);
    let (e, f, g, h) = (data[4], data[5], data[6], data[7]);
    assert(e as int + f as int * 0x100 + g as int * 0x1_0000 + h as int * 0x100_0000 == 0xD011_FACE ==> e
        == 0xCE && f == 0xFA && g == 0x11 && h == 0xD0) by (nonlinear_arith);
    assert(data.subrange(0, 8) =~= seq![0x1Eu8, 0x0Du8, 0xB0u8, 0xCAu8, 0xCEu8, 0xFAu8, 0x11u8, 0xD0u8]);
}

/// A string is a packed length `n`, then, for `n >= 0`, `n` bytes of UTF-8
/// that become a new remembered string, or, for `n < 0`, no more bytes: it
/// is the string remembered at position `-n`.
pub proof fn lemma_string_layout(data: Seq<u8>, s: ReadState)
    ensures
        read_string(data, s) matches Some((s2, text)) ==> {
            let (p, n) = packed_int(data, s.cursor)->0;
            &&& n >= 0 ==> s2.cursor == p + n && text == decode_utf8(data.subrange(p, p + n))
                && s2.strings == s.strings.push(text)
            &&& n < 0 ==> s2.cursor == p && 0 < -n < s.strings.len() && text == s.strings[-n]
                && s2.strings == s.strings
            &&& s2.types == s.types && s2.objects == s.objects && s2.remembered == s.remembered
        },
{
}

/// A member whose data is absent gets an empty array when its type word has
/// the array or tuple flag and its base type is no vector; zero when it is
/// a plain empty, byte or integer member; nothing otherwise (a real, object,
/// structure, string or vector member has no default).
pub proof fn lemma_default_values(bits: u32)
    requires
        bits <= 0x3f,
    ensures
        ({
            let base = bits & 0x0f;
            let flags = bits & 0x30;
            &&& (4 <= base <= 7) ==> default_value(HavokValueType { bits }) is None
            &&& (flags != 0 && !(4 <= base <= 7)) ==> default_value(HavokValueType { bits }) == Some(
                HavokValueView::Array(seq![]),
            )
            &&& (flags == 0 && base <= 2) ==> default_value(HavokValueType { bits }) == Some(
                HavokValueView::Integer(0),
            )
            &&& (flags == 0 && (base == 3 || 8 <= base)) ==> default_value(HavokValueType { bits }) is None
        }),
{
    lemma_type_word_bits(bits);
    assert(bits & 0x30 != 0 <==> (bits & 0x10 != 0 || bits & 0x20 != 0)) by (bit_vector);
}

} // verus!
