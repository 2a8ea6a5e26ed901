//! The Havok binary tag file format, stated as functions from the bytes of a
//! file and a reader state to the state after one read and the value read.
//! `None` marks input that the format does not admit.
use vstd::prelude::*;
use vstd::utf8::{decode_utf8, valid_utf8};

use super::object::{HavokValueView, MemberView, ObjectView, TypeView};
use super::types::{
    HavokTagType, HavokValueType, TYPE_BYTE, TYPE_EMPTY, TYPE_INT, TYPE_OBJECT, TYPE_REAL,
    TYPE_STRING, TYPE_STRUCT, TYPE_VEC16, TYPE_VEC4,
};
use crate::util::spec_u32_le;

verus! {

/// First word of every tag file.
pub const SIGNATURE_1: u32 = 0xCAB0_0D1E;

/// Second word of every tag file.
pub const SIGNATURE_2: u32 = 0xD011_FACE;

/// The only format version that is read.
pub const SUPPORTED_VERSION: u8 = 3;

/// What a reader has learnt so far: the strings, types and objects that
/// later records may refer back to, and its position in the file.
pub struct ReadState {
    pub file_version: u8,
    pub strings: Seq<Seq<char>>,
    pub types: Seq<TypeView>,
    /// Positions, in `objects`, of the objects that references name by number.
    pub remembered: Seq<usize>,
    pub objects: Seq<ObjectView>,
    pub cursor: int,
}

/// A decoded tag file: its types, its objects and the index of the root object.
pub struct HavokTagFileView {
    pub types: Seq<TypeView>,
    pub objects: Seq<ObjectView>,
    pub root: usize,
}

/// The state before the first record: two well-known strings and the root type `object`.
pub open spec fn initial_state() -> ReadState {
    ReadState {
        file_version: 0,
        strings: seq!["string"@, ""@],
        types: seq![TypeView { name: "object"@, parent: None, declared: seq![], members: seq![] }],
        remembered: seq![],
        objects: seq![],
        cursor: 0,
    }
}

/// The state moved to position `pos`.
pub open spec fn at(s: ReadState, pos: int) -> ReadState {
    ReadState { cursor: pos, ..s }
}

/// Bytes left to read; it does not grow as the cursor moves forward.
pub open spec fn remaining(data: Seq<u8>, s: ReadState) -> int {
    if s.cursor <= 0 {
        data.len() as int
    } else if s.cursor <= data.len() {
        data.len() - s.cursor
    } else {
        0
    }
}

// ---------------------------------------------------------------------------
// Primitive encodings, on a position in the bytes.

/// One byte.
pub open spec fn byte_at(data: Seq<u8>, pos: int) -> Option<(int, u8)> {
    if 0 <= pos < data.len() {
        Some((pos + 1, data[pos]))
    } else {
        None
    }
}

pub open spec fn packed_measure(shift: u32) -> int {
    if shift < 32 {
        32 - shift
    } else {
        0
    }
}

/// The continuation bytes of a packed integer: each adds its low bits
/// (bit 7 cleared) at `shift`, and a set bit 7 announces one more byte.
/// A byte that would be shifted by 32 or more is not admitted.
pub open spec fn packed_tail(data: Seq<u8>, pos: int, acc: u32, shift: u32) -> Option<(int, u32)>
    decreases packed_measure(shift),
{
    if 0 <= pos < data.len() && shift < 32 {
        let b = data[pos];
        let acc2 = acc | (((b as u32) & 0xffff_ff7f) << shift);
        if b & 0x80 != 0 {
            packed_tail(data, pos + 1, acc2, (shift + 7) as u32)
        } else {
            Some((pos + 1, acc2))
        }
    } else {
        None
    }
}

/// The value of a packed integer with sign bit `neg` and magnitude `tail`.
/// The magnitude `0x8000_0000` with the sign set has no `i32` negation and is
/// not admitted.
pub open spec fn signed_packed(neg: u8, tail: Option<(int, u32)>) -> Option<(int, i32)> {
    match tail {
        Some((p, r)) => if neg == 1 {
            if r == 0x8000_0000u32 {
                None
            } else {
                Some((p, (-(r as i32)) as i32))
            }
        } else {
            Some((p, r as i32))
        },
        None => None,
    }
}

/// A packed integer: the first byte holds a sign in bit 0, six bits of
/// magnitude in bits 1 to 6 and a continuation flag in bit 7.
pub open spec fn packed_int(data: Seq<u8>, pos: int) -> Option<(int, i32)> {
    if 0 <= pos < data.len() {
        let b = data[pos];
        let first = ((b & 0x7f) >> 1u8) as u32;
        let tail = if b & 0x80 != 0 {
            packed_tail(data, pos + 1, first, 6)
        } else {
            Some((pos + 1, first))
        };
        signed_packed(b & 1, tail)
    } else {
        None
    }
}

/// Number of bytes that hold a bit field of `count` bits.
pub open spec fn bit_field_bytes(count: usize) -> int {
    ((((count + 7) as usize) & 0xffff_fff8usize) / 8) as int
}

/// Bit `i` of a bit field that starts at `pos`: bit `i % 8` of byte `i / 8`.
pub open spec fn bit_at(data: Seq<u8>, pos: int, i: int) -> bool {
    (data[pos + i / 8] >> ((i % 8) as u8)) & 1u8 == 1u8
}

/// A bit field of `count` bits, least significant bit first.
pub open spec fn bit_field(data: Seq<u8>, pos: int, count: usize) -> Option<(int, Seq<bool>)> {
    if count + 7 > usize::MAX || pos < 0 {
        None
    } else {
        let n = bit_field_bytes(count);
        if pos + n > data.len() {
            None
        } else {
            let len = if count < 8 * n {
                count as int
            } else {
                8 * n
            };
            Some((pos + n, Seq::new(len as nat, |i: int| bit_at(data, pos, i))))
        }
    }
}

/// A 32-bit float, as the little-endian bit pattern of its four bytes.
pub open spec fn float_bits(data: Seq<u8>, pos: int) -> Option<(int, u32)> {
    if 0 <= pos && pos + 4 <= data.len() {
        Some((pos + 4, spec_u32_le(data, pos)))
    } else {
        None
    }
}

// ---------------------------------------------------------------------------
// Reads on a reader state.

pub open spec fn read_byte(data: Seq<u8>, s: ReadState) -> Option<(ReadState, u8)> {
    match byte_at(data, s.cursor) {
        Some((p, v)) => Some((at(s, p), v)),
        None => None,
    }
}

pub open spec fn read_packed(data: Seq<u8>, s: ReadState) -> Option<(ReadState, i32)> {
    match packed_int(data, s.cursor) {
        Some((p, v)) => Some((at(s, p), v)),
        None => None,
    }
}

pub open spec fn read_float(data: Seq<u8>, s: ReadState) -> Option<(ReadState, u32)> {
    match float_bits(data, s.cursor) {
        Some((p, v)) => Some((at(s, p), v)),
        None => None,
    }
}

pub open spec fn read_bits(data: Seq<u8>, s: ReadState, count: usize) -> Option<(ReadState, Seq<bool>)> {
    match bit_field(data, s.cursor, count) {
        Some((p, v)) => Some((at(s, p), v)),
        None => None,
    }
}

/// A string: a packed length `n`; for `n < 0` the string remembered at
/// position `-n`, otherwise `n` bytes of UTF-8 that become a remembered string.
pub open spec fn read_string(data: Seq<u8>, s: ReadState) -> Option<(ReadState, Seq<char>)> {
    match read_packed(data, s) {
        None => None,
        Some((s1, len)) => if len < 0 {
            if len == i32::MIN || -len >= s1.strings.len() {
                None
            } else {
                Some((s1, s1.strings[-len]))
            }
        } else {
            let end = s1.cursor + len;
            if end <= data.len() && valid_utf8(data.subrange(s1.cursor, end)) {
                let text = decode_utf8(data.subrange(s1.cursor, end));
                Some((ReadState { strings: s1.strings.push(text), cursor: end, ..s1 }, text))
            } else {
                None
            }
        },
    }
}

/// A member declaration: name, type word, the tuple size for a tuple, and
/// the class name for an object or structure base type.
pub open spec fn read_member_decl(data: Seq<u8>, s: ReadState) -> Option<(ReadState, MemberView)> {
    match read_string(data, s) {
        None => None,
        Some((s1, name)) => match read_packed(data, s1) {
            None => None,
            Some((s2, raw)) => {
                let bits = raw as u32;
                if !HavokValueType::valid_bits(bits) {
                    None
                } else {
                    let t = HavokValueType { bits };
                    let tuple = if t.spec_is_tuple() {
                        read_packed(data, s2)
                    } else {
                        Some((s2, 0i32))
                    };
                    match tuple {
                        None => None,
                        Some((s3, tuple_size)) => {
                            let base = t.spec_base_bits();
                            if base == TYPE_OBJECT || base == TYPE_STRUCT {
                                match read_string(data, s3) {
                                    None => None,
                                    Some((s4, class_name)) => Some(
                                        (
                                            s4,
                                            MemberView {
                                                name,
                                                type_: t,
                                                tuple_size: tuple_size as u32,
                                                class_name: Some(class_name),
                                            },
                                        ),
                                    ),
                                }
                            } else {
                                Some(
                                    (
                                        s3,
                                        MemberView {
                                            name,
                                            type_: t,
                                            tuple_size: tuple_size as u32,
                                            class_name: None,
                                        },
                                    ),
                                )
                            }
                        },
                    }
                }
            },
        },
    }
}

/// `n` member declarations in a row.
pub open spec fn read_member_decls(data: Seq<u8>, s: ReadState, n: nat) -> Option<(ReadState, Seq<MemberView>)>
    decreases n,
{
    if n == 0 {
        Some((s, seq![]))
    } else {
        match read_member_decls(data, s, (n - 1) as nat) {
            None => None,
            Some((s1, ms)) => match read_member_decl(data, s1) {
                None => None,
                Some((s2, m)) => Some((s2, ms.push(m))),
            },
        }
    }
}

/// A type declaration: name, version, the position of the parent among the
/// known types, and the new members; the type has the parent's members first.
pub open spec fn read_type_decl(data: Seq<u8>, s: ReadState) -> Option<(ReadState, TypeView)> {
    match read_string(data, s) {
        None => None,
        Some((s1, name)) => match read_packed(data, s1) {
            None => None,
            Some((s2, _version)) => match read_packed(data, s2) {
                None => None,
                Some((s3, parent)) => match read_packed(data, s3) {
                    None => None,
                    Some((s4, member_count)) => if parent < 0 || parent >= s4.types.len() {
                        None
                    } else {
                        let count: nat = if member_count > 0 {
                            member_count as nat
                        } else {
                            0
                        };
                        match read_member_decls(data, s4, count) {
                            None => None,
                            Some((s5, ms)) => Some(
                                (
                                    s5,
                                    TypeView {
                                        name,
                                        parent: Some(parent as usize),
                                        declared: ms,
                                        members: s4.types[parent as int].members + ms,
                                    },
                                ),
                            ),
                        }
                    },
                },
            },
        },
    }
}

/// The first type, from position `from` on, with the given name.
pub open spec fn first_type_named(types: Seq<TypeView>, name: Seq<char>, from: int) -> Option<int>
    decreases types.len() - from,
{
    if from < 0 || from >= types.len() {
        None
    } else if types[from].name == name {
        Some(from)
    } else {
        first_type_named(types, name, from + 1)
    }
}

/// `n` floats in a row.
pub open spec fn read_floats(data: Seq<u8>, s: ReadState, n: nat) -> Option<(ReadState, Seq<u32>)>
    decreases n,
{
    if n == 0 {
        Some((s, seq![]))
    } else {
        match read_floats(data, s, (n - 1) as nat) {
            None => None,
            Some((s1, fs)) => match read_float(data, s1) {
                None => None,
                Some((s2, f)) => Some((s2, fs.push(f))),
            },
        }
    }
}

/// Whether arrays of this base type are read element by element.
pub open spec fn is_element_base(base: u32) -> bool {
    base == TYPE_STRING || base == TYPE_OBJECT || base == TYPE_BYTE || base == TYPE_INT || base
        == TYPE_REAL || (TYPE_VEC4 <= base <= TYPE_VEC16)
}

/// Number of floats of a vector base type.
pub open spec fn vec_len(base: u32) -> nat {
    (4 * (base - TYPE_VEC4 + 1)) as nat
}

/// One array element of the given base type.
pub open spec fn read_element(data: Seq<u8>, s: ReadState, base: u32) -> Option<(ReadState, HavokValueView)> {
    if base == TYPE_STRING {
        match read_string(data, s) {
            Some((s1, v)) => Some((s1, HavokValueView::String(v))),
            None => None,
        }
    } else if base == TYPE_OBJECT {
        match read_packed(data, s) {
            Some((s1, v)) => Some((s1, HavokValueView::ObjectReference(v as usize))),
            None => None,
        }
    } else if base == TYPE_BYTE {
        match read_byte(data, s) {
            Some((s1, v)) => Some((s1, HavokValueView::Integer(v as i32))),
            None => None,
        }
    } else if base == TYPE_INT {
        match read_packed(data, s) {
            Some((s1, v)) => Some((s1, HavokValueView::Integer(v))),
            None => None,
        }
    } else if base == TYPE_REAL {
        match read_float(data, s) {
            Some((s1, v)) => Some((s1, HavokValueView::Real(v))),
            None => None,
        }
    } else {
        match read_floats(data, s, vec_len(base)) {
            Some((s1, v)) => Some((s1, HavokValueView::Vec(v))),
            None => None,
        }
    }
}

/// `n` array elements of the given base type.
pub open spec fn read_elements(data: Seq<u8>, s: ReadState, base: u32, n: nat) -> Option<
    (ReadState, Seq<HavokValueView>),
>
    decreases n,
{
    if n == 0 {
        Some((s, seq![]))
    } else {
        match read_elements(data, s, base, (n - 1) as nat) {
            None => None,
            Some((s1, vs)) => match read_element(data, s1, base) {
                None => None,
                Some((s2, v)) => Some((s2, vs.push(v))),
            },
        }
    }
}

/// The objects of an array of `len` structures: object `k` has, for each
/// member `m`, element `k` of column `m` where that column is present.
pub open spec fn struct_objects(
    object_type: usize,
    member_count: nat,
    columns: Seq<Option<Seq<HavokValueView>>>,
    len: nat,
) -> Seq<ObjectView> {
    Seq::new(
        len,
        |k: int|
            ObjectView {
                object_type,
                data: Seq::new(
                    member_count,
                    |m: int|
                        match columns[m] {
                            Some(c) => Some(c[k]),
                            None => None,
                        },
                ),
            },
    )
}

/// `len` objects of type `object_type` with `member_count` empty slots.
pub open spec fn empty_objects(object_type: usize, member_count: nat, len: nat) -> Seq<ObjectView> {
    Seq::new(len, |k: int| ObjectView { object_type, data: Seq::new(member_count, |m: int| None) })
}

/// `objects` with those from position `first` on replaced by `new`, one for one.
pub open spec fn fill_objects(objects: Seq<ObjectView>, first: int, new: Seq<ObjectView>) -> Seq<ObjectView> {
    Seq::new(
        objects.len(),
        |i: int|
            if first <= i < first + new.len() {
                new[i - first]
            } else {
                objects[i]
            },
    )
}

/// An array of `len` values of the member's base type. An array of
/// structures names its type and a bit field says which members are present.
/// The structures become `len` new objects, added before anything the
/// columns add; then each present member follows as a whole column of `len`
/// values, which fill the objects' slots. The array holds the objects.
pub open spec fn read_array(data: Seq<u8>, s: ReadState, member: MemberView, len: nat) -> Option<
    (ReadState, Seq<HavokValueView>),
>
    decreases remaining(data, s), 0int, 0int,
{
    let base = member.type_.spec_base_bits();
    if base == TYPE_STRUCT {
        match member.class_name {
            None => None,
            Some(class_name) => match first_type_named(s.types, class_name, 0) {
                None => None,
                Some(ti) => {
                    let members = s.types[ti].members;
                    if members.len() > usize::MAX || ti > usize::MAX {
                        None
                    } else {
                        match read_bits(data, s, members.len() as usize) {
                            None => None,
                            Some((s1, exist)) => if exist.len() < members.len() {
                                None
                            } else {
                                let first = s1.objects.len();
                                let s1p = ReadState {
                                    objects: s1.objects + empty_objects(ti as usize, members.len(), len),
                                    ..s1
                                };
                                let columns = if members.len() == 0 {
                                    Some((s1p, Seq::<Option<Seq<HavokValueView>>>::empty()))
                                } else {
                                    read_columns(data, s1p, members, exist, len, 0)
                                };
                                match columns {
                                    None => None,
                                    Some((s2, cols)) => if s2.objects.len() < first + len {
                                        None
                                    } else {
                                        let objs = struct_objects(
                                            ti as usize,
                                            members.len(),
                                            cols,
                                            len,
                                        );
                                        Some(
                                            (
                                                ReadState {
                                                    objects: fill_objects(s2.objects, first as int, objs),
                                                    ..s2
                                                },
                                                Seq::new(
                                                    len,
                                                    |k: int|
                                                        HavokValueView::Object((first + k) as usize),
                                                ),
                                            ),
                                        )
                                    },
                                }
                            },
                        }
                    }
                },
            },
        }
    } else if base == TYPE_INT {
        let counted = if s.file_version >= 3 {
            match read_packed(data, s) {
                Some((s1, _)) => Some(s1),
                None => None,
            }
        } else {
            Some(s)
        };
        match counted {
            None => None,
            Some(s1) => read_elements(data, s1, base, len),
        }
    } else if is_element_base(base) {
        read_elements(data, s, base, len)
    } else {
        None
    }
}

/// The columns of the members from `i` on of an array of structures: a
/// column of `len` values for each present member, nothing for the others.
/// A present tuple member is not admitted.
pub open spec fn read_columns(
    data: Seq<u8>,
    s: ReadState,
    members: Seq<MemberView>,
    exist: Seq<bool>,
    len: nat,
    i: int,
) -> Option<(ReadState, Seq<Option<Seq<HavokValueView>>>)>
    decreases remaining(data, s), 1int, members.len() - i,
{
    if i < 0 || i >= members.len() {
        Some((s, seq![]))
    } else if !exist[i] {
        match read_columns(data, s, members, exist, len, i + 1) {
            None => None,
            Some((s2, cols)) => Some((s2, seq![None] + cols)),
        }
    } else if members[i].type_.spec_is_tuple() {
        None
    } else {
        match read_array(data, s, members[i], len) {
            None => None,
            Some((s1, col)) => if s1.cursor < s.cursor {
                None
            } else {
                match read_columns(data, s1, members, exist, len, i + 1) {
                    None => None,
                    Some((s2, cols)) => Some((s2, seq![Some(col)] + cols)),
                }
            },
        }
    }
}

/// The value of a member whose data is present.
pub open spec fn read_member_value(data: Seq<u8>, s: ReadState, member: MemberView) -> Option<
    (ReadState, HavokValueView),
> {
    let t = member.type_;
    if t.spec_is_array() {
        match read_packed(data, s) {
            None => None,
            Some((s1, len)) => if t.spec_base_bits() == TYPE_OBJECT && member.class_name is None {
                None
            } else if len < 0 {
                None
            } else {
                match read_array(data, s1, member, len as nat) {
                    None => None,
                    Some((s2, items)) => Some((s2, HavokValueView::Array(items))),
                }
            },
        }
    } else if t.spec_bits() == TYPE_BYTE {
        match read_byte(data, s) {
            Some((s1, v)) => Some((s1, HavokValueView::Integer(v as i32))),
            None => None,
        }
    } else if t.spec_bits() == TYPE_INT {
        match read_packed(data, s) {
            Some((s1, v)) => Some((s1, HavokValueView::Integer(v))),
            None => None,
        }
    } else if t.spec_bits() == TYPE_REAL {
        match read_float(data, s) {
            Some((s1, v)) => Some((s1, HavokValueView::Real(v))),
            None => None,
        }
    } else if t.spec_bits() == TYPE_STRING {
        match read_string(data, s) {
            Some((s1, v)) => Some((s1, HavokValueView::String(v))),
            None => None,
        }
    } else {
        None
    }
}

/// The value of a member whose data is absent: an empty array for array and
/// tuple types, zero for the integer types. A vector type has none.
pub open spec fn default_value(t: HavokValueType) -> Option<HavokValueView> {
    if t.spec_is_vec() {
        None
    } else if t.spec_is_array() || t.spec_is_tuple() {
        Some(HavokValueView::Array(seq![]))
    } else if t.spec_bits() == TYPE_EMPTY || t.spec_bits() == TYPE_BYTE || t.spec_bits() == TYPE_INT {
        Some(HavokValueView::Integer(0))
    } else {
        None
    }
}

/// The values of the first `n` members of a top-level object.
pub open spec fn read_object_values(
    data: Seq<u8>,
    s: ReadState,
    members: Seq<MemberView>,
    exist: Seq<bool>,
    n: nat,
) -> Option<(ReadState, Seq<HavokValueView>)>
    decreases n,
{
    if n == 0 {
        Some((s, seq![]))
    } else {
        match read_object_values(data, s, members, exist, (n - 1) as nat) {
            None => None,
            Some((s1, vs)) => {
                let m = members[n - 1];
                let r = if exist[n - 1] {
                    read_member_value(data, s1, m)
                } else {
                    match default_value(m.type_) {
                        Some(v) => Some((s1, v)),
                        None => None,
                    }
                };
                match r {
                    None => None,
                    Some((s2, v)) => Some((s2, vs.push(v))),
                }
            },
        }
    }
}

/// A top-level object: the position of its type, a bit field of present
/// members, then the value of each member.
pub open spec fn read_object(data: Seq<u8>, s: ReadState) -> Option<(ReadState, ObjectView)> {
    match read_packed(data, s) {
        None => None,
        Some((s1, ti)) => if ti < 0 || ti >= s1.types.len() {
            None
        } else {
            let members = s1.types[ti as int].members;
            if members.len() > usize::MAX {
                None
            } else {
                match read_bits(data, s1, members.len() as usize) {
                    None => None,
                    Some((s2, exist)) => if exist.len() < members.len() {
                        None
                    } else {
                        match read_object_values(data, s2, members, exist, members.len()) {
                            None => None,
                            Some((s3, vs)) => Some(
                                (
                                    s3,
                                    ObjectView {
                                        object_type: ti as usize,
                                        data: vs.map_values(|v: HavokValueView| Some(v)),
                                    },
                                ),
                            ),
                        }
                    },
                }
            }
        },
    }
}

/// The state after adding `o` to the objects and remembering it.
pub open spec fn remember(s: ReadState, o: ObjectView) -> ReadState {
    ReadState {
        remembered: s.remembered.push(s.objects.len() as usize),
        objects: s.objects.push(o),
        ..s
    }
}

/// The body of a record with the given tag.
pub open spec fn read_record_body(data: Seq<u8>, s: ReadState, tag: HavokTagType) -> Option<ReadState> {
    if tag == HavokTagType::FileInfo {
        match read_packed(data, s) {
            None => None,
            Some((s1, v)) => if v as u8 != SUPPORTED_VERSION {
                None
            } else {
                Some(
                    remember(
                        ReadState { file_version: v as u8, ..s1 },
                        ObjectView { object_type: 0, data: seq![] },
                    ),
                )
            },
        }
    } else if tag == HavokTagType::Type {
        match read_type_decl(data, s) {
            None => None,
            Some((s1, t)) => Some(ReadState { types: s1.types.push(t), ..s1 }),
        }
    } else if tag == HavokTagType::ObjectRemember {
        match read_object(data, s) {
            None => None,
            Some((s1, o)) => Some(remember(s1, o)),
        }
    } else {
        None
    }
}

/// The records from the cursor to the end-of-file record.
pub open spec fn read_records(data: Seq<u8>, s: ReadState) -> Option<ReadState>
    decreases remaining(data, s),
{
    match read_packed(data, s) {
        None => None,
        Some((s1, raw)) => {
            let tag = HavokTagType::spec_from_raw(raw as u8);
            if tag == HavokTagType::FileEnd {
                Some(s1)
            } else {
                match read_record_body(data, s1, tag) {
                    None => None,
                    Some(s2) => if 0 <= s.cursor < s2.cursor <= data.len() {
                        read_records(data, s2)
                    } else {
                        None
                    },
                }
            }
        },
    }
}

/// A value with each reference replaced by the remembered object it names.
pub open spec fn resolve_element(remembered: Seq<usize>, v: HavokValueView) -> Option<HavokValueView> {
    match v {
        HavokValueView::ObjectReference(x) => if x < remembered.len() {
            Some(HavokValueView::Object(remembered[x as int]))
        } else {
            None
        },
        _ => Some(v),
    }
}

/// A member value with its references resolved, those directly in an array included.
pub open spec fn resolve_value(remembered: Seq<usize>, v: HavokValueView) -> Option<HavokValueView> {
    match v {
        HavokValueView::Array(items) => if (forall|i: int|
            0 <= i < items.len() ==> #[trigger] resolve_element(remembered, items[i]) is Some) {
            Some(
                HavokValueView::Array(
                    Seq::new(items.len(), |i: int| resolve_element(remembered, items[i])->0),
                ),
            )
        } else {
            None
        },
        _ => resolve_element(remembered, v),
    }
}

pub open spec fn resolve_slot(remembered: Seq<usize>, v: Option<HavokValueView>) -> Option<
    Option<HavokValueView>,
> {
    match v {
        None => Some(None),
        Some(x) => match resolve_value(remembered, x) {
            Some(y) => Some(Some(y)),
            None => None,
        },
    }
}

/// An object with its references resolved.
pub open spec fn resolve_object(remembered: Seq<usize>, o: ObjectView) -> Option<ObjectView> {
    if forall|i: int| 0 <= i < o.data.len() ==> #[trigger] resolve_slot(remembered, o.data[i]) is Some {
        Some(
            ObjectView {
                object_type: o.object_type,
                data: Seq::new(o.data.len(), |i: int| resolve_slot(remembered, o.data[i])->0),
            },
        )
    } else {
        None
    }
}

/// All objects with their references resolved.
pub open spec fn resolve_objects(remembered: Seq<usize>, objects: Seq<ObjectView>) -> Option<
    Seq<ObjectView>,
> {
    if forall|i: int|
        0 <= i < objects.len() ==> #[trigger] resolve_object(remembered, objects[i]) is Some {
        Some(Seq::new(objects.len(), |i: int| resolve_object(remembered, objects[i])->0))
    } else {
        None
    }
}

/// A whole tag file: the two signature words, the records, then the
/// resolution of references; the root is the second remembered object.
pub open spec fn spec_read(data: Seq<u8>) -> Option<HavokTagFileView> {
    if data.len() >= 8 && spec_u32_le(data, 0) == SIGNATURE_1 && spec_u32_le(data, 4) == SIGNATURE_2 {
        match read_records(data, at(initial_state(), 8)) {
            None => None,
            Some(s) => match resolve_objects(s.remembered, s.objects) {
                None => None,
                Some(objects) => if s.remembered.len() > 1 {
                    Some(HavokTagFileView { types: s.types, objects, root: s.remembered[1] })
                } else {
                    None
                },
            },
        }
    } else {
        None
    }
}

} // verus!
