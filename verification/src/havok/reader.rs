//! Reads a Havok binary tag file into a [`HavokTagFile`].
use vstd::prelude::*;
use vstd::utf8::{decode_utf8, valid_utf8};

use super::format::{
    at, bit_at, default_value as spec_default_value, first_type_named, initial_state,
    is_element_base, packed_int, packed_tail, read_array, read_bits, read_byte, read_columns,
    read_element, read_elements, read_float, read_floats, read_member_decl, read_member_decls,
    read_member_value, read_object, read_object_values, read_packed, read_record_body,
    read_records, read_string, read_type_decl, empty_objects, fill_objects, resolve_element, resolve_object, resolve_objects,
    resolve_slot, resolve_value, signed_packed, spec_read, struct_objects, HavokTagFileView,
    ReadState, SIGNATURE_1, SIGNATURE_2, SUPPORTED_VERSION,
};
use super::object::{
    duplicate_members, lemma_view_array, view_members, view_slots, view_values, HavokObject,
    HavokObjectType, HavokObjectTypeMember, HavokValue, HavokValueView, MemberView, ObjectView,
    TypeView,
};
use super::types::{
    HavokTagType, HavokValueType, TYPE_BYTE, TYPE_EMPTY, TYPE_INT, TYPE_OBJECT, TYPE_REAL,
    TYPE_STRING, TYPE_STRUCT, TYPE_VEC16, TYPE_VEC4,
};
use crate::util::{read_u32_le, spec_u32_le};

verus! {

/// A decoded tag file: every type and object it declares; objects refer to
/// each other by their index in `objects`.
pub struct HavokTagFile {
    pub types: Vec<HavokObjectType>,
    pub objects: Vec<HavokObject>,
    pub root: usize,
}

impl View for HavokTagFile {
    type V = HavokTagFileView;

    open spec fn view(&self) -> HavokTagFileView {
        HavokTagFileView {
            types: self.types@.map_values(|t: HavokObjectType| t@),
            objects: self.objects@.map_values(|o: HavokObject| o@),
            root: self.root,
        }
    }
}

/// `std::str::from_utf8`, whose result is `Ok` exactly for well-formed UTF-8
/// and then holds the characters that the bytes encode.
#[verifier::external_body]
fn utf8_to_string(bytes: &[u8]) -> (r: Option<String>)
    ensures
        r is Some <==> valid_utf8(bytes@),
        r matches Some(s) ==> s@ == decode_utf8(bytes@),
{
    match std::str::from_utf8(bytes) {
        Ok(s) => Some(s.to_owned()),
        Err(_) => None,
    }
}

/// A reader over the bytes of one tag file.
pub struct HavokBinaryTagFileReader<'a> {
    file_version: u8,
    remembered_strings: Vec<String>,
    remembered_types: Vec<HavokObjectType>,
    remembered_objects: Vec<usize>,
    objects: Vec<HavokObject>,
    data: &'a [u8],
    cursor: usize,
}

/// `r` is the value `v` of a read that leads to `s`, or the read fails and `r` is `None`.
pub open spec fn outcome_of<T>(r: Option<T>, read: Option<(ReadState, T)>, after: ReadState) -> bool {
    match read {
        Some((s, v)) => r == Some(v) && after == s,
        None => r is None,
    }
}

impl<'a> HavokBinaryTagFileReader<'a> {
    /// Reads a whole tag file: its types, its objects and its root object.
    /// The bytes must be a tag file that the format admits.
    pub fn read(data: &'a [u8]) -> (r: HavokTagFile)
        requires
            spec_read(data@) is Some,
        ensures
            r@ == spec_read(data@)->0,
    {
        let mut reader = Self::new(data);
        let root = reader.do_read();
        HavokTagFile { types: reader.remembered_types, objects: reader.objects, root }
    }

    /// Reads a whole tag file, or gives `None` exactly when the bytes are not
    /// a tag file that the format admits.
    pub fn try_read(data: &'a [u8]) -> (r: Option<HavokTagFile>)
        ensures
            match spec_read(data@) {
                Some(f) => r matches Some(x) && x@ == f,
                None => r is None,
            },
    {
        let mut reader = Self::new(data);
        let root = reader.try_do_read()?;
        Some(HavokTagFile { types: reader.remembered_types, objects: reader.objects, root })
    }

    /// The reader's state, as the format states it.
    pub closed spec fn state(&self) -> ReadState {
        ReadState {
            file_version: self.file_version,
            strings: self.remembered_strings@.map_values(|s: String| s@),
            types: self.remembered_types@.map_values(|t: HavokObjectType| t@),
            remembered: self.remembered_objects@,
            objects: self.objects@.map_values(|o: HavokObject| o@),
            cursor: self.cursor as int,
        }
    }

    pub closed spec fn bytes(&self) -> Seq<u8> {
        self.data@
    }

    pub closed spec fn wf(&self) -> bool {
        self.cursor <= self.data@.len() <= usize::MAX
    }

    fn read_byte(&mut self) -> (r: u8)
        requires
            old(self).wf(),
            read_byte(old(self).bytes(), old(self).state()) is Some,
        ensures
            final(self).wf(),
            final(self).bytes() == old(self).bytes(),
            read_byte(old(self).bytes(), old(self).state()) == Some((final(self).state(), r)),
            final(self).state().cursor > old(self).state().cursor,
    {
        let result = self.data[self.cursor];
        self.cursor = self.cursor + 1;
        result
    }

    fn read_packed_int(&mut self) -> (r: i32)
        requires
            old(self).wf(),
            read_packed(old(self).bytes(), old(self).state()) is Some,
        ensures
            final(self).wf(),
            final(self).bytes() == old(self).bytes(),
            read_packed(old(self).bytes(), old(self).state()) == Some((final(self).state(), r)),
            final(self).state().cursor > old(self).state().cursor,
    {
        let ghost s0 = self.state();
        let ghost data = self.data@;
        let mut byte = self.read_byte();
        let mut result: u32 = ((byte & 0x7f) >> 1u8) as u32;
        let neg = byte & 1;
        let mut shift: u32 = 6;
        let ghost tail = if byte & 0x80 != 0 {
            packed_tail(data, s0.cursor + 1, result, 6)
        } else {
            Some((s0.cursor + 1, result))
        };
        assert(signed_packed(neg, tail) is Some);
        while byte & 0x80 != 0
            invariant
                self.wf(),
                self.data@ == data,
                self.state() == at(s0, self.cursor as int),
                self.cursor > s0.cursor,
                s0 == old(self).state(),
                data == old(self).bytes(),
                packed_int(data, s0.cursor) == signed_packed(neg, tail),
                signed_packed(neg, tail) is Some,
                shift <= 38,
                byte & 0x80 != 0 ==> tail == packed_tail(data, self.cursor as int, result, shift),
                byte & 0x80 == 0 ==> tail == Some((self.cursor as int, result)),
            decreases 40 - shift,
        {
            assert(0 <= self.cursor < data.len() && shift < 32);
            byte = self.read_byte();
            result = result | (((byte as u32) & 0xffff_ff7f) << shift);
            shift = shift + 7;
        }
        if neg == 1 {
            assert(result != 0x8000_0000u32 ==> (result as i32) != i32::MIN) by (bit_vector);
            -(#[verifier::truncate] (result as i32))
        } else {
            #[verifier::truncate] (result as i32)
        }
    }

    fn read_float(&mut self) -> (r: u32)
        requires
            old(self).wf(),
            read_float(old(self).bytes(), old(self).state()) is Some,
        ensures
            final(self).wf(),
            final(self).bytes() == old(self).bytes(),
            read_float(old(self).bytes(), old(self).state()) == Some((final(self).state(), r)),
            final(self).state().cursor > old(self).state().cursor,
    {
        let result = read_u32_le(self.data, self.cursor);
        self.cursor = self.cursor + 4;
        result
    }

    fn read_bit_field(&mut self, count: usize) -> (r: Vec<bool>)
        requires
            old(self).wf(),
            read_bits(old(self).bytes(), old(self).state(), count) is Some,
        ensures
            final(self).wf(),
            final(self).bytes() == old(self).bytes(),
            read_bits(old(self).bytes(), old(self).state(), count) == Some((final(self).state(), r@)),
            final(self).state().cursor >= old(self).state().cursor,
    {
        let bytes_to_read = ((count + 7) & 0xffff_fff8usize) / 8;
        let c7 = count + 7;
        assert(c7 & 0xffff_fff8usize <= c7) by (bit_vector);
        let start = self.cursor;
        let n = if count < 8 * bytes_to_read {
            count
        } else {
            8 * bytes_to_read
        };
        let ghost data = self.data@;
        let mut result: Vec<bool> = Vec::new();
        let mut i: usize = 0;
        while i < n
            invariant
                self.wf(),
                self.data@ == data,
                self.cursor == start,
                i <= n,
                n <= 8 * bytes_to_read,
                start + bytes_to_read <= data.len(),
                start + bytes_to_read <= usize::MAX,
                result@ =~= Seq::new(i as nat, |j: int| bit_at(data, start as int, j)),
            decreases n - i,
        {
            assert(i / 8 < bytes_to_read) by (nonlinear_arith)
                requires
                    i < n,
                    n <= 8 * bytes_to_read,
            ;
            let b = self.data[start + i / 8];
            let k: u8 = (i % 8) as u8;
            result.push((b >> k) & 1u8 == 1u8);
            i = i + 1;
        }
        self.cursor = start + bytes_to_read;
        result
    }

    fn read_string(&mut self) -> (r: String)
        requires
            old(self).wf(),
            read_string(old(self).bytes(), old(self).state()) is Some,
        ensures
            final(self).wf(),
            final(self).bytes() == old(self).bytes(),
            read_string(old(self).bytes(), old(self).state()) == Some((final(self).state(), r@)),
            final(self).state().cursor > old(self).state().cursor,
    {
        let length = self.read_packed_int();
        if length < 0 {
            let index = (-length) as usize;
            return self.remembered_strings[index].clone();
        }
        let len = length as usize;
        let end = self.cursor + len;
        let text = utf8_to_string(&self.data[self.cursor..end]).unwrap();
        let ghost old_strings = self.remembered_strings@;
        self.remembered_strings.push(text.clone());
        assert(self.remembered_strings@.map_values(|s: String| s@) =~= old_strings.map_values(
            |s: String| s@,
        ).push(text@));
        self.cursor = end;
        text
    }

    fn read_member_decl(&mut self) -> (r: HavokObjectTypeMember)
        requires
            old(self).wf(),
            read_member_decl(old(self).bytes(), old(self).state()) is Some,
        ensures
            final(self).wf(),
            final(self).bytes() == old(self).bytes(),
            read_member_decl(old(self).bytes(), old(self).state()) == Some((final(self).state(), r@)),
            final(self).state().cursor > old(self).state().cursor,
    {
        let member_name = self.read_string();
        let raw = self.read_packed_int();
        let bits = #[verifier::truncate] (raw as u32);
        let type_ = HavokValueType::from_bits(bits).unwrap();
        let tuple_size = if type_.is_tuple() {
            self.read_packed_int()
        } else {
            0
        };
        let base = type_.base_type();
        let class_name = if base.bits() == TYPE_OBJECT || base.bits() == TYPE_STRUCT {
            Some(self.read_string())
        } else {
            None
        };
        HavokObjectTypeMember::new(
            member_name,
            type_,
            #[verifier::truncate] (tuple_size as u32),
            class_name,
        )
    }

    fn read_type(&mut self) -> (r: HavokObjectType)
        requires
            old(self).wf(),
            read_type_decl(old(self).bytes(), old(self).state()) is Some,
        ensures
            final(self).wf(),
            final(self).bytes() == old(self).bytes(),
            read_type_decl(old(self).bytes(), old(self).state()) == Some((final(self).state(), r@)),
            final(self).state().cursor > old(self).state().cursor,
    {
        let ghost data = self.data@;
        let ghost s0 = self.state();
        let name = self.read_string();
        let _version = self.read_packed_int();
        let parent = self.read_packed_int();
        let member_count = self.read_packed_int();
        let parent_index = parent as usize;
        let mut members = duplicate_members(&self.remembered_types[parent_index].members);
        let count: usize = if member_count > 0 {
            member_count as usize
        } else {
            0
        };
        let ghost s4 = self.state();
        let ghost c4 = self.cursor;
        let ghost parent_members = view_members(members@);
        let ghost expected = match read_member_decls(data, s4, count as nat) {
            None => None,
            Some((s5, ms)) => Some(
                (
                    s5,
                    TypeView {
                        name: name@,
                        parent: Some(parent_index),
                        declared: ms,
                        members: parent_members + ms,
                    },
                ),
            ),
        };
        assert(read_type_decl(data, s0) == expected);
        assert(read_member_decls(data, s4, 0) == Some((s4, Seq::<MemberView>::empty())));
        let mut own: Vec<HavokObjectTypeMember> = Vec::new();
        let mut i: usize = 0;
        while i < count
            invariant
                self.wf(),
                self.data@ == data,
                i <= count,
                self.cursor >= c4,
                c4 > s0.cursor,
                data == old(self).bytes(),
                s0 == old(self).state(),
                read_type_decl(data, s0) == expected,
                expected is Some,
                expected == match read_member_decls(data, s4, count as nat) {
                    None => None,
                    Some((s5, ms)) => Some(
                        (
                            s5,
                            TypeView {
                                name: name@,
                                parent: Some(parent_index),
                                declared: ms,
                                members: parent_members + ms,
                            },
                        ),
                    ),
                },
                read_member_decls(data, s4, i as nat) == Some((self.state(), view_members(own@))),
            decreases count - i,
        {
            proof {
                lemma_member_decls_some(data, s4, (i + 1) as nat, count as nat);
            }
            let m = self.read_member_decl();
            let ghost prev = own@;
            own.push(m);
            assert(view_members(own@) =~= view_members(prev).push(m@));
            i = i + 1;
        }
        let declared = duplicate_members(&own);
        members.append(&mut own);
        assert(view_members(members@) =~= parent_members + read_member_decls(data, s4, count as nat).unwrap().1);
        HavokObjectType::new(name, Some(parent_index), declared, members)
    }

    /// The position of the first known type with the given name.
    fn find_type(&self, wanted: &String) -> (r: Option<usize>)
        ensures
            r matches Some(j) ==> first_type_named(self.state().types, wanted@, 0) == Some(j as int),
            r is None ==> first_type_named(self.state().types, wanted@, 0) is None,
    {
        let ghost types = self.state().types;
        let mut i: usize = 0;
        while i < self.remembered_types.len()
            invariant
                i <= types.len(),
                types == self.state().types,
                first_type_named(types, wanted@, 0) == first_type_named(types, wanted@, i as int),
            decreases types.len() - i,
        {
            if self.remembered_types[i].name == *wanted {
                return Some(i);
            }
            i = i + 1;
        }
        None
    }

    fn read_floats(&mut self, n: usize) -> (r: Vec<u32>)
        requires
            old(self).wf(),
            read_floats(old(self).bytes(), old(self).state(), n as nat) is Some,
        ensures
            final(self).wf(),
            final(self).bytes() == old(self).bytes(),
            read_floats(old(self).bytes(), old(self).state(), n as nat) == Some((final(self).state(), r@)),
            final(self).state().cursor >= old(self).state().cursor,
    {
        let ghost data = self.data@;
        let ghost s0 = self.state();
        let mut out: Vec<u32> = Vec::new();
        let mut i: usize = 0;
        while i < n
            invariant
                self.wf(),
                self.data@ == data,
                data == old(self).bytes(),
                s0 == old(self).state(),
                i <= n,
                self.cursor >= s0.cursor,
                read_floats(data, s0, n as nat) is Some,
                read_floats(data, s0, i as nat) == Some((self.state(), out@)),
            decreases n - i,
        {
            proof {
                lemma_floats_some(data, s0, (i + 1) as nat, n as nat);
            }
            let f = self.read_float();
            out.push(f);
            i = i + 1;
        }
        out
    }

    fn read_element(&mut self, base: u32) -> (r: HavokValue)
        requires
            old(self).wf(),
            is_element_base(base),
            read_element(old(self).bytes(), old(self).state(), base) is Some,
        ensures
            final(self).wf(),
            final(self).bytes() == old(self).bytes(),
            read_element(old(self).bytes(), old(self).state(), base) == Some((final(self).state(), r@)),
            final(self).state().cursor >= old(self).state().cursor,
    {
        if base == TYPE_STRING {
            HavokValue::String(self.read_string())
        } else if base == TYPE_OBJECT {
            let index = self.read_packed_int();
            HavokValue::ObjectReference(#[verifier::truncate] (index as usize))
        } else if base == TYPE_BYTE {
            let b = self.read_byte();
            HavokValue::Integer(b as i32)
        } else if base == TYPE_INT {
            HavokValue::Integer(self.read_packed_int())
        } else if base == TYPE_REAL {
            HavokValue::Real(self.read_float())
        } else {
            let size = (4 * (base - TYPE_VEC4 + 1)) as usize;
            HavokValue::Vec(self.read_floats(size))
        }
    }

    fn read_elements(&mut self, base: u32, n: usize) -> (r: Vec<HavokValue>)
        requires
            old(self).wf(),
            is_element_base(base),
            read_elements(old(self).bytes(), old(self).state(), base, n as nat) is Some,
        ensures
            final(self).wf(),
            final(self).bytes() == old(self).bytes(),
            read_elements(old(self).bytes(), old(self).state(), base, n as nat) == Some(
                (final(self).state(), view_values(r@)),
            ),
            r@.len() == n,
            final(self).state().cursor >= old(self).state().cursor,
    {
        let ghost data = self.data@;
        let ghost s0 = self.state();
        let mut out: Vec<HavokValue> = Vec::new();
        let mut i: usize = 0;
        while i < n
            invariant
                self.wf(),
                self.data@ == data,
                data == old(self).bytes(),
                s0 == old(self).state(),
                is_element_base(base),
                i <= n,
                out@.len() == i,
                self.cursor >= s0.cursor,
                read_elements(data, s0, base, n as nat) is Some,
                read_elements(data, s0, base, i as nat) == Some((self.state(), view_values(out@))),
            decreases n - i,
        {
            proof {
                lemma_elements_some(data, s0, base, (i + 1) as nat, n as nat);
            }
            let v = self.read_element(base);
            let ghost prev = out@;
            out.push(v);
            assert(view_values(out@) =~= view_values(prev).push(v@));
            i = i + 1;
        }
        out
    }

    /// An array of `len` values of the member's base type.
    fn read_array(&mut self, member: &HavokObjectTypeMember, len: usize) -> (r: Vec<HavokValue>)
        requires
            old(self).wf(),
            read_array(old(self).bytes(), old(self).state(), member@, len as nat) is Some,
        ensures
            final(self).wf(),
            final(self).bytes() == old(self).bytes(),
            read_array(old(self).bytes(), old(self).state(), member@, len as nat) == Some(
                (final(self).state(), view_values(r@)),
            ),
            r@.len() == len,
            final(self).state().cursor >= old(self).state().cursor,
        decreases old(self).bytes().len() - old(self).state().cursor,
    {
        let ghost data = self.data@;
        let ghost s0 = self.state();
        let base = member.type_.base_type().bits();
        if base == TYPE_STRUCT {
            let class_name = member.class_name.as_ref().unwrap();
            let found = self.find_type(class_name);
            proof {
                lemma_first_type_named(s0.types, class_name@, 0);
            }
            let ti = found.unwrap();
            let target_members = duplicate_members(&self.remembered_types[ti].members);
            let ghost members = view_members(target_members@);
            assert(members == s0.types[ti as int].members);
            let n = target_members.len();
            let exist = self.read_bit_field(n);
            let ghost s1 = self.state();
            let ghost c1 = self.cursor;
            let ghost spec_result = read_array(data, s0, member@, len as nat);
            let first = self.objects.len();
            let ghost empties = empty_objects(ti, n as nat, len as nat);
            let mut e: usize = 0;
            while e < len
                invariant
                    self.wf(),
                    self.data@ == data,
                    self.cursor == c1,
                    first == s1.objects.len(),
                    e <= len,
                    empties == empty_objects(ti, n as nat, len as nat),
                    self.state() == (ReadState { objects: s1.objects + empties.take(e as int), ..s1 }),
                decreases len - e,
            {
                let mut slots: Vec<Option<HavokValue>> = Vec::new();
                let mut m: usize = 0;
                while m < n
                    invariant
                        m <= n,
                        view_slots(slots@) =~= Seq::new(m as nat, |q: int| None::<HavokValueView>),
                    decreases n - m,
                {
                    let ghost prev = slots@;
                    slots.push(None);
                    assert(view_slots(slots@) =~= view_slots(prev).push(None));
                    m = m + 1;
                }
                let object = HavokObject::new(ti, slots);
                let ghost objv = object@;
                let ghost prev_objects = self.objects@;
                self.objects.push(object);
                assert(objv == empties[e as int]);
                assert(self.objects@.map_values(|o: HavokObject| o@) =~= s1.objects + empties.take(e + 1)) by {
                    assert(empties.take(e + 1) =~= empties.take(e as int).push(empties[e as int]));
                    assert(self.objects@.map_values(|o: HavokObject| o@) =~= prev_objects.map_values(|o: HavokObject| o@).push(objv));
                }
                e = e + 1;
            }
            assert(empties.take(len as int) =~= empties);
            let ghost s1p = self.state();
            let mut columns: Vec<Option<Vec<HavokValue>>> = Vec::new();
            let ghost total = if n == 0 {
                Some((s1p, Seq::<Option<Seq<HavokValueView>>>::empty()))
            } else {
                read_columns(data, s1p, members, exist@, len as nat, 0)
            };
            assert(spec_result == finish_struct_array(total, ti, first as int, n as nat, len as nat));
            if n > 0 {
                let mut i: usize = 0;
                while i < n
                    invariant
                        self.wf(),
                        self.data@ == data,
                        data == old(self).bytes(),
                        s0 == old(self).state(),
                        n == target_members@.len(),
                        members == view_members(target_members@),
                        exist@.len() >= n,
                        n > 0,
                        i <= n,
                        c1 > s0.cursor,
                        self.cursor >= c1,
                        spec_result == read_array(data, s0, member@, len as nat),
                        spec_result == finish_struct_array(total, ti, first as int, n as nat, len as nat),
                        spec_result is Some,
                        columns@.len() == i,
                        forall|m: int| 0 <= m < i ==> ((#[trigger] columns@[m]) matches Some(c) ==> c@.len() == len),
                        total == read_columns(data, s1p, members, exist@, len as nat, 0),
                        total == prepend_columns(
                            view_columns(columns@),
                            read_columns(data, self.state(), members, exist@, len as nat, i as int),
                        ),
                    decreases n - i,
                {
                    let ghost cur = self.state();
                    let ghost prev = columns@;
                    if !exist[i] {
                        columns.push(None);
                        assert(view_columns(columns@) =~= view_columns(prev).push(None));
                        proof {
                            lemma_prepend_columns(view_columns(prev), None, read_columns(data, cur, members, exist@, len as nat, i + 1));
                        }
                    } else {
                        assert(target_members@[i as int]@ == members[i as int]);
                        assert(read_columns(data, cur, members, exist@, len as nat, i as int) is Some);
                        let col = self.read_array(&target_members[i], len);
                        let ghost colv = view_values(col@);
                        columns.push(Some(col));
                        assert(view_columns(columns@) =~= view_columns(prev).push(Some(colv)));
                        proof {
                            lemma_prepend_columns(view_columns(prev), Some(colv), read_columns(data, self.state(), members, exist@, len as nat, i + 1));
                        }
                    }
                    i = i + 1;
                }
            }
            let ghost s2 = self.state();
            let ghost cols = view_columns(columns@);
            assert(total == Some((s2, cols))) by {
                if n > 0 {
                    assert(cols + Seq::<Option<Seq<HavokValueView>>>::empty() =~= cols);
                } else {
                    assert(cols =~= Seq::<Option<Seq<HavokValueView>>>::empty());
                }
            }
            let ghost objs = struct_objects(ti, n as nat, cols, len as nat);
            assert(fill_objects(s2.objects, first as int, objs.take(0)) =~= s2.objects);
            let mut values: Vec<HavokValue> = Vec::new();
            let mut k: usize = 0;
            while k < len
                invariant
                    self.wf(),
                    self.data@ == data,
                    data == old(self).bytes(),
                    s0 == old(self).state(),
                    k <= len,
                    objs == struct_objects(ti, n as nat, cols, len as nat),
                    spec_result == read_array(data, s0, member@, len as nat),
                    spec_result == finish_struct_array(Some((s2, cols)), ti, first as int, n as nat, len as nat),
                    spec_result is Some,
                    n == columns@.len(),
                    cols == view_columns(columns@),
                    forall|m: int| 0 <= m < n ==> ((#[trigger] columns@[m]) matches Some(c) ==> c@.len() == len),
                    first + len <= s2.objects.len(),
                    self.objects@.len() == s2.objects.len(),
                    self.state() == (ReadState { objects: fill_objects(s2.objects, first as int, objs.take(k as int)), ..s2 }),
                    values@.len() == k,
                    view_values(values@) =~= Seq::new(k as nat, |j: int| HavokValueView::Object((first + j) as usize)),
                decreases len - k,
            {
                let mut slots: Vec<Option<HavokValue>> = Vec::new();
                let mut m: usize = 0;
                while m < n
                    invariant
                        k < len,
                        m <= n,
                        objs == struct_objects(ti, n as nat, cols, len as nat),
                        n == columns@.len(),
                        cols == view_columns(columns@),
                        forall|q: int| 0 <= q < n ==> ((#[trigger] columns@[q]) matches Some(c) ==> c@.len() == len),
                        slots@.len() == m,
                        forall|q: int| 0 <= q < m ==> #[trigger] view_slots(slots@)[q] == objs[k as int].data[q],
                    decreases n - m,
                {
                    let ghost prev = slots@;
                    match &columns[m] {
                        Some(c) => {
                            let v = c[k].duplicate();
                            slots.push(Some(v));
                            assert(cols[m as int] == Some(view_values(c@)));
                            assert(view_values(c@)[k as int] == c@[k as int]@);
                        },
                        None => {
                            slots.push(None);
                            assert(cols[m as int] is None);
                        },
                    }
                    assert(view_slots(slots@)[m as int] == objs[k as int].data[m as int]);
                    assert forall|q: int| 0 <= q < m + 1 implies #[trigger] view_slots(slots@)[q] == objs[k as int].data[q] by {
                        if q < m {
                            assert(slots@[q] == prev[q]);
                            assert(view_slots(prev)[q] == objs[k as int].data[q]);
                        }
                    }
                    m = m + 1;
                }
                assert(view_slots(slots@) =~= objs[k as int].data);
                let ghost prev_objects = self.objects@;
                let object = HavokObject::new(ti, slots);
                let ghost objv = object@;
                let total_objects = self.objects.len();
                assert(first + k < total_objects);
                let ghost before = fill_objects(s2.objects, first as int, objs.take(k as int));
                assert(prev_objects.map_values(|o: HavokObject| o@) == before);
                self.objects.set(first + k, object);
                assert(objv == objs[k as int]);
                let ghost after = fill_objects(s2.objects, first as int, objs.take(k + 1));
                let ghost now = self.objects@.map_values(|o: HavokObject| o@);
                assert forall|i: int| 0 <= i < after.len() implies #[trigger] now[i] == after[i] by {
                    if i != first + k {
                        assert(self.objects@[i] == prev_objects[i]);
                        assert(before[i] == after[i]);
                    }
                }
                assert(now =~= after);
                let ghost prev_values = values@;
                values.push(HavokValue::Object(first + k));
                assert(view_values(values@) =~= view_values(prev_values).push(HavokValueView::Object((first + k) as usize)));
                k = k + 1;
            }
            assert(objs.take(len as int) =~= objs);
            values
        } else if base == TYPE_INT {
            if self.file_version >= 3 {
                self.read_packed_int();
            }
            self.read_elements(base, len)
        } else {
            self.read_elements(base, len)
        }
    }

    /// The value of a member whose data is present.
    fn read_object_member_value(&mut self, member: &HavokObjectTypeMember) -> (r: HavokValue)
        requires
            old(self).wf(),
            read_member_value(old(self).bytes(), old(self).state(), member@) is Some,
        ensures
            final(self).wf(),
            final(self).bytes() == old(self).bytes(),
            read_member_value(old(self).bytes(), old(self).state(), member@) == Some(
                (final(self).state(), r@),
            ),
            final(self).state().cursor >= old(self).state().cursor,
    {
        if member.type_.is_array() {
            let array_len = self.read_packed_int();
            let items = self.read_array(member, array_len as usize);
            proof {
                lemma_view_array(items);
            }
            HavokValue::Array(items)
        } else {
            let bits = member.type_.bits();
            if bits == TYPE_BYTE {
                let b = self.read_byte();
                HavokValue::Integer(b as i32)
            } else if bits == TYPE_INT {
                HavokValue::Integer(self.read_packed_int())
            } else if bits == TYPE_REAL {
                HavokValue::Real(self.read_float())
            } else {
                HavokValue::String(self.read_string())
            }
        }
    }

    /// A top-level object.
    fn read_object_top_level(&mut self) -> (r: HavokObject)
        requires
            old(self).wf(),
            read_object(old(self).bytes(), old(self).state()) is Some,
        ensures
            final(self).wf(),
            final(self).bytes() == old(self).bytes(),
            read_object(old(self).bytes(), old(self).state()) == Some((final(self).state(), r@)),
            final(self).state().cursor >= old(self).state().cursor,
    {
        let ghost data = self.data@;
        let ghost s0 = self.state();
        let object_type_index = self.read_packed_int();
        let ti = object_type_index as usize;
        let members = duplicate_members(&self.remembered_types[ti].members);
        let ghost mv = view_members(members@);
        let n = members.len();
        let data_existence = self.read_bit_field(n);
        let ghost s2 = self.state();
        let ghost spec_result = read_object(data, s0);
        let ghost values_spec = read_object_values(data, s2, mv, data_existence@, n as nat);
        assert(spec_result == match values_spec {
            None => None,
            Some((s3, vs)) => Some(
                (s3, ObjectView { object_type: ti, data: vs.map_values(|v: HavokValueView| Some(v)) }),
            ),
        });
        let ghost mut vs: Seq<HavokValueView> = Seq::empty();
        let mut slots: Vec<Option<HavokValue>> = Vec::new();
        let mut i: usize = 0;
        while i < n
            invariant
                self.wf(),
                self.data@ == data,
                data == old(self).bytes(),
                s0 == old(self).state(),
                n == members@.len(),
                mv == view_members(members@),
                data_existence@.len() >= n,
                i <= n,
                self.cursor >= s2.cursor,
                s2.cursor >= s0.cursor,
                values_spec == read_object_values(data, s2, mv, data_existence@, n as nat),
                values_spec is Some,
                spec_result == read_object(data, s0),
                spec_result == match values_spec {
                    None => None,
                    Some((s3, vs)) => Some(
                        (s3, ObjectView { object_type: ti, data: vs.map_values(|v: HavokValueView| Some(v)) }),
                    ),
                },
                read_object_values(data, s2, mv, data_existence@, i as nat) == Some((self.state(), vs)),
                view_slots(slots@) =~= vs.map_values(|v: HavokValueView| Some(v)),
            decreases n - i,
        {
            proof {
                lemma_object_values_some(data, s2, mv, data_existence@, (i + 1) as nat, n as nat);
                assert(mv[i as int] == members@[i as int]@);
            }
            let v = if data_existence[i] {
                self.read_object_member_value(&members[i])
            } else {
                default_value(members[i].type_)
            };
            proof {
                vs = vs.push(v@);
            }
            let ghost prev = slots@;
            slots.push(Some(v));
            assert(view_slots(slots@) =~= view_slots(prev).push(Some(v@)));
            i = i + 1;
        }
        HavokObject::new(ti, slots)
    }

    /// A reader at the start of `data`, knowing only the built-in strings and type.
    fn new(data: &'a [u8]) -> (r: Self)
        ensures
            r.wf(),
            r.bytes() == data@,
            r.state() == initial_state(),
    {
        let mut remembered_strings: Vec<String> = Vec::new();
        remembered_strings.push("string".to_owned());
        remembered_strings.push("".to_owned());
        let mut remembered_types: Vec<HavokObjectType> = Vec::new();
        remembered_types.push(HavokObjectType::new("object".to_owned(), None, Vec::new(), Vec::new()));
        let size = data.len();
        assert(data@.len() == size);
        let r = HavokBinaryTagFileReader {
            file_version: 0,
            remembered_strings,
            remembered_types,
            remembered_objects: Vec::new(),
            objects: Vec::new(),
            data,
            cursor: 0,
        };
        assert(r.state().strings =~= initial_state().strings);
        assert(r.state().types[0].members =~= Seq::<MemberView>::empty());
        assert(r.state().types[0].declared =~= Seq::<MemberView>::empty());
        assert(r.state().types =~= initial_state().types);
        assert(r.state().objects =~= initial_state().objects);
        assert(r.state().remembered =~= initial_state().remembered);
        r
    }

    /// The value with each reference replaced by the remembered object it names.
    fn resolve_element(&self, v: &HavokValue) -> (r: HavokValue)
        requires
            resolve_element(self.state().remembered, v@) is Some,
        ensures
            r@ == resolve_element(self.state().remembered, v@)->0,
    {
        match v {
            HavokValue::ObjectReference(x) => HavokValue::Object(self.remembered_objects[*x]),
            _ => v.duplicate(),
        }
    }

    fn resolve_value(&self, v: &HavokValue) -> (r: HavokValue)
        requires
            resolve_value(self.state().remembered, v@) is Some,
        ensures
            r@ == resolve_value(self.state().remembered, v@)->0,
    {
        let ghost remembered = self.state().remembered;
        match v {
            HavokValue::Array(items) => {
                proof {
                    lemma_view_array(*items);
                }
                let ghost iv = view_values(items@);
                let mut out: Vec<HavokValue> = Vec::new();
                let mut i: usize = 0;
                while i < items.len()
                    invariant
                        remembered == self.state().remembered,
                        iv == view_values(items@),
                        v@ == HavokValueView::Array(iv),
                        resolve_value(remembered, v@) is Some,
                        i <= items@.len(),
                        out@.len() == i,
                        forall|j: int| 0 <= j < i ==> (#[trigger] out@[j])@ == resolve_element(remembered, iv[j])->0,
                    decreases items@.len() - i,
                {
                    assert(resolve_element(remembered, iv[i as int]) is Some);
                    let x = self.resolve_element(&items[i]);
                    out.push(x);
                    i = i + 1;
                }
                proof {
                    lemma_view_array(out);
                    assert(view_values(out@) =~= Seq::new(iv.len(), |j: int| resolve_element(remembered, iv[j])->0));
                }
                HavokValue::Array(out)
            },
            _ => self.resolve_element(v),
        }
    }

    /// Every object with its references resolved.
    fn resolve_all(&self) -> (r: Vec<HavokObject>)
        requires
            resolve_objects(self.state().remembered, self.state().objects) is Some,
        ensures
            r@.map_values(|o: HavokObject| o@) == resolve_objects(self.state().remembered, self.state().objects)->0,
    {
        let ghost remembered = self.state().remembered;
        let ghost objects = self.state().objects;
        let mut out: Vec<HavokObject> = Vec::new();
        let mut i: usize = 0;
        while i < self.objects.len()
            invariant
                remembered == self.state().remembered,
                objects == self.state().objects,
                resolve_objects(remembered, objects) is Some,
                i <= objects.len(),
                out@.len() == i,
                forall|j: int| 0 <= j < i ==> (#[trigger] out@[j])@ == resolve_object(remembered, objects[j])->0,
            decreases objects.len() - i,
        {
            assert(self.objects@[i as int]@ == objects[i as int]);
            assert(resolve_object(remembered, objects[i as int]) is Some);
            let resolved = self.fill_object_reference(&self.objects[i]);
            out.push(resolved);
            i = i + 1;
        }
        assert(out@.map_values(|o: HavokObject| o@) =~= resolve_objects(remembered, objects)->0);
        out
    }

    /// The object with each reference in its member values replaced by the
    /// remembered object it names.
    fn fill_object_reference(&self, object: &HavokObject) -> (r: HavokObject)
        requires
            resolve_object(self.state().remembered, object@) is Some,
        ensures
            r@ == resolve_object(self.state().remembered, object@)->0,
    {
        let ghost remembered = self.state().remembered;
        let ghost ov = object@;
        let mut slots: Vec<Option<HavokValue>> = Vec::new();
        let mut k: usize = 0;
        while k < object.data.len()
            invariant
                remembered == self.state().remembered,
                ov == object@,
                resolve_object(remembered, ov) is Some,
                k <= ov.data.len(),
                slots@.len() == k,
                forall|j: int| 0 <= j < k ==> #[trigger] view_slots(slots@)[j] == resolve_slot(remembered, ov.data[j])->0,
            decreases ov.data.len() - k,
        {
            let ghost prev = slots@;
            assert(resolve_slot(remembered, ov.data[k as int]) is Some);
            match &object.data[k] {
                Some(v) => {
                    let x = self.resolve_value(v);
                    slots.push(Some(x));
                },
                None => {
                    slots.push(None);
                },
            }
            assert forall|j: int| 0 <= j < k + 1 implies #[trigger] view_slots(slots@)[j] == resolve_slot(remembered, ov.data[j])->0 by {
                if j < k {
                    assert(slots@[j] == prev[j]);
                    assert(view_slots(prev)[j] == resolve_slot(remembered, ov.data[j])->0);
                }
            }
            k = k + 1;
        }
        let resolved = HavokObject::new(object.object_type, slots);
        assert(resolved@.data =~= resolve_object(remembered, ov)->0.data);
        resolved
    }

    /// The body of a record with the given tag.
    fn read_record(&mut self, tag: HavokTagType)
        requires
            old(self).wf(),
            read_record_body(old(self).bytes(), old(self).state(), tag) is Some,
        ensures
            final(self).wf(),
            final(self).bytes() == old(self).bytes(),
            read_record_body(old(self).bytes(), old(self).state(), tag) == Some(final(self).state()),
            final(self).state().cursor >= old(self).state().cursor,
    {
        match tag {
            HavokTagType::FileInfo => {
                let version = self.read_packed_int();
                self.file_version = #[verifier::truncate] (version as u8);
                let index = self.objects.len();
                let object = HavokObject::new(0, Vec::new());
                let ghost objv = object@;
                assert(objv.data =~= Seq::<Option<HavokValueView>>::empty());
                let ghost prev = self.objects@;
                self.objects.push(object);
                self.remembered_objects.push(index);
                assert(self.objects@.map_values(|o: HavokObject| o@) =~= prev.map_values(
                    |o: HavokObject| o@,
                ).push(objv));
            },
            HavokTagType::Type => {
                let object_type = self.read_type();
                let ghost tv = object_type@;
                let ghost prev = self.remembered_types@;
                self.remembered_types.push(object_type);
                assert(self.remembered_types@.map_values(|t: HavokObjectType| t@) =~= prev.map_values(
                    |t: HavokObjectType| t@,
                ).push(tv));
            },
            HavokTagType::ObjectRemember => {
                let object = self.read_object_top_level();
                let ghost objv = object@;
                let index = self.objects.len();
                let ghost prev = self.objects@;
                self.objects.push(object);
                self.remembered_objects.push(index);
                assert(self.objects@.map_values(|o: HavokObject| o@) =~= prev.map_values(
                    |o: HavokObject| o@,
                ).push(objv));
            },
            _ => {
                assert(false);
            },
        }
    }

    /// Reads the records and resolves references; the root's index.
    fn do_read(&mut self) -> (r: usize)
        requires
            old(self).wf(),
            old(self).state() == initial_state(),
            spec_read(old(self).bytes()) is Some,
        ensures
            final(self).wf(),
            r == spec_read(old(self).bytes())->0.root,
            spec_read(old(self).bytes())->0.types == final(self).state().types,
            spec_read(old(self).bytes())->0.objects == final(self).state().objects,
    {
        let ghost data = self.data@;
        self.cursor = 8;
        let ghost expected = read_records(data, at(initial_state(), 8));
        assert(self.state() == at(initial_state(), 8));
        loop
            invariant_except_break
                read_records(data, self.state()) == expected,
            invariant
                self.wf(),
                self.data@ == data,
                data == old(self).bytes(),
                expected == read_records(data, at(initial_state(), 8)),
                expected is Some,
                spec_read(data) is Some,
                data.len() >= 8,
            ensures
                expected == Some(self.state()),
            decreases self.data@.len() - self.cursor,
        {
            let raw = self.read_packed_int();
            let tag = HavokTagType::from_raw(#[verifier::truncate] (raw as u8));
            if tag == HavokTagType::FileEnd {
                break;
            }
            self.read_record(tag);
        }
        let objects = self.resolve_all();
        let root = self.remembered_objects[1];
        self.objects = objects;
        root
    }

    fn try_read_byte(&mut self) -> (r: Option<u8>)
        requires
            old(self).wf(),
        ensures
            final(self).wf(),
            final(self).bytes() == old(self).bytes(),
            outcome_of(r, read_byte(old(self).bytes(), old(self).state()), final(self).state()),
            r is Some ==> final(self).state().cursor > old(self).state().cursor,
    {
        if self.cursor >= self.data.len() {
            return None;
        }
        let result = self.data[self.cursor];
        self.cursor = self.cursor + 1;
        Some(result)
    }

    fn try_read_packed_int(&mut self) -> (r: Option<i32>)
        requires
            old(self).wf(),
        ensures
            final(self).wf(),
            final(self).bytes() == old(self).bytes(),
            outcome_of(r, read_packed(old(self).bytes(), old(self).state()), final(self).state()),
            r is Some ==> final(self).state().cursor > old(self).state().cursor,
    {
        let ghost s0 = self.state();
        let ghost data = self.data@;
        let mut byte = self.try_read_byte()?;
        let mut result: u32 = ((byte & 0x7f) >> 1u8) as u32;
        let neg = byte & 1;
        let mut shift: u32 = 6;
        let ghost tail = if byte & 0x80 != 0 {
            packed_tail(data, s0.cursor + 1, result, 6)
        } else {
            Some((s0.cursor + 1, result))
        };
        while byte & 0x80 != 0
            invariant
                self.wf(),
                self.data@ == data,
                self.state() == at(s0, self.cursor as int),
                self.cursor > s0.cursor,
                s0 == old(self).state(),
                data == old(self).bytes(),
                packed_int(data, s0.cursor) == signed_packed(neg, tail),
                shift <= 38,
                byte & 0x80 != 0 ==> tail == packed_tail(data, self.cursor as int, result, shift),
                byte & 0x80 == 0 ==> tail == Some((self.cursor as int, result)),
            decreases 40 - shift,
        {
            byte = self.try_read_byte()?;
            if shift >= 32 {
                return None;
            }
            result = result | (((byte as u32) & 0xffff_ff7f) << shift);
            shift = shift + 7;
        }
        if neg == 1 {
            if result == 0x8000_0000u32 {
                return None;
            }
            assert(result != 0x8000_0000u32 ==> (result as i32) != i32::MIN) by (bit_vector);
            Some(-(#[verifier::truncate] (result as i32)))
        } else {
            Some(#[verifier::truncate] (result as i32))
        }
    }

    fn try_read_float(&mut self) -> (r: Option<u32>)
        requires
            old(self).wf(),
        ensures
            final(self).wf(),
            final(self).bytes() == old(self).bytes(),
            outcome_of(r, read_float(old(self).bytes(), old(self).state()), final(self).state()),
            r is Some ==> final(self).state().cursor > old(self).state().cursor,
    {
        if self.data.len() - self.cursor < 4 {
            return None;
        }
        let result = read_u32_le(self.data, self.cursor);
        self.cursor = self.cursor + 4;
        Some(result)
    }

    fn try_read_bit_field(&mut self, count: usize) -> (r: Option<Vec<bool>>)
        requires
            old(self).wf(),
        ensures
            final(self).wf(),
            final(self).bytes() == old(self).bytes(),
            match read_bits(old(self).bytes(), old(self).state(), count) {
                Some((s, v)) => r matches Some(x) && x@ == v && final(self).state() == s,
                None => r is None,
            },
            r is Some ==> final(self).state().cursor >= old(self).state().cursor,
    {
        if count > usize::MAX - 7 {
            return None;
        }
        let bytes_to_read = ((count + 7) & 0xffff_fff8usize) / 8;
        if bytes_to_read > self.data.len() - self.cursor {
            return None;
        }
        let c7 = count + 7;
        assert(c7 & 0xffff_fff8usize <= c7) by (bit_vector);
        let start = self.cursor;
        let n = if count < 8 * bytes_to_read {
            count
        } else {
            8 * bytes_to_read
        };
        let ghost data = self.data@;
        let mut result: Vec<bool> = Vec::new();
        let mut i: usize = 0;
        while i < n
            invariant
                self.wf(),
                self.data@ == data,
                self.cursor == start,
                i <= n,
                n <= 8 * bytes_to_read,
                start + bytes_to_read <= data.len(),
                start + bytes_to_read <= usize::MAX,
                result@ =~= Seq::new(i as nat, |j: int| bit_at(data, start as int, j)),
            decreases n - i,
        {
            assert(i / 8 < bytes_to_read) by (nonlinear_arith)
                requires
                    i < n,
                    n <= 8 * bytes_to_read,
            ;
            let b = self.data[start + i / 8];
            let k: u8 = (i % 8) as u8;
            result.push((b >> k) & 1u8 == 1u8);
            i = i + 1;
        }
        self.cursor = start + bytes_to_read;
        Some(result)
    }

    fn try_read_string(&mut self) -> (r: Option<String>)
        requires
            old(self).wf(),
        ensures
            final(self).wf(),
            final(self).bytes() == old(self).bytes(),
            match read_string(old(self).bytes(), old(self).state()) {
                Some((s, v)) => r matches Some(x) && x@ == v && final(self).state() == s,
                None => r is None,
            },
            r is Some ==> final(self).state().cursor > old(self).state().cursor,
    {
        let length = self.try_read_packed_int()?;
        if length < 0 {
            if length == i32::MIN {
                return None;
            }
            let index = (-length) as usize;
            if index >= self.remembered_strings.len() {
                return None;
            }
            return Some(self.remembered_strings[index].clone());
        }
        let len = length as usize;
        if len > self.data.len() - self.cursor {
            return None;
        }
        let end = self.cursor + len;
        let text = match utf8_to_string(&self.data[self.cursor..end]) {
            Some(t) => t,
            None => return None,
        };
        let ghost old_strings = self.remembered_strings@;
        self.remembered_strings.push(text.clone());
        assert(self.remembered_strings@.map_values(|s: String| s@) =~= old_strings.map_values(
            |s: String| s@,
        ).push(text@));
        self.cursor = end;
        Some(text)
    }

    fn try_read_member_decl(&mut self) -> (r: Option<HavokObjectTypeMember>)
        requires
            old(self).wf(),
        ensures
            final(self).wf(),
            final(self).bytes() == old(self).bytes(),
            match read_member_decl(old(self).bytes(), old(self).state()) {
                Some((s, v)) => r matches Some(x) && x@ == v && final(self).state() == s,
                None => r is None,
            },
            r is Some ==> final(self).state().cursor > old(self).state().cursor,
    {
        let member_name = self.try_read_string()?;
        let raw = self.try_read_packed_int()?;
        let bits = #[verifier::truncate] (raw as u32);
        let type_ = match HavokValueType::from_bits(bits) {
            Some(t) => t,
            None => return None,
        };
        let tuple_size = if type_.is_tuple() {
            self.try_read_packed_int()?
        } else {
            0
        };
        let base = type_.base_type();
        let class_name = if base.bits() == TYPE_OBJECT || base.bits() == TYPE_STRUCT {
            Some(self.try_read_string()?)
        } else {
            None
        };
        Some(
            HavokObjectTypeMember::new(
                member_name,
                type_,
                #[verifier::truncate] (tuple_size as u32),
                class_name,
            ),
        )
    }

    fn try_read_type(&mut self) -> (r: Option<HavokObjectType>)
        requires
            old(self).wf(),
        ensures
            final(self).wf(),
            final(self).bytes() == old(self).bytes(),
            match read_type_decl(old(self).bytes(), old(self).state()) {
                Some((s, v)) => r matches Some(x) && x@ == v && final(self).state() == s,
                None => r is None,
            },
            r is Some ==> final(self).state().cursor > old(self).state().cursor,
    {
        let ghost data = self.data@;
        let ghost s0 = self.state();
        let name = self.try_read_string()?;
        let _version = self.try_read_packed_int()?;
        let parent = self.try_read_packed_int()?;
        let member_count = self.try_read_packed_int()?;
        if parent < 0 || parent as usize >= self.remembered_types.len() {
            return None;
        }
        let parent_index = parent as usize;
        let mut members = duplicate_members(&self.remembered_types[parent_index].members);
        let count: usize = if member_count > 0 {
            member_count as usize
        } else {
            0
        };
        let ghost s4 = self.state();
        let ghost c4 = self.cursor;
        let ghost parent_members = view_members(members@);
        let ghost expected = match read_member_decls(data, s4, count as nat) {
            None => None,
            Some((s5, ms)) => Some(
                (
                    s5,
                    TypeView {
                        name: name@,
                        parent: Some(parent_index),
                        declared: ms,
                        members: parent_members + ms,
                    },
                ),
            ),
        };
        assert(read_type_decl(data, s0) == expected);
        assert(read_member_decls(data, s4, 0) == Some((s4, Seq::<MemberView>::empty())));
        let mut own: Vec<HavokObjectTypeMember> = Vec::new();
        let mut i: usize = 0;
        while i < count
            invariant
                self.wf(),
                self.data@ == data,
                i <= count,
                self.cursor >= c4,
                c4 > s0.cursor,
                data == old(self).bytes(),
                s0 == old(self).state(),
                read_type_decl(data, s0) == expected,
                expected == match read_member_decls(data, s4, count as nat) {
                    None => None,
                    Some((s5, ms)) => Some(
                        (
                    s5,
                    TypeView {
                        name: name@,
                        parent: Some(parent_index),
                        declared: ms,
                        members: parent_members + ms,
                    },
                ),
                    ),
                },
                read_member_decls(data, s4, i as nat) == Some((self.state(), view_members(own@))),
            decreases count - i,
        {
            let m = match self.try_read_member_decl() {
                Some(m) => m,
                None => {
                    proof {
                        lemma_member_decls_none(data, s4, (i + 1) as nat, count as nat);
                    }
                    return None;
                },
            };
            let ghost prev = own@;
            own.push(m);
            assert(view_members(own@) =~= view_members(prev).push(m@));
            i = i + 1;
        }
        let declared = duplicate_members(&own);
        members.append(&mut own);
        assert(view_members(members@) =~= parent_members + read_member_decls(data, s4, count as nat).unwrap().1);
        Some(HavokObjectType::new(name, Some(parent_index), declared, members))
    }


    fn try_read_floats(&mut self, n: usize) -> (r: Option<Vec<u32>>)
        requires
            old(self).wf(),
        ensures
            final(self).wf(),
            final(self).bytes() == old(self).bytes(),
            match read_floats(old(self).bytes(), old(self).state(), n as nat) {
                Some((s, v)) => r matches Some(x) && x@ == v && final(self).state() == s,
                None => r is None,
            },
            r is Some ==> final(self).state().cursor >= old(self).state().cursor,
    {
        let ghost data = self.data@;
        let ghost s0 = self.state();
        let mut out: Vec<u32> = Vec::new();
        let mut i: usize = 0;
        while i < n
            invariant
                self.wf(),
                self.data@ == data,
                data == old(self).bytes(),
                s0 == old(self).state(),
                i <= n,
                self.cursor >= s0.cursor,
                read_floats(data, s0, i as nat) == Some((self.state(), out@)),
            decreases n - i,
        {
            let f = match self.try_read_float() {
                Some(f) => f,
                None => {
                    proof {
                        lemma_floats_none(data, s0, (i + 1) as nat, n as nat);
                    }
                    return None;
                },
            };
            out.push(f);
            i = i + 1;
        }
        Some(out)
    }

    fn try_read_element(&mut self, base: u32) -> (r: Option<HavokValue>)
        requires
            old(self).wf(),
            is_element_base(base),
        ensures
            final(self).wf(),
            final(self).bytes() == old(self).bytes(),
            match read_element(old(self).bytes(), old(self).state(), base) {
                Some((s, v)) => r matches Some(x) && x@ == v && final(self).state() == s,
                None => r is None,
            },
            r is Some ==> final(self).state().cursor >= old(self).state().cursor,
    {
        if base == TYPE_STRING {
            Some(HavokValue::String(self.try_read_string()?))
        } else if base == TYPE_OBJECT {
            let index = self.try_read_packed_int()?;
            Some(HavokValue::ObjectReference(#[verifier::truncate] (index as usize)))
        } else if base == TYPE_BYTE {
            let b = self.try_read_byte()?;
            Some(HavokValue::Integer(b as i32))
        } else if base == TYPE_INT {
            Some(HavokValue::Integer(self.try_read_packed_int()?))
        } else if base == TYPE_REAL {
            Some(HavokValue::Real(self.try_read_float()?))
        } else {
            let size = (4 * (base - TYPE_VEC4 + 1)) as usize;
            Some(HavokValue::Vec(self.try_read_floats(size)?))
        }
    }

    fn try_read_elements(&mut self, base: u32, n: usize) -> (r: Option<Vec<HavokValue>>)
        requires
            old(self).wf(),
            is_element_base(base),
        ensures
            final(self).wf(),
            final(self).bytes() == old(self).bytes(),
            match read_elements(old(self).bytes(), old(self).state(), base, n as nat) {
                Some((s, v)) => r matches Some(x) && view_values(x@) == v && final(self).state() == s,
                None => r is None,
            },
            r matches Some(x) ==> x@.len() == n,
            r is Some ==> final(self).state().cursor >= old(self).state().cursor,
    {
        let ghost data = self.data@;
        let ghost s0 = self.state();
        let mut out: Vec<HavokValue> = Vec::new();
        let mut i: usize = 0;
        while i < n
            invariant
                self.wf(),
                self.data@ == data,
                data == old(self).bytes(),
                s0 == old(self).state(),
                is_element_base(base),
                i <= n,
                out@.len() == i,
                self.cursor >= s0.cursor,
                read_elements(data, s0, base, i as nat) == Some((self.state(), view_values(out@))),
            decreases n - i,
        {
            let v = match self.try_read_element(base) {
                Some(v) => v,
                None => {
                    proof {
                        lemma_elements_none(data, s0, base, (i + 1) as nat, n as nat);
                    }
                    return None;
                },
            };
            let ghost prev = out@;
            out.push(v);
            assert(view_values(out@) =~= view_values(prev).push(v@));
            i = i + 1;
        }
        Some(out)
    }

    /// An array of `len` values of the member's base type.
    fn try_read_array(&mut self, member: &HavokObjectTypeMember, len: usize) -> (r: Option<Vec<HavokValue>>)
        requires
            old(self).wf(),
        ensures
            final(self).wf(),
            final(self).bytes() == old(self).bytes(),
            match read_array(old(self).bytes(), old(self).state(), member@, len as nat) {
                Some((s, v)) => r matches Some(x) && view_values(x@) == v && final(self).state() == s,
                None => r is None,
            },
            r matches Some(x) ==> x@.len() == len,
            r is Some ==> final(self).state().cursor >= old(self).state().cursor,
        decreases old(self).bytes().len() - old(self).state().cursor,
    {
        let ghost data = self.data@;
        let ghost s0 = self.state();
        let base = member.type_.base_type().bits();
        if base == TYPE_STRUCT {
            let class_name = match &member.class_name {
                Some(c) => c,
                None => return None,
            };
            let ti = match self.find_type(class_name) {
                Some(t) => t,
                None => return None,
            };
            proof {
                lemma_first_type_named(s0.types, class_name@, 0);
            }
            let target_members = duplicate_members(&self.remembered_types[ti].members);
            let ghost members = view_members(target_members@);
            assert(members == s0.types[ti as int].members);
            let n = target_members.len();
            let exist = self.try_read_bit_field(n)?;
            if exist.len() < n {
                return None;
            }
            let ghost s1 = self.state();
            let ghost c1 = self.cursor;
            let ghost spec_result = read_array(data, s0, member@, len as nat);
            let first = self.objects.len();
            let ghost empties = empty_objects(ti, n as nat, len as nat);
            let mut e: usize = 0;
            while e < len
                invariant
                    self.wf(),
                    self.data@ == data,
                    self.cursor == c1,
                    first == s1.objects.len(),
                    e <= len,
                    empties == empty_objects(ti, n as nat, len as nat),
                    self.state() == (ReadState { objects: s1.objects + empties.take(e as int), ..s1 }),
                decreases len - e,
            {
                let mut slots: Vec<Option<HavokValue>> = Vec::new();
                let mut m: usize = 0;
                while m < n
                    invariant
                        m <= n,
                        view_slots(slots@) =~= Seq::new(m as nat, |q: int| None::<HavokValueView>),
                    decreases n - m,
                {
                    let ghost prev = slots@;
                    slots.push(None);
                    assert(view_slots(slots@) =~= view_slots(prev).push(None));
                    m = m + 1;
                }
                let object = HavokObject::new(ti, slots);
                let ghost objv = object@;
                let ghost prev_objects = self.objects@;
                self.objects.push(object);
                assert(objv == empties[e as int]);
                assert(self.objects@.map_values(|o: HavokObject| o@) =~= s1.objects + empties.take(e + 1)) by {
                    assert(empties.take(e + 1) =~= empties.take(e as int).push(empties[e as int]));
                    assert(self.objects@.map_values(|o: HavokObject| o@) =~= prev_objects.map_values(|o: HavokObject| o@).push(objv));
                }
                e = e + 1;
            }
            assert(empties.take(len as int) =~= empties);
            let ghost s1p = self.state();
            let mut columns: Vec<Option<Vec<HavokValue>>> = Vec::new();
            let ghost total = if n == 0 {
                Some((s1p, Seq::<Option<Seq<HavokValueView>>>::empty()))
            } else {
                read_columns(data, s1p, members, exist@, len as nat, 0)
            };
            assert(spec_result == finish_struct_array(total, ti, first as int, n as nat, len as nat));
            if n > 0 {
                let mut i: usize = 0;
                while i < n
                    invariant
                        self.wf(),
                        self.data@ == data,
                        data == old(self).bytes(),
                        s0 == old(self).state(),
                        n == target_members@.len(),
                        members == view_members(target_members@),
                        exist@.len() >= n,
                        n > 0,
                        i <= n,
                        c1 > s0.cursor,
                        self.cursor >= c1,
                        spec_result == read_array(data, s0, member@, len as nat),
                        spec_result == finish_struct_array(total, ti, first as int, n as nat, len as nat),
                        columns@.len() == i,
                        forall|m: int| 0 <= m < i ==> ((#[trigger] columns@[m]) matches Some(c) ==> c@.len() == len),
                        total == read_columns(data, s1p, members, exist@, len as nat, 0),
                        total == prepend_columns(
                            view_columns(columns@),
                            read_columns(data, self.state(), members, exist@, len as nat, i as int),
                        ),
                    decreases n - i,
                {
                    let ghost cur = self.state();
                    let ghost prev = columns@;
                    if !exist[i] {
                        columns.push(None);
                        assert(view_columns(columns@) =~= view_columns(prev).push(None));
                        proof {
                            lemma_prepend_columns(view_columns(prev), None, read_columns(data, cur, members, exist@, len as nat, i + 1));
                        }
                    } else {
                        assert(target_members@[i as int]@ == members[i as int]);
                        if target_members[i].type_.is_tuple() {
                            return None;
                        }
                        let col = self.try_read_array(&target_members[i], len)?;
                        let ghost colv = view_values(col@);
                        columns.push(Some(col));
                        assert(view_columns(columns@) =~= view_columns(prev).push(Some(colv)));
                        proof {
                            lemma_prepend_columns(view_columns(prev), Some(colv), read_columns(data, self.state(), members, exist@, len as nat, i + 1));
                        }
                    }
                    i = i + 1;
                }
            }
            let ghost s2 = self.state();
            let ghost cols = view_columns(columns@);
            assert(total == Some((s2, cols))) by {
                if n > 0 {
                    assert(cols + Seq::<Option<Seq<HavokValueView>>>::empty() =~= cols);
                } else {
                    assert(cols =~= Seq::<Option<Seq<HavokValueView>>>::empty());
                }
            }
            if self.objects.len() < first || self.objects.len() - first < len {
                return None;
            }
            let ghost objs = struct_objects(ti, n as nat, cols, len as nat);
            assert(fill_objects(s2.objects, first as int, objs.take(0)) =~= s2.objects);
            let mut values: Vec<HavokValue> = Vec::new();
            let mut k: usize = 0;
            while k < len
                invariant
                    self.wf(),
                    self.data@ == data,
                    data == old(self).bytes(),
                    s0 == old(self).state(),
                    k <= len,
                    objs == struct_objects(ti, n as nat, cols, len as nat),
                    spec_result == read_array(data, s0, member@, len as nat),
                    spec_result == finish_struct_array(Some((s2, cols)), ti, first as int, n as nat, len as nat),
                    n == columns@.len(),
                    cols == view_columns(columns@),
                    forall|m: int| 0 <= m < n ==> ((#[trigger] columns@[m]) matches Some(c) ==> c@.len() == len),
                    first + len <= s2.objects.len(),
                    self.objects@.len() == s2.objects.len(),
                    self.state() == (ReadState { objects: fill_objects(s2.objects, first as int, objs.take(k as int)), ..s2 }),
                    values@.len() == k,
                    view_values(values@) =~= Seq::new(k as nat, |j: int| HavokValueView::Object((first + j) as usize)),
                decreases len - k,
            {
                let mut slots: Vec<Option<HavokValue>> = Vec::new();
                let mut m: usize = 0;
                while m < n
                    invariant
                        k < len,
                        m <= n,
                        objs == struct_objects(ti, n as nat, cols, len as nat),
                        n == columns@.len(),
                        cols == view_columns(columns@),
                        forall|q: int| 0 <= q < n ==> ((#[trigger] columns@[q]) matches Some(c) ==> c@.len() == len),
                        slots@.len() == m,
                        forall|q: int| 0 <= q < m ==> #[trigger] view_slots(slots@)[q] == objs[k as int].data[q],
                    decreases n - m,
                {
                    let ghost prev = slots@;
                    match &columns[m] {
                        Some(c) => {
                            let v = c[k].duplicate();
                            slots.push(Some(v));
                            assert(cols[m as int] == Some(view_values(c@)));
                            assert(view_values(c@)[k as int] == c@[k as int]@);
                        },
                        None => {
                            slots.push(None);
                            assert(cols[m as int] is None);
                        },
                    }
                    assert(view_slots(slots@)[m as int] == objs[k as int].data[m as int]);
                    assert forall|q: int| 0 <= q < m + 1 implies #[trigger] view_slots(slots@)[q] == objs[k as int].data[q] by {
                        if q < m {
                            assert(slots@[q] == prev[q]);
                            assert(view_slots(prev)[q] == objs[k as int].data[q]);
                        }
                    }
                    m = m + 1;
                }
                assert(view_slots(slots@) =~= objs[k as int].data);
                let ghost prev_objects = self.objects@;
                let object = HavokObject::new(ti, slots);
                let ghost objv = object@;
                let total_objects = self.objects.len();
                assert(first + k < total_objects);
                let ghost before = fill_objects(s2.objects, first as int, objs.take(k as int));
                assert(prev_objects.map_values(|o: HavokObject| o@) == before);
                self.objects.set(first + k, object);
                assert(objv == objs[k as int]);
                let ghost after = fill_objects(s2.objects, first as int, objs.take(k + 1));
                let ghost now = self.objects@.map_values(|o: HavokObject| o@);
                assert forall|i: int| 0 <= i < after.len() implies #[trigger] now[i] == after[i] by {
                    if i != first + k {
                        assert(self.objects@[i] == prev_objects[i]);
                        assert(before[i] == after[i]);
                    }
                }
                assert(now =~= after);
                let ghost prev_values = values@;
                values.push(HavokValue::Object(first + k));
                assert(view_values(values@) =~= view_values(prev_values).push(HavokValueView::Object((first + k) as usize)));
                k = k + 1;
            }
            assert(objs.take(len as int) =~= objs);
            Some(values)
        } else if base == TYPE_INT {
            if self.file_version >= 3 {
                self.try_read_packed_int()?;
            }
            self.try_read_elements(base, len)
        } else if base == TYPE_STRING || base == TYPE_OBJECT || base == TYPE_BYTE || base == TYPE_REAL
            || (TYPE_VEC4 <= base && base <= TYPE_VEC16) {
            self.try_read_elements(base, len)
        } else {
            None
        }
    }

    /// The value of a member whose data is present.
    fn try_read_object_member_value(&mut self, member: &HavokObjectTypeMember) -> (r: Option<HavokValue>)
        requires
            old(self).wf(),
        ensures
            final(self).wf(),
            final(self).bytes() == old(self).bytes(),
            match read_member_value(old(self).bytes(), old(self).state(), member@) {
                Some((s, v)) => r matches Some(x) && x@ == v && final(self).state() == s,
                None => r is None,
            },
            r is Some ==> final(self).state().cursor >= old(self).state().cursor,
    {
        if member.type_.is_array() {
            let array_len = self.try_read_packed_int()?;
            if member.type_.base_type().bits() == TYPE_OBJECT && member.class_name.is_none() {
                return None;
            }
            if array_len < 0 {
                return None;
            }
            let items = self.try_read_array(member, array_len as usize)?;
            proof {
                lemma_view_array(items);
            }
            Some(HavokValue::Array(items))
        } else {
            let bits = member.type_.bits();
            if bits == TYPE_BYTE {
                let b = self.try_read_byte()?;
                Some(HavokValue::Integer(b as i32))
            } else if bits == TYPE_INT {
                Some(HavokValue::Integer(self.try_read_packed_int()?))
            } else if bits == TYPE_REAL {
                Some(HavokValue::Real(self.try_read_float()?))
            } else if bits == TYPE_STRING {
                Some(HavokValue::String(self.try_read_string()?))
            } else {
                None
            }
        }
    }

    /// A top-level object.
    fn try_read_object_top_level(&mut self) -> (r: Option<HavokObject>)
        requires
            old(self).wf(),
        ensures
            final(self).wf(),
            final(self).bytes() == old(self).bytes(),
            match read_object(old(self).bytes(), old(self).state()) {
                Some((s, v)) => r matches Some(x) && x@ == v && final(self).state() == s,
                None => r is None,
            },
            r is Some ==> final(self).state().cursor >= old(self).state().cursor,
    {
        let ghost data = self.data@;
        let ghost s0 = self.state();
        let object_type_index = self.try_read_packed_int()?;
        if object_type_index < 0 || object_type_index as usize >= self.remembered_types.len() {
            return None;
        }
        let ti = object_type_index as usize;
        let members = duplicate_members(&self.remembered_types[ti].members);
        let ghost mv = view_members(members@);
        let n = members.len();
        let data_existence = self.try_read_bit_field(n)?;
        if data_existence.len() < n {
            return None;
        }
        let ghost s2 = self.state();
        let ghost spec_result = read_object(data, s0);
        let ghost values_spec = read_object_values(data, s2, mv, data_existence@, n as nat);
        assert(spec_result == match values_spec {
            None => None,
            Some((s3, vs)) => Some(
                (s3, ObjectView { object_type: ti, data: vs.map_values(|v: HavokValueView| Some(v)) }),
            ),
        });
        let ghost mut vs: Seq<HavokValueView> = Seq::empty();
        let mut slots: Vec<Option<HavokValue>> = Vec::new();
        let mut i: usize = 0;
        while i < n
            invariant
                self.wf(),
                self.data@ == data,
                data == old(self).bytes(),
                s0 == old(self).state(),
                n == members@.len(),
                mv == view_members(members@),
                data_existence@.len() >= n,
                i <= n,
                self.cursor >= s2.cursor,
                s2.cursor >= s0.cursor,
                values_spec == read_object_values(data, s2, mv, data_existence@, n as nat),
                spec_result == read_object(data, s0),
                spec_result == match values_spec {
                    None => None,
                    Some((s3, vs)) => Some(
                        (s3, ObjectView { object_type: ti, data: vs.map_values(|v: HavokValueView| Some(v)) }),
                    ),
                },
                read_object_values(data, s2, mv, data_existence@, i as nat) == Some((self.state(), vs)),
                view_slots(slots@) =~= vs.map_values(|v: HavokValueView| Some(v)),
            decreases n - i,
        {
            let r = if data_existence[i] {
                self.try_read_object_member_value(&members[i])
            } else {
                try_default_value(members[i].type_)
            };
            let v = match r {
                Some(v) => v,
                None => {
                    proof {
                        assert(mv[i as int] == members@[i as int]@);
                        assert(read_object_values(data, s2, mv, data_existence@, (i + 1) as nat) is None);
                        lemma_object_values_none(data, s2, mv, data_existence@, (i + 1) as nat, n as nat);
                    }
                    return None;
                },
            };
            proof {
                assert(mv[i as int] == members@[i as int]@);
                vs = vs.push(v@);
            }
            let ghost prev = slots@;
            slots.push(Some(v));
            assert(view_slots(slots@) =~= view_slots(prev).push(Some(v@)));
            i = i + 1;
        }
        Some(HavokObject::new(ti, slots))
    }

    /// The value with each reference replaced by the remembered object it names.
    fn try_resolve_element(&self, v: &HavokValue) -> (r: Option<HavokValue>)
        ensures
            match resolve_element(self.state().remembered, v@) {
                Some(x) => r matches Some(y) && y@ == x,
                None => r is None,
            },
    {
        match v {
            HavokValue::ObjectReference(x) => {
                if *x < self.remembered_objects.len() {
                    Some(HavokValue::Object(self.remembered_objects[*x]))
                } else {
                    None
                }
            },
            _ => Some(v.duplicate()),
        }
    }

    fn try_resolve_value(&self, v: &HavokValue) -> (r: Option<HavokValue>)
        ensures
            match resolve_value(self.state().remembered, v@) {
                Some(x) => r matches Some(y) && y@ == x,
                None => r is None,
            },
    {
        let ghost remembered = self.state().remembered;
        match v {
            HavokValue::Array(items) => {
                proof {
                    lemma_view_array(*items);
                }
                let ghost iv = view_values(items@);
                let mut out: Vec<HavokValue> = Vec::new();
                let mut i: usize = 0;
                while i < items.len()
                    invariant
                        remembered == self.state().remembered,
                        iv == view_values(items@),
                        v@ == HavokValueView::Array(iv),
                        i <= items@.len(),
                        out@.len() == i,
                        forall|j: int| 0 <= j < i ==> #[trigger] resolve_element(remembered, iv[j]) is Some,
                        forall|j: int| 0 <= j < i ==> (#[trigger] out@[j])@ == resolve_element(remembered, iv[j])->0,
                    decreases items@.len() - i,
                {
                    let x = match self.try_resolve_element(&items[i]) {
                        Some(x) => x,
                        None => {
                            assert(resolve_element(remembered, iv[i as int]) is None);
                            return None;
                        },
                    };
                    out.push(x);
                    i = i + 1;
                }
                proof {
                    lemma_view_array(out);
                    assert(view_values(out@) =~= Seq::new(iv.len(), |j: int| resolve_element(remembered, iv[j])->0));
                }
                Some(HavokValue::Array(out))
            },
            _ => self.try_resolve_element(v),
        }
    }

    /// Every object with its references resolved.
    fn try_resolve_all(&self) -> (r: Option<Vec<HavokObject>>)
        ensures
            match resolve_objects(self.state().remembered, self.state().objects) {
                Some(x) => r matches Some(y) && y@.map_values(|o: HavokObject| o@) == x,
                None => r is None,
            },
    {
        let ghost remembered = self.state().remembered;
        let ghost objects = self.state().objects;
        let mut out: Vec<HavokObject> = Vec::new();
        let mut i: usize = 0;
        while i < self.objects.len()
            invariant
                remembered == self.state().remembered,
                objects == self.state().objects,
                i <= objects.len(),
                out@.len() == i,
                forall|j: int| 0 <= j < i ==> #[trigger] resolve_object(remembered, objects[j]) is Some,
                forall|j: int| 0 <= j < i ==> (#[trigger] out@[j])@ == resolve_object(remembered, objects[j])->0,
            decreases objects.len() - i,
        {
            assert(self.objects@[i as int]@ == objects[i as int]);
            let resolved = match self.try_fill_object_reference(&self.objects[i]) {
                Some(o) => o,
                None => {
                    assert(resolve_object(remembered, objects[i as int]) is None);
                    return None;
                },
            };
            out.push(resolved);
            i = i + 1;
        }
        assert(out@.map_values(|o: HavokObject| o@) =~= resolve_objects(remembered, objects)->0);
        Some(out)
    }

    /// The object with each reference in its member values replaced by the
    /// remembered object it names.
    fn try_fill_object_reference(&self, object: &HavokObject) -> (r: Option<HavokObject>)
        ensures
            match resolve_object(self.state().remembered, object@) {
                Some(x) => r matches Some(y) && y@ == x,
                None => r is None,
            },
    {
        let ghost remembered = self.state().remembered;
        let ghost ov = object@;
        let mut slots: Vec<Option<HavokValue>> = Vec::new();
        let mut k: usize = 0;
        while k < object.data.len()
            invariant
                remembered == self.state().remembered,
                ov == object@,
                k <= ov.data.len(),
                slots@.len() == k,
                forall|j: int| 0 <= j < k ==> #[trigger] resolve_slot(remembered, ov.data[j]) is Some,
                forall|j: int| 0 <= j < k ==> #[trigger] view_slots(slots@)[j] == resolve_slot(remembered, ov.data[j])->0,
            decreases ov.data.len() - k,
        {
            let ghost prev = slots@;
            match &object.data[k] {
                Some(v) => {
                    let x = match self.try_resolve_value(v) {
                        Some(x) => x,
                        None => {
                            assert(resolve_slot(remembered, ov.data[k as int]) is None);
                            return None;
                        },
                    };
                    slots.push(Some(x));
                },
                None => {
                    slots.push(None);
                },
            }
            assert forall|j: int| 0 <= j < k + 1 implies #[trigger] view_slots(slots@)[j] == resolve_slot(remembered, ov.data[j])->0 by {
                if j < k {
                    assert(slots@[j] == prev[j]);
                    assert(view_slots(prev)[j] == resolve_slot(remembered, ov.data[j])->0);
                }
            }
            k = k + 1;
        }
        let resolved = HavokObject::new(object.object_type, slots);
        assert(resolved@.data =~= resolve_object(remembered, ov)->0.data);
        Some(resolved)
    }

    /// The body of a record with the given tag.
    fn try_read_record(&mut self, tag: HavokTagType) -> (r: Option<()>)
        requires
            old(self).wf(),
        ensures
            final(self).wf(),
            final(self).bytes() == old(self).bytes(),
            match read_record_body(old(self).bytes(), old(self).state(), tag) {
                Some(s) => r is Some && final(self).state() == s,
                None => r is None,
            },
            r is Some ==> final(self).state().cursor >= old(self).state().cursor,
    {
        match tag {
            HavokTagType::FileInfo => {
                let version = self.try_read_packed_int()?;
                let v = #[verifier::truncate] (version as u8);
                self.file_version = v;
                if v != SUPPORTED_VERSION {
                    return None;
                }
                let index = self.objects.len();
                let object = HavokObject::new(0, Vec::new());
                let ghost objv = object@;
                assert(objv.data =~= Seq::<Option<HavokValueView>>::empty());
                let ghost prev = self.objects@;
                self.objects.push(object);
                self.remembered_objects.push(index);
                assert(self.objects@.map_values(|o: HavokObject| o@) =~= prev.map_values(
                    |o: HavokObject| o@,
                ).push(objv));
                Some(())
            },
            HavokTagType::Type => {
                let object_type = self.try_read_type()?;
                let ghost tv = object_type@;
                let ghost prev = self.remembered_types@;
                self.remembered_types.push(object_type);
                assert(self.remembered_types@.map_values(|t: HavokObjectType| t@) =~= prev.map_values(
                    |t: HavokObjectType| t@,
                ).push(tv));
                Some(())
            },
            HavokTagType::ObjectRemember => {
                let object = self.try_read_object_top_level()?;
                let ghost objv = object@;
                let index = self.objects.len();
                let ghost prev = self.objects@;
                self.objects.push(object);
                self.remembered_objects.push(index);
                assert(self.objects@.map_values(|o: HavokObject| o@) =~= prev.map_values(
                    |o: HavokObject| o@,
                ).push(objv));
                Some(())
            },
            _ => None,
        }
    }

    /// Reads the records and resolves references; the root's index on success.
    fn try_do_read(&mut self) -> (r: Option<usize>)
        requires
            old(self).wf(),
            old(self).state() == initial_state(),
        ensures
            final(self).wf(),
            match spec_read(old(self).bytes()) {
                Some(f) => r == Some(f.root) && f.types == final(self).state().types
                    && f.objects == final(self).state().objects,
                None => r is None,
            },
    {
        let ghost data = self.data@;
        if self.data.len() < 8 {
            return None;
        }
        let signature1 = read_u32_le(self.data, 0);
        let signature2 = read_u32_le(self.data, 4);
        if signature1 != SIGNATURE_1 || signature2 != SIGNATURE_2 {
            return None;
        }
        self.cursor = 8;
        let ghost expected = read_records(data, at(initial_state(), 8));
        assert(self.state() == at(initial_state(), 8));
        loop
            invariant_except_break
                read_records(data, self.state()) == expected,
            invariant
                self.wf(),
                self.data@ == data,
                data == old(self).bytes(),
                expected == read_records(data, at(initial_state(), 8)),
                data.len() >= 8,
                spec_u32_le(data, 0) == SIGNATURE_1,
                spec_u32_le(data, 4) == SIGNATURE_2,
            ensures
                expected == Some(self.state()),
            decreases self.data@.len() - self.cursor,
        {
            let raw = self.try_read_packed_int()?;
            let tag = HavokTagType::from_raw(#[verifier::truncate] (raw as u8));
            if tag == HavokTagType::FileEnd {
                break;
            }
            self.try_read_record(tag)?;
        }
        let objects = self.try_resolve_all()?;
        if self.remembered_objects.len() <= 1 {
            return None;
        }
        let root = self.remembered_objects[1];
        self.objects = objects;
        Some(root)
    }
}

/// Declarations of `i` members read where `n >= i` were.
pub proof fn lemma_member_decls_some(data: Seq<u8>, s: ReadState, i: nat, n: nat)
    requires
        i <= n,
        read_member_decls(data, s, n) is Some,
    ensures
        read_member_decls(data, s, i) is Some,
    decreases n - i,
{
    if i < n {
        lemma_member_decls_some(data, s, i, (n - 1) as nat);
    }
}

/// `i` floats read where `n >= i` were.
pub proof fn lemma_floats_some(data: Seq<u8>, s: ReadState, i: nat, n: nat)
    requires
        i <= n,
        read_floats(data, s, n) is Some,
    ensures
        read_floats(data, s, i) is Some,
    decreases n - i,
{
    if i < n {
        lemma_floats_some(data, s, i, (n - 1) as nat);
    }
}

/// `i` elements read where `n >= i` were.
pub proof fn lemma_elements_some(data: Seq<u8>, s: ReadState, base: u32, i: nat, n: nat)
    requires
        i <= n,
        read_elements(data, s, base, n) is Some,
    ensures
        read_elements(data, s, base, i) is Some,
    decreases n - i,
{
    if i < n {
        lemma_elements_some(data, s, base, i, (n - 1) as nat);
    }
}

/// The result of an array of `len` structures of type `ti` with `n` members,
/// whose objects start at `first`, once the columns have been read.
pub open spec fn finish_struct_array(
    columns: Option<(ReadState, Seq<Option<Seq<HavokValueView>>>)>,
    ti: usize,
    first: int,
    n: nat,
    len: nat,
) -> Option<(ReadState, Seq<HavokValueView>)> {
    match columns {
        None => None,
        Some((s2, cols)) => if s2.objects.len() < first + len {
            None
        } else {
            Some(
                (
                    ReadState { objects: fill_objects(s2.objects, first, struct_objects(ti, n, cols, len)), ..s2 },
                    Seq::new(len, |k: int| HavokValueView::Object((first + k) as usize)),
                ),
            )
        },
    }
}

pub proof fn lemma_first_type_named(types: Seq<TypeView>, name: Seq<char>, from: int)
    ensures
        first_type_named(types, name, from) matches Some(i) ==> from <= i < types.len() && types[i].name
            == name,
    decreases types.len() - from,
{
    if 0 <= from < types.len() && types[from].name != name {
        lemma_first_type_named(types, name, from + 1);
    }
}

/// The value of a member whose data is absent; the type must have one.
fn default_value(type_: HavokValueType) -> (r: HavokValue)
    requires
        spec_default_value(type_) is Some,
    ensures
        r@ == spec_default_value(type_)->0,
{
    if type_.is_array() || type_.is_tuple() {
        let empty: Vec<HavokValue> = Vec::new();
        proof {
            lemma_view_array(empty);
            assert(view_values(empty@) =~= Seq::<HavokValueView>::empty());
        }
        HavokValue::Array(empty)
    } else {
        HavokValue::Integer(0)
    }
}

/// The first `i` member values read where `n >= i` were.
pub proof fn lemma_object_values_some(
    data: Seq<u8>,
    s: ReadState,
    members: Seq<MemberView>,
    exist: Seq<bool>,
    i: nat,
    n: nat,
)
    requires
        i <= n,
        read_object_values(data, s, members, exist, n) is Some,
    ensures
        read_object_values(data, s, members, exist, i) is Some,
    decreases n - i,
{
    if i < n {
        lemma_object_values_some(data, s, members, exist, i, (n - 1) as nat);
    }
}

/// The views of the columns of an array of structures.
pub open spec fn view_columns(c: Seq<Option<Vec<HavokValue>>>) -> Seq<Option<Seq<HavokValueView>>> {
    c.map_values(
        |o: Option<Vec<HavokValue>>|
            match o {
                Some(v) => Some(view_values(v@)),
                None => None,
            },
    )
}

/// `r` with `prefix` put before its columns.
pub open spec fn prepend_columns(
    prefix: Seq<Option<Seq<HavokValueView>>>,
    r: Option<(ReadState, Seq<Option<Seq<HavokValueView>>>)>,
) -> Option<(ReadState, Seq<Option<Seq<HavokValueView>>>)> {
    match r {
        Some((s, rest)) => Some((s, prefix + rest)),
        None => None,
    }
}

pub proof fn lemma_prepend_columns(
    prefix: Seq<Option<Seq<HavokValueView>>>,
    c: Option<Seq<HavokValueView>>,
    r: Option<(ReadState, Seq<Option<Seq<HavokValueView>>>)>,
)
    ensures
        prepend_columns(prefix, prepend_columns(seq![c], r)) == prepend_columns(prefix.push(c), r),
{
    if let Some((s, rest)) = r {
        assert(prefix + (seq![c] + rest) =~= prefix.push(c) + rest);
    }
}

pub proof fn lemma_member_decls_none(data: Seq<u8>, s: ReadState, i: nat, n: nat)
    requires
        i <= n,
        read_member_decls(data, s, i) is None,
    ensures
        read_member_decls(data, s, n) is None,
    decreases n - i,
{
    if i < n {
        lemma_member_decls_none(data, s, i, (n - 1) as nat);
    }
}

pub proof fn lemma_floats_none(data: Seq<u8>, s: ReadState, i: nat, n: nat)
    requires
        i <= n,
        read_floats(data, s, i) is None,
    ensures
        read_floats(data, s, n) is None,
    decreases n - i,
{
    if i < n {
        lemma_floats_none(data, s, i, (n - 1) as nat);
    }
}

pub proof fn lemma_elements_none(data: Seq<u8>, s: ReadState, base: u32, i: nat, n: nat)
    requires
        i <= n,
        read_elements(data, s, base, i) is None,
    ensures
        read_elements(data, s, base, n) is None,
    decreases n - i,
{
    if i < n {
        lemma_elements_none(data, s, base, i, (n - 1) as nat);
    }
}

pub proof fn lemma_object_values_none(
    data: Seq<u8>,
    s: ReadState,
    members: Seq<MemberView>,
    exist: Seq<bool>,
    i: nat,
    n: nat,
)
    requires
        i <= n,
        read_object_values(data, s, members, exist, i) is None,
    ensures
        read_object_values(data, s, members, exist, n) is None,
    decreases n - i,
{
    if i < n {
        lemma_object_values_none(data, s, members, exist, i, (n - 1) as nat);
    }
}

/// The value of a member whose data is absent, if its type has one.
fn try_default_value(type_: HavokValueType) -> (r: Option<HavokValue>)
    ensures
        match spec_default_value(type_) {
            Some(v) => r matches Some(x) && x@ == v,
            None => r is None,
        },
{
    if type_.is_vec() {
        None
    } else if type_.is_array() || type_.is_tuple() {
        let empty: Vec<HavokValue> = Vec::new();
        proof {
            lemma_view_array(empty);
            assert(view_values(empty@) =~= Seq::<HavokValueView>::empty());
        }
        Some(HavokValue::Array(empty))
    } else {
        let bits = type_.bits();
        if bits == TYPE_EMPTY || bits == TYPE_BYTE || bits == TYPE_INT {
            Some(HavokValue::Integer(0))
        } else {
            None
        }
    }
}

} // verus!
