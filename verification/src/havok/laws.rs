//! What every file that reads successfully satisfies: its objects form a
//! closed graph. Each object has a known type and one slot per member of it,
//! every object a value names exists, the root exists, and no reference is
//! left unresolved; resolving an object's references again changes nothing.
use vstd::prelude::*;

use super::format::{
    default_value, first_type_named, read_array, read_byte, read_columns, read_element,
    read_elements, read_float, read_floats, read_member_decl, read_member_decls,
    read_member_value, read_object, read_object_values, read_packed, read_record_body,
    read_records, read_string, read_type_decl, remaining, remember, resolve_element,
    resolve_object, resolve_objects, resolve_slot, resolve_value, spec_read, struct_objects,
    empty_objects, fill_objects,
    at, initial_state, HavokTagFileView, ReadState,
};
use super::object::{HavokValueView, MemberView, ObjectView, TypeView};
use super::types::TYPE_STRUCT;

verus! {

/// An array element: it names an existing object if any, is no array, and is
/// no reference once references are resolved.
pub open spec fn element_ok(v: HavokValueView, n: nat, resolved: bool) -> bool {
    match v {
        HavokValueView::Object(x) => x < n,
        HavokValueView::ObjectReference(_) => !resolved,
        HavokValueView::Array(_) => false,
        _ => true,
    }
}

/// A member value: an array of such elements, or such an element itself.
pub open spec fn value_ok(v: HavokValueView, n: nat, resolved: bool) -> bool {
    match v {
        HavokValueView::Array(items) => forall|i: int|
            0 <= i < items.len() ==> element_ok(#[trigger] items[i], n, resolved),
        _ => element_ok(v, n, resolved),
    }
}

/// An object of a known type, with one slot per member of that type.
pub open spec fn object_ok(types: Seq<TypeView>, o: ObjectView, n: nat, resolved: bool) -> bool {
    &&& o.object_type < types.len()
    &&& o.data.len() == types[o.object_type as int].members.len()
    &&& forall|j: int|
        0 <= j < o.data.len() ==> (#[trigger] o.data[j] matches Some(v) ==> value_ok(v, n, resolved))
}

/// What holds of the reader's state after every read.
pub open spec fn state_ok(s: ReadState) -> bool {
    &&& s.types.len() >= 1
    &&& s.types[0].members.len() == 0
    &&& forall|i: int| 0 <= i < s.remembered.len() ==> #[trigger] s.remembered[i] < s.objects.len()
    &&& forall|i: int|
        0 <= i < s.objects.len() ==> object_ok(s.types, #[trigger] s.objects[i], s.objects.len(), false)
}

/// The graph a file reads to is closed.
pub open spec fn file_closed(f: HavokTagFileView) -> bool {
    &&& f.root < f.objects.len()
    &&& forall|i: int|
        0 <= i < f.objects.len() ==> object_ok(f.types, #[trigger] f.objects[i], f.objects.len(), true)
}

/// `s2` has what `s` had: the same types and remembered objects, and the
/// objects of `s` first.
pub open spec fn same_graph_grown(s: ReadState, s2: ReadState) -> bool {
    &&& s2.types == s.types
    &&& s2.remembered == s.remembered
    &&& s.objects.len() <= s2.objects.len()
    &&& forall|i: int| 0 <= i < s.objects.len() ==> #[trigger] s2.objects[i] == s.objects[i]
}

proof fn lemma_element_grow(v: HavokValueView, n: nat, n2: nat)
    requires
        element_ok(v, n, false),
        n <= n2,
    ensures
        element_ok(v, n2, false),
{
}

proof fn lemma_value_grow(v: HavokValueView, n: nat, n2: nat)
    requires
        value_ok(v, n, false),
        n <= n2,
    ensures
        value_ok(v, n2, false),
{
    if let HavokValueView::Array(items) = v {
        assert forall|i: int| 0 <= i < items.len() implies element_ok(#[trigger] items[i], n2, false) by {
            lemma_element_grow(items[i], n, n2);
        }
    }
}

proof fn lemma_object_grow(types: Seq<TypeView>, types2: Seq<TypeView>, o: ObjectView, n: nat, n2: nat)
    requires
        object_ok(types, o, n, false),
        n <= n2,
        types.len() <= types2.len(),
        forall|i: int| 0 <= i < types.len() ==> #[trigger] types2[i] == types[i],
    ensures
        object_ok(types2, o, n2, false),
{
    assert(types2[o.object_type as int] == types[o.object_type as int]);
    assert forall|j: int| 0 <= j < o.data.len() implies (#[trigger] o.data[j] matches Some(v) ==> value_ok(v, n2, false)) by {
        if let Some(v) = o.data[j] {
            lemma_value_grow(v, n, n2);
        }
    }
}

/// A state whose graph grew from a good state, by objects that are good, is good.
proof fn lemma_state_grown(s: ReadState, s2: ReadState)
    requires
        state_ok(s),
        s2.types == s.types,
        s.objects.len() <= s2.objects.len(),
        forall|i: int| 0 <= i < s.objects.len() ==> #[trigger] s2.objects[i] == s.objects[i],
        forall|i: int| 0 <= i < s2.remembered.len() ==> #[trigger] s2.remembered[i] < s2.objects.len(),
        forall|i: int|
            s.objects.len() <= i < s2.objects.len() ==> object_ok(
                s2.types,
                #[trigger] s2.objects[i],
                s2.objects.len(),
                false,
            ),
    ensures
        state_ok(s2),
{
    assert forall|i: int| 0 <= i < s2.objects.len() implies object_ok(s2.types, #[trigger] s2.objects[i], s2.objects.len(), false) by {
        if i < s.objects.len() {
            lemma_object_grow(s.types, s2.types, s.objects[i], s.objects.len(), s2.objects.len());
        }
    }
}

proof fn lemma_string_graph(data: Seq<u8>, s: ReadState)
    ensures
        read_string(data, s) matches Some((s1, _)) ==> s1.types == s.types && s1.objects == s.objects
            && s1.remembered == s.remembered,
{
}

proof fn lemma_floats_graph(data: Seq<u8>, s: ReadState, n: nat)
    ensures
        read_floats(data, s, n) matches Some((s1, _)) ==> s1.types == s.types && s1.objects
            == s.objects && s1.remembered == s.remembered,
    decreases n,
{
    if n > 0 {
        lemma_floats_graph(data, s, (n - 1) as nat);
    }
}

proof fn lemma_element_graph(data: Seq<u8>, s: ReadState, base: u32)
    ensures
        read_element(data, s, base) matches Some((s1, v)) ==> s1.types == s.types && s1.objects
            == s.objects && s1.remembered == s.remembered && element_ok(v, s.objects.len(), false),
{
    lemma_string_graph(data, s);
    lemma_floats_graph(data, s, super::format::vec_len(base));
}

proof fn lemma_elements_graph(data: Seq<u8>, s: ReadState, base: u32, n: nat)
    ensures
        read_elements(data, s, base, n) matches Some((s1, vs)) ==> {
            &&& s1.types == s.types
            &&& s1.objects == s.objects
            &&& s1.remembered == s.remembered
            &&& vs.len() == n
            &&& forall|i: int| 0 <= i < vs.len() ==> element_ok(#[trigger] vs[i], s.objects.len(), false)
        },
    decreases n,
{
    if n > 0 {
        lemma_elements_graph(data, s, base, (n - 1) as nat);
        if let Some((s1, vs)) = read_elements(data, s, base, (n - 1) as nat) {
            lemma_element_graph(data, s1, base);
        }
    }
}

/// An array read from a good state leaves a good state with the same types
/// and remembered objects and more objects, and holds `len` good elements.
proof fn lemma_array_ok(data: Seq<u8>, s: ReadState, member: MemberView, len: nat)
    requires
        state_ok(s),
    ensures
        read_array(data, s, member, len) matches Some((s2, vs)) ==> {
            &&& state_ok(s2)
            &&& same_graph_grown(s, s2)
            &&& vs.len() == len
            &&& forall|i: int| 0 <= i < vs.len() ==> element_ok(#[trigger] vs[i], s2.objects.len(), false)
        },
    decreases remaining(data, s), 0int, 0int,
{
    if let Some((s2, vs)) = read_array(data, s, member, len) {
        let base = member.type_.spec_base_bits();
        if base == TYPE_STRUCT {
            let class_name = member.class_name->0;
            let ti = first_type_named(s.types, class_name, 0)->0;
            super::reader::lemma_first_type_named(s.types, class_name, 0);
            let members = s.types[ti].members;
            let (s1, exist) = super::format::read_bits(data, s, members.len() as usize)->0;
            let first = s1.objects.len();
            let empties = empty_objects(ti as usize, members.len(), len);
            let s1p = ReadState { objects: s1.objects + empties, ..s1 };
            assert(state_ok(s1));
            assert forall|i: int| s1.objects.len() <= i < s1p.objects.len() implies object_ok(
                s1p.types,
                #[trigger] s1p.objects[i],
                s1p.objects.len(),
                false,
            ) by {
                assert(s1p.objects[i] == empties[i - first]);
            }
            lemma_state_grown(s1, s1p);
            let columns = if members.len() == 0 {
                Some((s1p, Seq::<Option<Seq<HavokValueView>>>::empty()))
            } else {
                read_columns(data, s1p, members, exist, len, 0)
            };
            let (s3, cols) = columns->0;
            if members.len() > 0 {
                lemma_columns_ok(data, s1p, members, exist, len, 0);
            }
            let objs = struct_objects(ti as usize, members.len(), cols, len);
            let n2 = s3.objects.len();
            assert(s2.objects == fill_objects(s3.objects, first as int, objs));
            assert forall|k: int| 0 <= k < len implies object_ok(s2.types, #[trigger] objs[k], n2, false) by {
                let o = objs[k];
                assert forall|j: int| 0 <= j < o.data.len() implies (#[trigger] o.data[j] matches Some(v) ==> value_ok(v, n2, false)) by {
                    if let Some(c) = cols[j] {
                        assert(c[k] == o.data[j]->0);
                    }
                }
            }
            assert forall|i: int| 0 <= i < s2.objects.len() implies object_ok(s2.types, #[trigger] s2.objects[i], s2.objects.len(), false) by {
                if first <= i < first + len {
                    assert(s2.objects[i] == objs[i - first]);
                } else {
                    assert(s2.objects[i] == s3.objects[i]);
                }
            }
            assert forall|i: int| 0 <= i < s.objects.len() implies #[trigger] s2.objects[i] == s.objects[i] by {
                assert(s2.objects[i] == s3.objects[i]);
                assert(s3.objects[i] == s1p.objects[i]);
            }
            assert forall|i: int| 0 <= i < vs.len() implies element_ok(#[trigger] vs[i], s2.objects.len(), false) by {
                assert(vs[i] == HavokValueView::Object((first + i) as usize));
            }
        } else if base == super::types::TYPE_INT {
            let s1 = if s.file_version >= 3 {
                (read_packed(data, s)->0).0
            } else {
                s
            };
            lemma_elements_graph(data, s1, base, len);
        } else {
            lemma_elements_graph(data, s, base, len);
        }
    }
}

/// The columns of an array of structures, read from a good state: each
/// present column holds `len` good elements.
proof fn lemma_columns_ok(
    data: Seq<u8>,
    s: ReadState,
    members: Seq<MemberView>,
    exist: Seq<bool>,
    len: nat,
    i: int,
)
    requires
        state_ok(s),
    ensures
        read_columns(data, s, members, exist, len, i) matches Some((s2, cols)) ==> {
            &&& state_ok(s2)
            &&& same_graph_grown(s, s2)
            &&& cols.len() == (if 0 <= i <= members.len() {
                members.len() - i
            } else {
                0
            })
            &&& forall|m: int|
                0 <= m < cols.len() ==> (#[trigger] cols[m] matches Some(c) ==> c.len() == len && forall|k: int|
                    0 <= k < c.len() ==> element_ok(#[trigger] c[k], s2.objects.len(), false))
        },
    decreases remaining(data, s), 1int, members.len() - i,
{
    if let Some((s2, cols)) = read_columns(data, s, members, exist, len, i) {
        if 0 <= i < members.len() {
            if !exist[i] {
                lemma_columns_ok(data, s, members, exist, len, i + 1);
                let rest = (read_columns(data, s, members, exist, len, i + 1)->0).1;
                assert forall|m: int| 0 <= m < cols.len() implies (#[trigger] cols[m] matches Some(c) ==> c.len() == len && forall|k: int|
                    0 <= k < c.len() ==> element_ok(#[trigger] c[k], s2.objects.len(), false)) by {
                    if m > 0 {
                        assert(cols[m] == rest[m - 1]);
                    }
                }
            } else {
                lemma_array_ok(data, s, members[i], len);
                let (s1, col) = read_array(data, s, members[i], len)->0;
                lemma_columns_ok(data, s1, members, exist, len, i + 1);
                let rest = (read_columns(data, s1, members, exist, len, i + 1)->0).1;
                assert forall|m: int| 0 <= m < cols.len() implies (#[trigger] cols[m] matches Some(c) ==> c.len() == len && forall|k: int|
                    0 <= k < c.len() ==> element_ok(#[trigger] c[k], s2.objects.len(), false)) by {
                    if m > 0 {
                        assert(cols[m] == rest[m - 1]);
                    } else {
                        assert(cols[0] == Some(col));
                        assert forall|k: int| 0 <= k < col.len() implies element_ok(#[trigger] col[k], s2.objects.len(), false) by {
                            lemma_element_grow(col[k], s1.objects.len(), s2.objects.len());
                        }
                    }
                }
            }
        }
    }
}

/// A member value read from a good state.
proof fn lemma_member_value_ok(data: Seq<u8>, s: ReadState, member: MemberView)
    requires
        state_ok(s),
    ensures
        read_member_value(data, s, member) matches Some((s2, v)) ==> state_ok(s2) && same_graph_grown(
            s,
            s2,
        ) && value_ok(v, s2.objects.len(), false),
{
    lemma_string_graph(data, s);
    if member.type_.spec_is_array() {
        if let Some((s1, len)) = read_packed(data, s) {
            if len >= 0 {
                lemma_array_ok(data, s1, member, len as nat);
            }
        }
    }
}

proof fn lemma_object_values_ok(
    data: Seq<u8>,
    s: ReadState,
    members: Seq<MemberView>,
    exist: Seq<bool>,
    n: nat,
)
    requires
        state_ok(s),
    ensures
        read_object_values(data, s, members, exist, n) matches Some((s2, vs)) ==> {
            &&& state_ok(s2)
            &&& same_graph_grown(s, s2)
            &&& vs.len() == n
            &&& forall|i: int| 0 <= i < vs.len() ==> value_ok(#[trigger] vs[i], s2.objects.len(), false)
        },
    decreases n,
{
    if n > 0 {
        lemma_object_values_ok(data, s, members, exist, (n - 1) as nat);
        if let Some((s1, vs)) = read_object_values(data, s, members, exist, (n - 1) as nat) {
            if let Some((s2, all)) = read_object_values(data, s, members, exist, n) {
                let m = members[n - 1];
                if exist[n - 1] {
                    lemma_member_value_ok(data, s1, m);
                }
                assert forall|i: int| 0 <= i < all.len() implies value_ok(#[trigger] all[i], s2.objects.len(), false) by {
                    if i < vs.len() {
                        assert(all[i] == vs[i]);
                        lemma_value_grow(vs[i], s1.objects.len(), s2.objects.len());
                    }
                }
            }
        }
    }
}

proof fn lemma_member_decls_graph(data: Seq<u8>, s: ReadState, n: nat)
    ensures
        read_member_decls(data, s, n) matches Some((s1, _)) ==> s1.types == s.types && s1.objects
            == s.objects && s1.remembered == s.remembered,
    decreases n,
{
    if n > 0 {
        lemma_member_decls_graph(data, s, (n - 1) as nat);
        if let Some((s1, _)) = read_member_decls(data, s, (n - 1) as nat) {
            lemma_string_graph(data, s1);
            if let Some((s2, _)) = read_string(data, s1) {
                if let Some((s3, _)) = read_packed(data, s2) {
                    lemma_string_graph(data, s3);
                    if let Some((s4, _)) = read_packed(data, s3) {
                        lemma_string_graph(data, s4);
                    }
                }
            }
        }
    }
}

/// One record read from a good state leaves a good state.
proof fn lemma_record_ok(data: Seq<u8>, s: ReadState, tag: super::types::HavokTagType)
    requires
        state_ok(s),
    ensures
        read_record_body(data, s, tag) matches Some(s2) ==> state_ok(s2),
{
    if let Some(s2) = read_record_body(data, s, tag) {
        if tag == super::types::HavokTagType::FileInfo {
            let s1 = (read_packed(data, s)->0).0;
            let s3 = ReadState { file_version: 3, ..s1 };
            assert(object_ok(s3.types, ObjectView { object_type: 0, data: seq![] }, s3.objects.len() + 1, false));
            assert forall|i: int| s3.objects.len() <= i < s2.objects.len() implies object_ok(s2.types, #[trigger] s2.objects[i], s2.objects.len(), false) by {}
            lemma_state_grown(s, s2);
        } else if tag == super::types::HavokTagType::Type {
            lemma_string_graph(data, s);
            let (s1, name) = read_string(data, s)->0;
            let s2p = (read_packed(data, s1)->0).0;
            let s3p = (read_packed(data, s2p)->0).0;
            let (s4, mc) = read_packed(data, s3p)->0;
            let count: nat = if mc > 0 {
                mc as nat
            } else {
                0
            };
            lemma_member_decls_graph(data, s4, count);
            let (s5, t) = read_type_decl(data, s)->0;
            assert(s2.types == s5.types.push(t));
            assert forall|i: int| 0 <= i < s2.objects.len() implies object_ok(s2.types, #[trigger] s2.objects[i], s2.objects.len(), false) by {
                lemma_object_grow(s.types, s2.types, s.objects[i], s.objects.len(), s2.objects.len());
            }
        } else if tag == super::types::HavokTagType::ObjectRemember {
            let (s1, ti) = read_packed(data, s)->0;
            let members = s1.types[ti as int].members;
            let (s2b, exist) = super::format::read_bits(data, s1, members.len() as usize)->0;
            lemma_object_values_ok(data, s2b, members, exist, members.len());
            let (s3, vs) = read_object_values(data, s2b, members, exist, members.len())->0;
            let o = (read_object(data, s)->0).1;
            assert(object_ok(s3.types, o, s3.objects.len() + 1, false)) by {
                assert forall|j: int| 0 <= j < o.data.len() implies (#[trigger] o.data[j] matches Some(v) ==> value_ok(v, s3.objects.len() + 1, false)) by {
                    assert(o.data[j] == Some(vs[j]));
                    lemma_value_grow(vs[j], s3.objects.len(), s3.objects.len() + 1);
                }
            }
            assert(s2 == remember(s3, o));
            assert forall|i: int| s3.objects.len() <= i < s2.objects.len() implies object_ok(s2.types, #[trigger] s2.objects[i], s2.objects.len(), false) by {}
            lemma_state_grown(s3, s2);
        }
    }
}

proof fn lemma_records_ok(data: Seq<u8>, s: ReadState)
    requires
        state_ok(s),
    ensures
        read_records(data, s) matches Some(s2) ==> state_ok(s2),
    decreases remaining(data, s),
{
    if let Some((s1, raw)) = read_packed(data, s) {
        let tag = super::types::HavokTagType::spec_from_raw(raw as u8);
        if tag != super::types::HavokTagType::FileEnd {
            lemma_record_ok(data, s1, tag);
            if let Some(s2) = read_record_body(data, s1, tag) {
                if 0 <= s.cursor < s2.cursor <= data.len() {
                    lemma_records_ok(data, s2);
                }
            }
        }
    }
}

proof fn lemma_resolve_value(remembered: Seq<usize>, v: HavokValueView, n: nat)
    requires
        value_ok(v, n, false),
        forall|i: int| 0 <= i < remembered.len() ==> #[trigger] remembered[i] < n,
    ensures
        resolve_value(remembered, v) matches Some(w) ==> value_ok(w, n, true),
{
    if let Some(w) = resolve_value(remembered, v) {
        if let HavokValueView::Array(items) = v {
            let out = w->Array_0;
            assert forall|i: int| 0 <= i < out.len() implies element_ok(#[trigger] out[i], n, true) by {
                assert(element_ok(items[i], n, false));
                assert(out[i] == resolve_element(remembered, items[i])->0);
                if let HavokValueView::ObjectReference(x) = items[i] {
                    assert(remembered[x as int] < n);
                }
            }
        } else if let HavokValueView::ObjectReference(x) = v {
            assert(remembered[x as int] < n);
        }
    }
}

/// Type `i` extends a type declared before it, and its members are that
/// type's members followed by the ones it declares; only the built-in root
/// type extends nothing, and it has no members.
pub open spec fn type_inherits(types: Seq<TypeView>, i: int) -> bool {
    match types[i].parent {
        None => types[i].members.len() == 0 && types[i].declared.len() == 0,
        Some(p) => {
            &&& p < i
            &&& types[i].members == types[p as int].members + types[i].declared
        },
    }
}

/// Every type inherits as [`type_inherits`] says.
pub open spec fn types_ok(types: Seq<TypeView>) -> bool {
    forall|i: int| 0 <= i < types.len() ==> #[trigger] type_inherits(types, i)
}

proof fn lemma_record_types(data: Seq<u8>, s: ReadState, tag: super::types::HavokTagType)
    requires
        state_ok(s),
        types_ok(s.types),
    ensures
        read_record_body(data, s, tag) matches Some(s2) ==> types_ok(s2.types),
{
    if let Some(s2) = read_record_body(data, s, tag) {
        if tag == super::types::HavokTagType::Type {
            lemma_string_graph(data, s);
            let (s1, name) = read_string(data, s)->0;
            let s2p = (read_packed(data, s1)->0).0;
            let s3p = (read_packed(data, s2p)->0).0;
            let (s4, mc) = read_packed(data, s3p)->0;
            let count: nat = if mc > 0 {
                mc as nat
            } else {
                0
            };
            lemma_member_decls_graph(data, s4, count);
            let (s5, t) = read_type_decl(data, s)->0;
            assert(s2.types == s5.types.push(t));
            assert(s5.types == s.types);
            let n = s.types.len() as int;
            assert forall|i: int| 0 <= i < s2.types.len() implies #[trigger] type_inherits(s2.types, i) by {
                if i < n {
                    assert(type_inherits(s.types, i));
                    if let Some(p) = s.types[i].parent {
                        assert(s2.types[p as int] == s.types[p as int]);
                    }
                } else {
                    let p = t.parent->0;
                    assert(s2.types[p as int] == s.types[p as int]);
                }
            }
        } else if tag == super::types::HavokTagType::ObjectRemember {
            let (s1, ti) = read_packed(data, s)->0;
            let members = s1.types[ti as int].members;
            let (s2b, exist) = super::format::read_bits(data, s1, members.len() as usize)->0;
            lemma_object_values_ok(data, s2b, members, exist, members.len());
        }
    }
}

proof fn lemma_records_types(data: Seq<u8>, s: ReadState)
    requires
        state_ok(s),
        types_ok(s.types),
    ensures
        read_records(data, s) matches Some(s2) ==> types_ok(s2.types),
    decreases remaining(data, s),
{
    if let Some((s1, raw)) = read_packed(data, s) {
        let tag = super::types::HavokTagType::spec_from_raw(raw as u8);
        if tag != super::types::HavokTagType::FileEnd {
            lemma_record_ok(data, s1, tag);
            lemma_record_types(data, s1, tag);
            if let Some(s2) = read_record_body(data, s1, tag) {
                if 0 <= s.cursor < s2.cursor <= data.len() {
                    lemma_records_types(data, s2);
                }
            }
        }
    }
}

/// Every type of a file that reads successfully extends a type declared
/// before it, and its members are that type's members followed by its own.
pub proof fn lemma_read_types_inherit(data: Seq<u8>)
    ensures
        spec_read(data) matches Some(f) ==> types_ok(f.types),
{
    if let Some(f) = spec_read(data) {
        let s0 = at(initial_state(), 8);
        assert(state_ok(s0));
        assert(type_inherits(s0.types, 0));
        lemma_records_types(data, s0);
    }
}

/// Every file that reads successfully has a closed object graph.
pub proof fn lemma_read_closed(data: Seq<u8>)
    ensures
        spec_read(data) matches Some(f) ==> file_closed(f),
{
    if let Some(f) = spec_read(data) {
        let s0 = at(initial_state(), 8);
        assert(state_ok(s0));
        lemma_records_ok(data, s0);
        let s = read_records(data, s0)->0;
        let objs = resolve_objects(s.remembered, s.objects)->0;
        assert(f.objects == objs);
        assert(s.remembered[1] < s.objects.len());
        assert forall|i: int| 0 <= i < objs.len() implies object_ok(f.types, #[trigger] objs[i], objs.len(), true) by {
            let o = s.objects[i];
            assert(resolve_object(s.remembered, o) is Some);
            let r = resolve_object(s.remembered, o)->0;
            assert(objs[i] == r);
            assert(object_ok(s.types, o, s.objects.len(), false));
            assert forall|j: int| 0 <= j < r.data.len() implies (#[trigger] r.data[j] matches Some(v) ==> value_ok(v, objs.len(), true)) by {
                assert(resolve_slot(s.remembered, o.data[j]) is Some);
                if let Some(v) = o.data[j] {
                    lemma_resolve_value(s.remembered, v, s.objects.len());
                }
            }
        }
    }
}

/// A member value whose references are resolved resolves to itself.
proof fn lemma_resolve_value_again(remembered: Seq<usize>, v: HavokValueView)
    requires
        resolve_value(remembered, v) is Some,
    ensures
        resolve_value(remembered, resolve_value(remembered, v)->0) == resolve_value(remembered, v),
{
    if let HavokValueView::Array(items) = v {
        let x = resolve_value(remembered, v)->0;
        let resolved = Seq::new(items.len(), |i: int| resolve_element(remembered, items[i])->0);
        assert(x == HavokValueView::Array(resolved));
        assert forall|i: int| 0 <= i < resolved.len() implies #[trigger] resolve_element(remembered, resolved[i])
            == Some(resolved[i]) by {
            assert(resolve_element(remembered, items[i]) is Some);
        }
        assert(Seq::new(resolved.len(), |i: int| resolve_element(remembered, resolved[i])->0) =~= resolved);
    }
}

/// Resolving the references of an object a second time changes nothing:
/// once resolved, an object holds no reference left to resolve.
pub proof fn lemma_resolve_object_again(remembered: Seq<usize>, o: ObjectView)
    requires
        resolve_object(remembered, o) is Some,
    ensures
        resolve_object(remembered, resolve_object(remembered, o)->0) == resolve_object(remembered, o),
{
    let r = resolve_object(remembered, o)->0;
    assert forall|j: int| 0 <= j < r.data.len() implies #[trigger] resolve_slot(remembered, r.data[j]) == Some(
        r.data[j],
    ) by {
        assert(resolve_slot(remembered, o.data[j]) is Some);
        if let Some(v) = o.data[j] {
            lemma_resolve_value_again(remembered, v);
        }
    }
    assert(Seq::new(r.data.len(), |j: int| resolve_slot(remembered, r.data[j])->0) =~= r.data);
}

} // verus!
