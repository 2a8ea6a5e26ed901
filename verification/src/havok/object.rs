//! The decoded object model: values, member declarations, object types and objects.
//!
//! Objects live in one table and refer to each other by their index in it.
//! A 32-bit float is kept as the four bytes that encode it, read as a
//! little-endian `u32` (its IEEE-754 bit pattern).
use vstd::prelude::*;

use super::types::HavokValueType;

verus! {

/// One decoded value.
pub enum HavokValue {
    Integer(i32),
    /// The bit pattern of a 32-bit float.
    Real(u32),
    String(String),
    /// The bit patterns of the floats of a vector.
    Vec(Vec<u32>),
    Array(Vec<HavokValue>),
    /// An object, by its index in the object table.
    Object(usize),
    /// A reference, by its position among the remembered objects, that is not resolved yet.
    ObjectReference(usize),
}

/// What a [`HavokValue`] holds.
pub enum HavokValueView {
    Integer(i32),
    Real(u32),
    String(Seq<char>),
    Vec(Seq<u32>),
    Array(Seq<HavokValueView>),
    Object(usize),
    ObjectReference(usize),
}

pub open spec fn view_value(v: HavokValue) -> HavokValueView
    decreases v,
{
    match v {
        HavokValue::Integer(i) => HavokValueView::Integer(i),
        HavokValue::Real(r) => HavokValueView::Real(r),
        HavokValue::String(s) => HavokValueView::String(s@),
        HavokValue::Vec(v) => HavokValueView::Vec(v@),
        HavokValue::Array(items) => HavokValueView::Array(
            Seq::new(
                items@.len(),
                |i: int|
                    {
                        if 0 <= i < items@.len() {
                            proof {
                                assert(decreases_to!(items => items@));
                            }
                            view_value(items@[i])
                        } else {
                            HavokValueView::Integer(0)
                        }
                    },
            ),
        ),
        HavokValue::Object(o) => HavokValueView::Object(o),
        HavokValue::ObjectReference(o) => HavokValueView::ObjectReference(o),
    }
}

impl View for HavokValue {
    type V = HavokValueView;

    open spec fn view(&self) -> HavokValueView {
        view_value(*self)
    }
}

/// The views of a sequence of values.
pub open spec fn view_values(s: Seq<HavokValue>) -> Seq<HavokValueView> {
    s.map_values(|v: HavokValue| v@)
}

/// The views of the member slots of an object.
pub open spec fn view_slots(s: Seq<Option<HavokValue>>) -> Seq<Option<HavokValueView>> {
    s.map_values(
        |v: Option<HavokValue>|
            match v {
                Some(x) => Some(x@),
                None => None,
            },
    )
}

impl HavokValue {
    /// A copy of the value.
    pub fn duplicate(&self) -> (r: Self)
        ensures
            r@ == self@,
        decreases self,
    {
        match self {
            HavokValue::Integer(i) => HavokValue::Integer(*i),
            HavokValue::Real(r) => HavokValue::Real(*r),
            HavokValue::String(s) => HavokValue::String(s.clone()),
            HavokValue::Vec(v) => {
                let mut out: Vec<u32> = Vec::new();
                let mut i: usize = 0;
                while i < v.len()
                    invariant
                        i <= v@.len(),
                        out@ =~= v@.take(i as int),
                    decreases v@.len() - i,
                {
                    out.push(v[i]);
                    i = i + 1;
                }
                assert(out@ =~= v@);
                HavokValue::Vec(out)
            },
            HavokValue::Array(items) => {
                let mut out: Vec<HavokValue> = Vec::new();
                let mut i: usize = 0;
                while i < items.len()
                    invariant
                        *self == HavokValue::Array(*items),
                        i <= items@.len(),
                        out@.len() == i,
                        forall|j: int| 0 <= j < i ==> (#[trigger] out@[j])@ == items@[j]@,
                    decreases items@.len() - i,
                {
                    proof {
                        assert(decreases_to!(*self => self->Array_0));
                        assert(decreases_to!(*items => items@));
                        assert(decreases_to!(items@ => items@[i as int]));
                        assert(decreases_to!(*self => items@[i as int]));
                    }
                    let item = items[i].duplicate();
                    out.push(item);
                    i = i + 1;
                }
                let r = HavokValue::Array(out);
                proof {
                    lemma_view_array(out);
                    lemma_view_array(*items);
                    assert(view_values(out@) =~= view_values(items@));
                }
                r
            },
            HavokValue::Object(o) => HavokValue::Object(*o),
            HavokValue::ObjectReference(o) => HavokValue::ObjectReference(*o),
        }
    }
}

pub proof fn lemma_view_array(items: Vec<HavokValue>)
    ensures
        HavokValue::Array(items)@ == HavokValueView::Array(view_values(items@)),
{
    assert(view_value(HavokValue::Array(items))->Array_0 =~= view_values(items@));
}

/// A member declaration of an object type.
pub struct HavokObjectTypeMember {
    pub name: String,
    pub type_: HavokValueType,
    pub tuple_size: u32,
    pub class_name: Option<String>,
}

/// What a [`HavokObjectTypeMember`] declares.
pub struct MemberView {
    pub name: Seq<char>,
    pub type_: HavokValueType,
    pub tuple_size: u32,
    pub class_name: Option<Seq<char>>,
}

impl View for HavokObjectTypeMember {
    type V = MemberView;

    open spec fn view(&self) -> MemberView {
        MemberView {
            name: self.name@,
            type_: self.type_,
            tuple_size: self.tuple_size,
            class_name: match self.class_name {
                Some(c) => Some(c@),
                None => None,
            },
        }
    }
}

impl HavokObjectTypeMember {
    pub fn new(name: String, type_: HavokValueType, tuple_size: u32, class_name: Option<String>) -> (r: Self)
        ensures
            r.name == name,
            r.type_ == type_,
            r.tuple_size == tuple_size,
            r.class_name == class_name,
    {
        HavokObjectTypeMember { name, type_, tuple_size, class_name }
    }

    /// A copy of the declaration.
    pub fn duplicate(&self) -> (r: Self)
        ensures
            r@ == self@,
    {
        let class_name = match &self.class_name {
            Some(c) => Some(c.clone()),
            None => None,
        };
        HavokObjectTypeMember {
            name: self.name.clone(),
            type_: self.type_,
            tuple_size: self.tuple_size,
            class_name,
        }
    }
}

/// An object type: its name, the type it extends, the members it declares
/// itself, and every member, those of the parent first, then its own.
pub struct HavokObjectType {
    pub name: String,
    pub parent: Option<usize>,
    pub declared: Vec<HavokObjectTypeMember>,
    pub members: Vec<HavokObjectTypeMember>,
}

/// What a [`HavokObjectType`] declares.
pub struct TypeView {
    pub name: Seq<char>,
    pub parent: Option<usize>,
    /// The members in the order of the type's own declaration.
    pub declared: Seq<MemberView>,
    /// Every member, the inherited ones first.
    pub members: Seq<MemberView>,
}

pub open spec fn view_members(s: Seq<HavokObjectTypeMember>) -> Seq<MemberView> {
    s.map_values(|m: HavokObjectTypeMember| m@)
}

impl View for HavokObjectType {
    type V = TypeView;

    open spec fn view(&self) -> TypeView {
        TypeView {
            name: self.name@,
            parent: self.parent,
            declared: view_members(self.declared@),
            members: view_members(self.members@),
        }
    }
}

impl HavokObjectType {
    pub fn new(
        name: String,
        parent: Option<usize>,
        declared: Vec<HavokObjectTypeMember>,
        members: Vec<HavokObjectTypeMember>,
    ) -> (r: Self)
        ensures
            r.name == name,
            r.parent == parent,
            r.declared == declared,
            r.members == members,
    {
        HavokObjectType { name, parent, declared, members }
    }

    /// A copy of the type.
    pub fn duplicate(&self) -> (r: Self)
        ensures
            r@ == self@,
    {
        HavokObjectType {
            name: self.name.clone(),
            parent: self.parent,
            declared: duplicate_members(&self.declared),
            members: duplicate_members(&self.members),
        }
    }

    /// Number of members, inherited ones included.
    pub fn member_count(&self) -> (r: usize)
        ensures
            r == self@.members.len(),
    {
        self.members.len()
    }
}

/// A copy of a list of member declarations.
pub fn duplicate_members(members: &Vec<HavokObjectTypeMember>) -> (r: Vec<HavokObjectTypeMember>)
    ensures
        view_members(r@) == view_members(members@),
{
    let mut out: Vec<HavokObjectTypeMember> = Vec::new();
    let mut i: usize = 0;
    while i < members.len()
        invariant
            i <= members@.len(),
            out@.len() == i,
            forall|j: int| 0 <= j < i ==> (#[trigger] out@[j])@ == members@[j]@,
        decreases members@.len() - i,
    {
        out.push(members[i].duplicate());
        i = i + 1;
    }
    assert(view_members(out@) =~= view_members(members@));
    out
}

/// An object: the index of its type and one slot per member of that type,
/// empty where the file gives the member no value.
pub struct HavokObject {
    pub object_type: usize,
    pub data: Vec<Option<HavokValue>>,
}

/// What a [`HavokObject`] holds.
pub struct ObjectView {
    pub object_type: usize,
    pub data: Seq<Option<HavokValueView>>,
}

impl View for HavokObject {
    type V = ObjectView;

    open spec fn view(&self) -> ObjectView {
        ObjectView { object_type: self.object_type, data: view_slots(self.data@) }
    }
}

impl HavokObject {
    pub fn new(object_type: usize, data: Vec<Option<HavokValue>>) -> (r: Self)
        ensures
            r.object_type == object_type,
            r.data == data,
    {
        HavokObject { object_type, data }
    }

    /// The value of member `index`, if the object has one.
    pub fn get(&self, index: usize) -> (r: Option<&HavokValue>)
        ensures
            index < self.data@.len() && self.data@[index as int] is Some ==> r == Some(
                &self.data@[index as int]->0,
            ),
            !(index < self.data@.len() && self.data@[index as int] is Some) ==> r is None,
    {
        if index < self.data.len() {
            match &self.data[index] {
                Some(v) => Some(v),
                None => None,
            }
        } else {
            None
        }
    }
}

} // verus!
