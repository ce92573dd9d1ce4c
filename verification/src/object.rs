//! Networked objects: a process-wide identity, a class tag for factory
//! lookup, and the reflected field values the codec replicates.

use crate::reflect::{
    duplicate_fields, field_views, FieldValView, FieldValue, MemberField, Reflect, Ty,
    UserDefinedType,
};
use vstd::prelude::*;

verus! {

/// Anything with a stable identity and a class tag can ride the
/// replication substrate.
pub trait GameObject {
    /// The process-wide identity, stable for the object's lifetime.
    fn id(&self) -> usize;

    /// The class tag used for factory lookup on first contact.
    fn class_id(&self) -> u32;
}

/// A replicated object as the substrate carries it: identity, class tag,
/// and the reflected field values in declared order.
#[derive(Debug)]
pub struct NetObject {
    /// The process-wide identity.
    pub id: usize,
    /// The class tag.
    pub class_id: u32,
    /// The reflected field values, in declared order.
    pub fields: Vec<FieldValue>,
}

/// The mathematical shape of a replicated object.
pub struct ObjView {
    /// The process-wide identity.
    pub id: usize,
    /// The class tag.
    pub class_id: u32,
    /// The reflected field values.
    pub fields: Seq<FieldValView>,
}

impl View for NetObject {
    type V = ObjView;

    open spec fn view(&self) -> ObjView {
        ObjView { id: self.id, class_id: self.class_id, fields: field_views(self.fields@) }
    }
}

impl NetObject {
    /// An object from its parts.
    pub fn new(id: usize, class_id: u32, fields: Vec<FieldValue>) -> (r: Self)
        ensures
            r@ == (ObjView { id, class_id, fields: field_views(fields@) }),
    {
        Self { id, class_id, fields }
    }

    /// A value-identical copy.
    pub fn duplicate(&self) -> (r: Self)
        ensures
            r@ == self@,
    {
        let r = Self {
            id: self.id,
            class_id: self.class_id,
            fields: duplicate_fields(&self.fields),
        };
        r
    }
}

impl GameObject for NetObject {
    fn id(&self) -> usize {
        self.id
    }

    fn class_id(&self) -> u32 {
        self.class_id
    }
}

/// The sample payload type: a cat with a health counter, a meow counter,
/// and a name.
#[derive(Debug)]
pub struct RoboCat {
    /// The process-wide identity.
    pub id: usize,
    /// Hit points.
    pub health: u32,
    /// How often the cat has meowed.
    pub meow_count: u32,
    /// The cat's name.
    pub name: String,
}

impl RoboCat {
    /// The class tag under which the cat's factory is registered.
    pub fn type_id() -> (r: u32)
        ensures
            r == 1u32,
    {
        1
    }

    /// The cat's reflected field values, in the order its descriptors
    /// declare.
    pub fn field_values(&self) -> (r: Vec<FieldValue>)
        ensures
            field_views(r@) == seq![
                FieldValView::Int(self.health),
                FieldValView::Int(self.meow_count),
                FieldValView::Text(self.name@),
            ],
    {
        let mut fields: Vec<FieldValue> = Vec::new();
        fields.push(FieldValue::Int(self.health));
        fields.push(FieldValue::Int(self.meow_count));
        fields.push(FieldValue::Text(self.name.clone()));
        proof {
            assert(field_views(fields@) =~= seq![
                FieldValView::Int(self.health),
                FieldValView::Int(self.meow_count),
                FieldValView::Text(self.name@),
            ]);
        }
        fields
    }

    /// The cat as the substrate carries it.
    pub fn to_net_object(&self) -> (r: NetObject)
        ensures
            r@.id == self.id,
            r@.class_id == 1u32,
            r@.fields == seq![
                FieldValView::Int(self.health),
                FieldValView::Int(self.meow_count),
                FieldValView::Text(self.name@),
            ],
    {
        NetObject::new(self.id, Self::type_id(), self.field_values())
    }

    /// A cat rebuilt from replicated field values; values of unexpected
    /// kinds fall back to the default field.
    pub fn from_net_object(o: &NetObject) -> (r: Self)
        requires
            o@.fields.len() == 3,
        ensures
            r.id == o@.id,
            o@.fields[0] matches FieldValView::Int(h) ==> r.health == h,
            o@.fields[1] matches FieldValView::Int(m) ==> r.meow_count == m,
            o@.fields[2] matches FieldValView::Text(n) ==> r.name@ == n,
    {
        let mut cat = RoboCat {
            id: o.id,
            health: 10,
            meow_count: 3,
            name: String::new(),
        };
        match &o.fields[0] {
            FieldValue::Int(h) => {
                cat.health = *h;
            },
            _ => {},
        }
        match &o.fields[1] {
            FieldValue::Int(m) => {
                cat.meow_count = *m;
            },
            _ => {},
        }
        match &o.fields[2] {
            FieldValue::Text(n) => {
                cat.name = n.clone();
            },
            _ => {},
        }
        cat
    }
}

impl Default for RoboCat {
    /// A fresh cat with the default health and meow count, no name, and
    /// the zero identity; callers give it a real identity before
    /// registering it.
    fn default() -> (r: Self)
        ensures
            r.id == 0,
            r.health == 10,
            r.meow_count == 3,
            r.name@ == Seq::<char>::empty(),
    {
        Self { id: 0, health: 10, meow_count: 3, name: String::new() }
    }
}

impl GameObject for RoboCat {
    fn id(&self) -> usize {
        self.id
    }

    fn class_id(&self) -> u32 {
        1
    }
}

impl Reflect for RoboCat {
    fn reflect(&self) -> UserDefinedType {
        let mut fields: Vec<MemberField> = Vec::new();
        fields.push(MemberField::new("health".to_owned(), Ty::Int));
        fields.push(MemberField::new("meow_count".to_owned(), Ty::Int));
        fields.push(MemberField::new("name".to_owned(), Ty::Text));
        UserDefinedType::new(fields)
    }
}

} // verus!
