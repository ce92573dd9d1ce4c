//! Field descriptors that drive the generic record codec.
//!
//! A type that wants to ride the replication substrate exposes an ordered
//! list of field descriptors; the codec walks the list and encodes or
//! decodes one value per descriptor, in declared order.  Values are carried
//! in [`FieldValue`]; a float travels as its raw 32-bit pattern, never as
//! text.

use vstd::prelude::*;

verus! {

/// The kind of one reflected field.
#[derive(Clone, Copy, Debug, PartialEq, Eq, Structural)]
pub enum Ty {
    /// A 32-bit unsigned integer.
    Int,
    /// A text value, carried as length-prefixed bytes.
    Text,
    /// A 32-bit float, carried as its raw bit pattern.
    Float,
}

/// One reflected value, as the codec carries it.
#[derive(Debug)]
pub enum FieldValue {
    /// A 32-bit unsigned integer.
    Int(u32),
    /// A text value.
    Text(String),
    /// The raw bit pattern of a 32-bit float.
    Float(u32),
}

/// The mathematical shape of one reflected value.
pub enum FieldValView {
    /// A 32-bit unsigned integer.
    Int(u32),
    /// A text value, as its characters.
    Text(Seq<char>),
    /// The raw bit pattern of a 32-bit float.
    Float(u32),
}

impl View for FieldValue {
    type V = FieldValView;

    open spec fn view(&self) -> FieldValView {
        match self {
            FieldValue::Int(v) => FieldValView::Int(*v),
            FieldValue::Text(s) => FieldValView::Text(s@),
            FieldValue::Float(p) => FieldValView::Float(*p),
        }
    }
}

/// The views of a list of reflected values.
pub open spec fn field_views(s: Seq<FieldValue>) -> Seq<FieldValView> {
    s.map_values(|f: FieldValue| f@)
}

/// A value is of a kind when its variant matches the kind's.
pub open spec fn value_has_kind(t: Ty, f: FieldValView) -> bool {
    match t {
        Ty::Int => f is Int,
        Ty::Text => f is Text,
        Ty::Float => f is Float,
    }
}

/// A value list matches a kind list when they pair up one to one.
pub open spec fn values_match(ts: Seq<Ty>, fs: Seq<FieldValView>) -> bool {
    &&& ts.len() == fs.len()
    &&& forall|i: int| 0 <= i < ts.len() ==> value_has_kind(ts[i], #[trigger] fs[i])
}

impl FieldValue {
    /// A value-identical copy.
    pub fn duplicate(&self) -> (r: Self)
        ensures
            r@ == self@,
    {
        match self {
            FieldValue::Int(v) => FieldValue::Int(*v),
            FieldValue::Text(s) => FieldValue::Text(s.clone()),
            FieldValue::Float(p) => FieldValue::Float(*p),
        }
    }
}

/// A value-identical copy of a whole field list.
pub fn duplicate_fields(fields: &Vec<FieldValue>) -> (r: Vec<FieldValue>)
    ensures
        field_views(r@) == field_views(fields@),
{
    let mut out: Vec<FieldValue> = Vec::new();
    let mut i: usize = 0;
    while i < fields.len()
        invariant
            i <= fields@.len(),
            out@.len() == i,
            forall|j: int| 0 <= j < i ==> #[trigger] out@[j]@ == fields@[j]@,
        decreases fields@.len() - i,
    {
        out.push(fields[i].duplicate());
        i = i + 1;
    }
    proof {
        assert(field_views(out@) =~= field_views(fields@));
    }
    out
}

/// One reflected field: a name for the reader, and the kind the codec
/// dispatches on.  Fields are encoded in declared order, so the descriptor
/// carries no placement of its own.
#[derive(Debug)]
pub struct MemberField {
    /// The field's name, for diagnostics; the wire format never carries it.
    pub name: String,
    /// The kind the codec dispatches on.
    pub ty: Ty,
}

impl MemberField {
    /// A descriptor for one field.
    pub fn new(name: String, ty: Ty) -> (r: Self)
        ensures
            r.name == name,
            r.ty == ty,
    {
        Self { name, ty }
    }
}

/// The ordered field descriptors of one replicated type.
#[derive(Debug)]
pub struct UserDefinedType {
    /// The descriptors, in the order the codec walks them.
    pub fields: Vec<MemberField>,
}

impl UserDefinedType {
    /// A descriptor list for one type.
    pub fn new(fields: Vec<MemberField>) -> (r: Self)
        ensures
            r.fields == fields,
    {
        Self { fields }
    }

    /// The kinds of the fields, in declared order.
    pub open spec fn kinds(&self) -> Seq<Ty> {
        self.fields@.map_values(|f: MemberField| f.ty)
    }
}

/// A type that exposes a field descriptor list for the generic codec.
pub trait Reflect {
    /// The ordered descriptors of this type's replicated fields.
    fn reflect(&self) -> UserDefinedType;
}

} // verus!
