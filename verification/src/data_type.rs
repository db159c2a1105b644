//! Wire types: what a slot carries, and the element kinds of lists.

use vstd::prelude::*;

verus! {

/// Element kind of a homogeneous, flat list.
#[derive(Debug, PartialEq, Eq, Clone, Copy, Structural)]
pub enum ListElem {
    Number,
    String,
    Bool,
    Vector3,
    Color,
    Interval,
    Plane,
}

/// The type a slot carries. Two slots connect only when their types agree;
/// `Domain` types agree when their names are the same text.
#[derive(Debug, Clone, Copy)]
pub enum DataType {
    Number,
    String,
    Mesh,
    Vector3,
    Color,
    Vertices,
    Bool,
    Interval,
    Plane,
    Transform,
    List(ListElem),
    BRep,
    Domain(&'static str),
}

/// Compares two texts through `str`'s `==`, which compares their
/// characters.
#[verifier::external_body]
pub(crate) fn str_eq(a: &str, b: &str) -> (r: bool)
    ensures
        r == (a@ == b@),
{
    a == b
}

/// Type equality: the same variant, with the same element kind or the
/// same domain name.
pub open spec fn same_type(a: DataType, b: DataType) -> bool {
    match (a, b) {
        (DataType::Number, DataType::Number) => true,
        (DataType::String, DataType::String) => true,
        (DataType::Mesh, DataType::Mesh) => true,
        (DataType::Vector3, DataType::Vector3) => true,
        (DataType::Color, DataType::Color) => true,
        (DataType::Vertices, DataType::Vertices) => true,
        (DataType::Bool, DataType::Bool) => true,
        (DataType::Interval, DataType::Interval) => true,
        (DataType::Plane, DataType::Plane) => true,
        (DataType::Transform, DataType::Transform) => true,
        (DataType::List(x), DataType::List(y)) => x == y,
        (DataType::BRep, DataType::BRep) => true,
        (DataType::Domain(x), DataType::Domain(y)) => x@ == y@,
        _ => false,
    }
}

impl PartialEq for DataType {
    fn eq(&self, other: &Self) -> (r: bool) {
        match (self, other) {
            (DataType::Number, DataType::Number) => true,
            (DataType::String, DataType::String) => true,
            (DataType::Mesh, DataType::Mesh) => true,
            (DataType::Vector3, DataType::Vector3) => true,
            (DataType::Color, DataType::Color) => true,
            (DataType::Vertices, DataType::Vertices) => true,
            (DataType::Bool, DataType::Bool) => true,
            (DataType::Interval, DataType::Interval) => true,
            (DataType::Plane, DataType::Plane) => true,
            (DataType::Transform, DataType::Transform) => true,
            (DataType::List(x), DataType::List(y)) => *x == *y,
            (DataType::BRep, DataType::BRep) => true,
            (DataType::Domain(x), DataType::Domain(y)) => str_eq(x, y),
            _ => false,
        }
    }
}

impl vstd::std_specs::cmp::PartialEqSpecImpl for DataType {
    open spec fn obeys_eq_spec() -> bool {
        true
    }

    open spec fn eq_spec(&self, other: &DataType) -> bool {
        same_type(*self, *other)
    }
}

impl Eq for DataType {}

impl Default for DataType {
    fn default() -> (r: Self)
        ensures
            r == DataType::Number,
    {
        DataType::Number
    }
}

/// Human-readable label of a type.
pub open spec fn label_text(t: DataType) -> Seq<char> {
    match t {
        DataType::Number => "Number"@,
        DataType::String => "String"@,
        DataType::Mesh => "Mesh"@,
        DataType::Vector3 => "Vector3"@,
        DataType::Color => "Color"@,
        DataType::Vertices => "Vertices"@,
        DataType::Bool => "Bool"@,
        DataType::Interval => "Interval"@,
        DataType::Plane => "Plane"@,
        DataType::Transform => "Transform"@,
        DataType::List(e) => match e {
            ListElem::Number => "List<Number>"@,
            ListElem::String => "List<String>"@,
            ListElem::Bool => "List<Bool>"@,
            ListElem::Vector3 => "List<Vector3>"@,
            ListElem::Color => "List<Color>"@,
            ListElem::Interval => "List<Interval>"@,
            ListElem::Plane => "List<Plane>"@,
        },
        DataType::BRep => "BRep"@,
        DataType::Domain(name) => name@,
    }
}

/// The standard (non-domain) types offered by pickers, in display order.
pub open spec fn standard_type_list() -> Seq<DataType> {
    seq![
        DataType::Number,
        DataType::String,
        DataType::Bool,
        DataType::Interval,
        DataType::Plane,
        DataType::Transform,
        DataType::List(ListElem::Number),
        DataType::List(ListElem::Vector3),
        DataType::Vector3,
        DataType::Color,
        DataType::Mesh,
        DataType::Vertices,
        DataType::BRep,
    ]
}

/// Field names of the composite types; empty for every other type.
pub open spec fn field_name_list(t: DataType) -> Seq<Seq<char>> {
    match t {
        DataType::Vector3 => seq!["x"@, "y"@, "z"@],
        DataType::Color => seq!["r"@, "g"@, "b"@, "a"@],
        DataType::Interval => seq!["t0"@, "t1"@],
        _ => Seq::empty(),
    }
}

impl DataType {
    /// Human-readable label for this data type.
    pub fn label(&self) -> (r: &str)
        ensures
            r@ == label_text(*self),
    {
        match self {
            DataType::Number => "Number",
            DataType::String => "String",
            DataType::Mesh => "Mesh",
            DataType::Vector3 => "Vector3",
            DataType::Color => "Color",
            DataType::Vertices => "Vertices",
            DataType::Bool => "Bool",
            DataType::Interval => "Interval",
            DataType::Plane => "Plane",
            DataType::Transform => "Transform",
            DataType::List(elem) => match elem {
                ListElem::Number => "List<Number>",
                ListElem::String => "List<String>",
                ListElem::Bool => "List<Bool>",
                ListElem::Vector3 => "List<Vector3>",
                ListElem::Color => "List<Color>",
                ListElem::Interval => "List<Interval>",
                ListElem::Plane => "List<Plane>",
            },
            DataType::BRep => "BRep",
            DataType::Domain(name) => name,
        }
    }

    /// All standard (non-Domain) data types, in the order UI pickers list
    /// them.
    pub fn standard_types() -> (r: Vec<DataType>)
        ensures
            r@ == standard_type_list(),
    {
        let r = vec![
            DataType::Number,
            DataType::String,
            DataType::Bool,
            DataType::Interval,
            DataType::Plane,
            DataType::Transform,
            DataType::List(ListElem::Number),
            DataType::List(ListElem::Vector3),
            DataType::Vector3,
            DataType::Color,
            DataType::Mesh,
            DataType::Vertices,
            DataType::BRep,
        ];
        assert(r@ =~= standard_type_list());
        r
    }

    /// Field names for composite types. Primitive types give none.
    pub fn field_names(&self) -> (r: Vec<&'static str>)
        ensures
            r@.map_values(|s: &'static str| s@) == field_name_list(*self),
    {
        let r = match self {
            DataType::Vector3 => vec!["x", "y", "z"],
            DataType::Color => vec!["r", "g", "b", "a"],
            DataType::Interval => vec!["t0", "t1"],
            _ => Vec::new(),
        };
        assert(r@.map_values(|s: &'static str| s@) =~= field_name_list(*self));
        r
    }

    /// Whether the type is a composite with named fields.
    pub fn is_composite(&self) -> (r: bool)
        ensures
            r == (field_name_list(*self).len() > 0),
    {
        match self {
            DataType::Vector3 | DataType::Color | DataType::Interval => true,
            _ => false,
        }
    }

    /// Whether a value of this type carries an arbitrary payload whose
    /// concrete type is not implied by the type (Mesh, BRep, Domain).
    pub fn is_opaque_payload(&self) -> (r: bool)
        ensures
            r == (*self is Mesh || *self is BRep || *self is Domain),
    {
        match self {
            DataType::Mesh | DataType::BRep | DataType::Domain(_) => true,
            _ => false,
        }
    }
}

} // verus!
