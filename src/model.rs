//! Table schemas and the alteration planner.
use vstd::prelude::*;

verus! {

/// The base class of a type layer.
#[derive(Clone, Copy, Debug, PartialEq, Eq, Structural)]
pub enum TypeClass {
    Bool,
    UnsignedInt,
    SignedInt,
    Float,
    Bin,
    Str,
    List,
}

/// One level of a field's type; a `List` layer is followed by the layers of its items.
#[derive(Clone, Copy, Debug, PartialEq, Eq, Structural)]
pub enum Layer {
    Bool,
    UInt8,
    UInt16,
    UInt32,
    UInt64,
    SInt8,
    SInt16,
    SInt32,
    SInt64,
    Float32,
    Float64,
    Bin,
    Str,
    List,
}

impl Layer {
    pub open spec fn spec_class(self) -> TypeClass {
        match self {
            Layer::Bool => TypeClass::Bool,
            Layer::UInt8 | Layer::UInt16 | Layer::UInt32 | Layer::UInt64 => TypeClass::UnsignedInt,
            Layer::SInt8 | Layer::SInt16 | Layer::SInt32 | Layer::SInt64 => TypeClass::SignedInt,
            Layer::Float32 | Layer::Float64 => TypeClass::Float,
            Layer::Bin => TypeClass::Bin,
            Layer::Str => TypeClass::Str,
            Layer::List => TypeClass::List,
        }
    }

    pub fn class(&self) -> (r: TypeClass)
        ensures
            r == self.spec_class(),
    {
        match self {
            Layer::Bool => TypeClass::Bool,
            Layer::UInt8 | Layer::UInt16 | Layer::UInt32 | Layer::UInt64 => TypeClass::UnsignedInt,
            Layer::SInt8 | Layer::SInt16 | Layer::SInt32 | Layer::SInt64 => TypeClass::SignedInt,
            Layer::Float32 | Layer::Float64 => TypeClass::Float,
            Layer::Bin => TypeClass::Bin,
            Layer::Str => TypeClass::Str,
            Layer::List => TypeClass::List,
        }
    }

    pub fn bool() -> (r: Layer)
        ensures
            r == Layer::Bool,
    {
        Layer::Bool
    }

    pub fn uint8() -> (r: Layer)
        ensures
            r == Layer::UInt8,
    {
        Layer::UInt8
    }

    pub fn uint16() -> (r: Layer)
        ensures
            r == Layer::UInt16,
    {
        Layer::UInt16
    }

    pub fn uint32() -> (r: Layer)
        ensures
            r == Layer::UInt32,
    {
        Layer::UInt32
    }

    pub fn uint64() -> (r: Layer)
        ensures
            r == Layer::UInt64,
    {
        Layer::UInt64
    }

    pub fn bin() -> (r: Layer)
        ensures
            r == Layer::Bin,
    {
        Layer::Bin
    }

    pub fn str() -> (r: Layer)
        ensures
            r == Layer::Str,
    {
        Layer::Str
    }

    pub fn list() -> (r: Layer)
        ensures
            r == Layer::List,
    {
        Layer::List
    }
}

/// A stack of layers is well formed when every layer but the last is a list
/// and the last is not.
pub open spec fn valid_layers(ls: Seq<Layer>) -> bool {
    &&& ls.len() >= 1
    &&& forall|i: int| 0 <= i < ls.len() - 1 ==> #[trigger] ls[i] == Layer::List
    &&& ls.last() != Layer::List
}

/// Two stacks of layers have the same type classes, level by level.
pub open spec fn same_classes(a: Seq<Layer>, b: Seq<Layer>) -> bool {
    &&& a.len() == b.len()
    &&& forall|i: int| 0 <= i < a.len() ==> #[trigger] a[i].spec_class() == b[i].spec_class()
}

/// What a field is: its layers and whether it may hold null.
pub struct FieldModel {
    pub layers: Seq<Layer>,
    pub nullable: bool,
}

/// A field definition.
#[derive(Clone, Debug, PartialEq)]
pub struct Field {
    pub layers: Vec<Layer>,
    pub nullable: bool,
}

impl View for Field {
    type V = FieldModel;

    open spec fn view(&self) -> FieldModel {
        FieldModel { layers: self.layers@, nullable: self.nullable }
    }
}

impl Field {
    pub fn new(layers: Vec<Layer>, nullable: bool) -> (r: Field)
        ensures
            r.layers@ == layers@,
            r.nullable == nullable,
    {
        Field { layers, nullable }
    }

    pub fn is_nullable(&self) -> (r: bool)
        ensures
            r == self.nullable,
    {
        self.nullable
    }
}

/// A field as a request writes it: each part may be left out.
#[derive(Clone, Debug)]
pub struct FieldSyntax {
    pub layers: Option<Vec<Layer>>,
    pub nullable: Option<bool>,
}

pub struct FieldSyntaxModel {
    pub layers: Option<Seq<Layer>>,
    pub nullable: Option<bool>,
}

impl View for FieldSyntax {
    type V = FieldSyntaxModel;

    open spec fn view(&self) -> FieldSyntaxModel {
        FieldSyntaxModel {
            layers: match self.layers {
                Some(l) => Some(l@),
                None => None,
            },
            nullable: self.nullable,
        }
    }
}

impl FieldSyntax {
    pub fn new(layers: Option<Vec<Layer>>, nullable: Option<bool>) -> (r: FieldSyntax)
        ensures
            r.layers == layers,
            r.nullable == nullable,
    {
        FieldSyntax { layers, nullable }
    }
}

pub type Schema = Seq<(Seq<char>, FieldModel)>;

pub open spec fn schema_of(fields: Seq<(String, Field)>) -> Schema {
    fields.map_values(|p: (String, Field)| (p.0@, p.1@))
}

pub open spec fn syntax_of(fields: Seq<(String, FieldSyntax)>) -> Seq<(Seq<char>, FieldSyntaxModel)> {
    fields.map_values(|p: (String, FieldSyntax)| (p.0@, p.1@))
}

pub open spec fn names_of(names: Seq<String>) -> Seq<Seq<char>> {
    names.map_values(|n: String| n@)
}

pub open spec fn has_name<T>(s: Seq<(Seq<char>, T)>, n: Seq<char>) -> bool {
    exists|i: int| 0 <= i < s.len() && #[trigger] s[i].0 == n
}

pub open spec fn names_distinct<T>(s: Seq<(Seq<char>, T)>) -> bool {
    forall|i: int, j: int| 0 <= i < j < s.len() ==> #[trigger] s[i].0 != #[trigger] s[j].0
}

pub open spec fn seq_distinct(s: Seq<Seq<char>>) -> bool {
    forall|i: int, j: int| 0 <= i < j < s.len() ==> #[trigger] s[i] != #[trigger] s[j]
}

/// The definition that a schema gives to a name it holds.
pub open spec fn field_named(s: Schema, n: Seq<char>) -> FieldModel {
    s[choose|i: int| 0 <= i < s.len() && #[trigger] s[i].0 == n].1
}

} // verus!
