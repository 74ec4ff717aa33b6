//! The intermediate type specification: what one module's sources declare,
//! with every type reference still held as text.
use vstd::prelude::*;

verus! {

/// Everything one or more modules declare. Specifications of several modules
/// merge by concatenating each collection.
pub struct TypeSpec {
    pub typemap: Vec<QmlTypeMapping>,
    pub classes: Vec<Class>,
    pub gadgets: Vec<Gadget>,
    pub enums: Vec<Enum>,
}

/// Maps an exposed name to the internal name it stands for and the module that owns it.
pub struct QmlTypeMapping {
    pub name: String,
    pub cname: String,
    pub module: Option<String>,
}

/// A class with its members, references unresolved.
pub struct Class {
    pub name: String,
    pub module: String,
    pub description: Option<String>,
    pub details: Option<String>,
    pub superclass: String,
    pub singleton: bool,
    pub uncreatable: bool,
    pub properties: Vec<Property>,
    pub functions: Vec<Function>,
    pub signals: Vec<Signal>,
    pub enums: Vec<Enum>,
}

/// A plain value type: properties only, no exposed name, no inheritance.
pub struct Gadget {
    pub cname: String,
    pub properties: Vec<Property>,
}

pub struct Property {
    pub type_: String,
    pub name: String,
    pub details: Option<String>,
    pub readable: bool,
    pub writable: bool,
    pub default: bool,
}

pub struct Function {
    pub ret: String,
    pub name: String,
    pub details: Option<String>,
    pub params: Vec<FnParam>,
}

pub struct Signal {
    pub name: String,
    pub details: Option<String>,
    pub params: Vec<FnParam>,
}

pub struct FnParam {
    pub type_: String,
    pub name: String,
}

pub struct Enum {
    pub name: String,
    pub cname: Option<String>,
    pub module: Option<String>,
    pub description: Option<String>,
    pub details: Option<String>,
    pub variants: Vec<Variant>,
}

pub struct Variant {
    pub name: String,
    pub details: Option<String>,
}

/// The four collections of a specification, as sequences.
pub struct TypeSpecView {
    pub typemap: Seq<QmlTypeMapping>,
    pub classes: Seq<Class>,
    pub gadgets: Seq<Gadget>,
    pub enums: Seq<Enum>,
}

impl View for TypeSpec {
    type V = TypeSpecView;

    open spec fn view(&self) -> TypeSpecView {
        TypeSpecView {
            typemap: self.typemap@,
            classes: self.classes@,
            gadgets: self.gadgets@,
            enums: self.enums@,
        }
    }
}

/// The specification that `merge` produces from `a` and `b`: each collection
/// of `a` followed by the same collection of `b`.
pub open spec fn merged(a: TypeSpecView, b: TypeSpecView) -> TypeSpecView {
    TypeSpecView {
        typemap: a.typemap + b.typemap,
        classes: a.classes + b.classes,
        gadgets: a.gadgets + b.gadgets,
        enums: a.enums + b.enums,
    }
}

impl TypeSpec {
    /// An empty specification.
    pub fn new() -> (r: TypeSpec)
        ensures
            r.typemap@.len() == 0,
            r.classes@.len() == 0,
            r.gadgets@.len() == 0,
            r.enums@.len() == 0,
    {
        TypeSpec { typemap: Vec::new(), classes: Vec::new(), gadgets: Vec::new(), enums: Vec::new() }
    }

    /// Appends every collection of `other` to the same collection of `self`.
    pub fn merge(&mut self, other: TypeSpec)
        ensures
            final(self)@ == merged(old(self)@, other@),
    {
        let mut other = other;
        self.typemap.append(&mut other.typemap);
        self.classes.append(&mut other.classes);
        self.gadgets.append(&mut other.gadgets);
        self.enums.append(&mut other.enums);
    }
}

impl Default for TypeSpec {
    fn default() -> (r: TypeSpec)
        ensures
            r.typemap@.len() == 0,
            r.classes@.len() == 0,
            r.gadgets@.len() == 0,
            r.enums@.len() == 0,
    {
        TypeSpec::new()
    }
}

} // verus!
