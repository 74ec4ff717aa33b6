//! The resolved records: one per exposed type, with every reference resolved.
use vstd::prelude::*;
use crate::text::is_prefix;

verus! {

/// The module-level index record.
pub struct ModuleIndex {
    pub name: String,
    pub description: String,
    pub details: String,
}

/// One resolved type, named.
pub struct TypeInfo {
    pub name: String,
    pub module: String,
    pub details: TypeDetails,
}

pub enum TypeDetails {
    Class(ClassInfo),
    Enum(EnumInfo),
}

pub struct ClassInfo {
    pub superclass: Type,
    pub description: Option<String>,
    pub details: Option<String>,
    pub flags: Vec<Flag>,
    /// Properties by name, in strict lexical order.
    pub properties: Vec<(String, Property)>,
    /// Functions in lexical order of name, then of signature id.
    pub functions: Vec<Function>,
    /// Signals by name, in strict lexical order.
    pub signals: Vec<(String, Signal)>,
    pub variants: Vec<(String, Variant)>,
}

pub struct Property {
    pub type_: PropertyType,
    pub details: Option<String>,
    pub flags: Vec<Flag>,
}

/// A property's type: a value type inlined as its own members, or a type reference.
pub enum PropertyType {
    Gadget(Vec<(String, PropertyType)>),
    Type(Type),
}

pub struct Function {
    pub ret: Type,
    pub name: String,
    /// The name followed by the names of the resolved parameter types.
    pub id: String,
    pub details: Option<String>,
    pub params: Vec<Parameter>,
}

pub struct Signal {
    pub name: String,
    pub details: Option<String>,
    pub params: Vec<Parameter>,
}

pub struct Parameter {
    pub name: String,
    pub type_: Type,
}

pub struct EnumInfo {
    pub description: Option<String>,
    pub details: Option<String>,
    pub variants: Vec<(String, Variant)>,
}

pub struct Variant {
    pub details: Option<String>,
}

/// A resolved type reference, with the element type of a container.
pub struct Type {
    pub type_: TypeSource,
    pub module: String,
    pub name: String,
    pub of: Option<Box<Type>>,
}

#[derive(Clone, Copy, Debug, PartialEq, Eq, Structural)]
pub enum TypeSource {
    Qt,
    Local,
    Unknown,
}

#[derive(Clone, Copy, Debug, PartialEq, Eq, Structural)]
pub enum Flag {
    Default,
    Readonly,
    Writeonly,
    Singleton,
    Uncreatable,
    Enum,
}

/// What a `Type` stands for.
pub struct TypeRef {
    pub source: TypeSource,
    pub module: Seq<char>,
    pub name: Seq<char>,
    pub of: Option<Box<TypeRef>>,
}

impl View for Type {
    type V = TypeRef;

    open spec fn view(&self) -> TypeRef
        decreases self,
    {
        TypeRef {
            source: self.type_,
            module: self.module@,
            name: self.name@,
            of: match self.of {
                Some(b) => Some(Box::new((*b).view())),
                None => None,
            },
        }
    }
}

/// A reference to the exposed type `name` of `module`: a module named with the
/// `qml.` prefix, or no module at all, belongs to the framework.
pub open spec fn resolved_ref(module: Option<Seq<char>>, name: Seq<char>) -> TypeRef {
    match module {
        None => TypeRef { source: TypeSource::Qt, module: seq!['q', 'm', 'l'], name, of: None },
        Some(m) => TypeRef {
            source: if is_prefix(seq!['q', 'm', 'l', '.'], m) {
                TypeSource::Qt
            } else {
                TypeSource::Local
            },
            module: m,
            name,
            of: None,
        },
    }
}

/// The reference that matched nothing.
pub open spec fn unknown_ref() -> TypeRef {
    TypeRef { source: TypeSource::Unknown, module: Seq::empty(), name: Seq::empty(), of: None }
}

impl Type {
    /// The reference to the exposed type `name` of `module`.
    pub fn resolve(module: Option<&str>, name: &str) -> (r: Type)
        ensures
            r@ == resolved_ref(
                match module {
                    Some(m) => Some(m@),
                    None => None,
                },
                name@,
            ),
    {
        let qml = vec!['q', 'm', 'l'];
        let (src, module) = match module {
            None => (TypeSource::Qt, crate::text::string_of(&qml, 0, 3)),
            Some(m) => {
                let qt = crate::text::starts_with(m, "qml.");
                proof {
                    reveal_strlit("qml.");
                }
                assert("qml."@ == seq!['q', 'm', 'l', '.']);
                (if qt {
                    TypeSource::Qt
                } else {
                    TypeSource::Local
                }, String::from_str(m))
            },
        };
        assert(qml@ == seq!['q', 'm', 'l']);
        assert(qml@.subrange(0, 3) == qml@);
        Type { type_: src, module, name: String::from_str(name), of: None }
    }

    /// The reference that matched nothing.
    pub fn unknown() -> (r: Type)
        ensures
            r@ == unknown_ref(),
    {
        Type { type_: TypeSource::Unknown, module: String::new(), name: String::new(), of: None }
    }
}

} // verus!
