//! Conversion of what one module's sources declare into its intermediate type
//! specification.
use vstd::prelude::*;
use crate::comment::{comment_details, parse_details, parse_details_desc, split_summary, GfmQuoteBlocks};
use crate::parse::{
    ClassInfo, ClassInfoV, ClassType, Comment, CommentV, EnumInfo, EnumInfoV, Invokable, InvokableParam,
    InvokableV, ParamV, ParseContext, Property, PropertyV, Signal, SignalV, Variant, VariantV,
};
use crate::pattern::opt_text;
use crate::resolver::{enum_token, first_from};
use crate::typespec::{self, TypeSpec};

verus! {

/// The documentation text of a comment, if there is one.
pub open spec fn details_of(c: Option<CommentV>) -> Option<Seq<char>> {
    match c {
        Some(c) => Some(comment_details(c.text, c.module)),
        None => None,
    }
}

/// The summary and details of a comment, if there is one.
pub open spec fn desc_of(c: Option<CommentV>) -> (Option<Seq<char>>, Option<Seq<char>>) {
    match c {
        Some(c) => split_summary(comment_details(c.text, c.module)),
        None => (None, None),
    }
}

pub open spec fn property_spec_ok(p: PropertyV, o: typespec::Property) -> bool {
    &&& o.type_@ == p.type_
    &&& o.name@ == p.name
    &&& opt_text(o.details) == details_of(p.comment)
    &&& o.readable == p.readable
    &&& o.writable == p.writable
    &&& o.default == p.default
}

pub open spec fn params_spec_ok(ps: Seq<ParamV>, os: Seq<typespec::FnParam>) -> bool {
    &&& os.len() == ps.len()
    &&& forall|i: int| 0 <= i < ps.len() ==> (#[trigger] os[i]).type_@ == ps[i].type_ && os[i].name@ == ps[i].name
}

pub open spec fn function_spec_ok(f: InvokableV, o: typespec::Function) -> bool {
    &&& o.ret@ == f.ret
    &&& o.name@ == f.name
    &&& opt_text(o.details) == details_of(f.comment)
    &&& params_spec_ok(f.params, o.params@)
}

pub open spec fn signal_spec_ok(s: SignalV, o: typespec::Signal) -> bool {
    &&& o.name@ == s.name
    &&& opt_text(o.details) == details_of(s.comment)
    &&& params_spec_ok(s.params, o.params@)
}

pub open spec fn variants_spec_ok(vs: Seq<VariantV>, os: Seq<typespec::Variant>) -> bool {
    &&& os.len() == vs.len()
    &&& forall|i: int| 0 <= i < vs.len() ==> (#[trigger] os[i]).name@ == vs[i].name && opt_text(os[i].details) == details_of(vs[i].comment)
}

/// The internal name of an enum: its namespace, `::`, its name.
pub open spec fn enum_cname(e: EnumInfoV) -> Seq<char> {
    e.namespace + seq![':', ':'] + e.enum_name
}

pub open spec fn enum_spec_ok(e: EnumInfoV, module: Seq<char>, o: typespec::Enum) -> bool {
    &&& o.name@ == e.qml_name
    &&& opt_text(o.cname) == Some(enum_cname(e))
    &&& opt_text(o.module) == Some(module)
    &&& opt_text(o.description) == desc_of(e.comment).0
    &&& opt_text(o.details) == desc_of(e.comment).1
    &&& variants_spec_ok(e.variants, o.variants@)
}

pub open spec fn class_spec_ok(c: ClassInfoV, module: Seq<char>, o: typespec::Class) -> bool {
    &&& o.name@ == c.name
    &&& o.module@ == module
    &&& opt_text(o.description) == desc_of(c.comment).0
    &&& opt_text(o.details) == desc_of(c.comment).1
    &&& Some(o.superclass@) == c.superclass
    &&& o.singleton == c.singleton
    &&& o.uncreatable == c.uncreatable
    &&& o.properties@.len() == c.properties.len()
    &&& forall|i: int| 0 <= i < c.properties.len() ==> property_spec_ok(c.properties[i], #[trigger] o.properties@[i])
    &&& o.functions@.len() == c.invokables.len()
    &&& forall|i: int| 0 <= i < c.invokables.len() ==> function_spec_ok(c.invokables[i], #[trigger] o.functions@[i])
    &&& o.signals@.len() == c.signals.len()
    &&& forall|i: int| 0 <= i < c.signals.len() ==> signal_spec_ok(c.signals[i], #[trigger] o.signals@[i])
    &&& o.enums@.len() == c.enums.len()
    &&& forall|i: int| 0 <= i < c.enums.len() ==> enum_spec_ok(c.enums[i], module, #[trigger] o.enums@[i])
}

pub open spec fn enum_v_named(n: Seq<char>) -> spec_fn(EnumInfoV) -> bool {
    |e: EnumInfoV| e.enum_name == n
}

/// The name mappings of the classes `cs` that carry an exposed name: the class
/// itself, then, where it holds an enum named by the reserved token, that enum
/// under the same exposed name.
pub open spec fn mappings_of(cs: Seq<ClassInfoV>) -> Seq<(Seq<char>, Seq<char>)>
    decreases cs.len(),
{
    if cs.len() == 0 {
        Seq::empty()
    } else {
        let c = cs.last();
        mappings_of(cs.drop_last()) + match c.qml_name {
            None => Seq::empty(),
            Some(q) => seq![(q, c.name)] + match first_from(c.enums, enum_v_named(enum_token()), 0) {
                Some(k) => seq![(q, enum_cname(c.enums[k]))],
                None => Seq::empty(),
            },
        }
    }
}

pub open spec fn has_superclass() -> spec_fn(ClassInfoV) -> bool {
    |c: ClassInfoV| c.superclass is Some
}

pub open spec fn is_gadget() -> spec_fn(ClassInfoV) -> bool {
    |c: ClassInfoV| c.type_ == ClassType::Gadget
}

pub open spec fn gadget_spec_ok(c: ClassInfoV, o: typespec::Gadget) -> bool {
    &&& o.cname@ == c.name
    &&& o.properties@.len() == c.properties.len()
    &&& forall|i: int| 0 <= i < c.properties.len() ==> property_spec_ok(c.properties[i], #[trigger] o.properties@[i])
}

/// `ts` is the intermediate specification of module `module` whose sources
/// declare the classes `cs` and the namespace-scoped enums `es`.
pub open spec fn typespec_ok(cs: Seq<ClassInfoV>, es: Seq<EnumInfoV>, module: Seq<char>, ts: TypeSpec) -> bool {
    &&& ts.typemap@.len() == mappings_of(cs).len()
    &&& forall|i: int| 0 <= i < ts.typemap@.len() ==> ((#[trigger] ts.typemap@[i]).name@, ts.typemap@[i].cname@) == mappings_of(cs)[i]
        && opt_text(ts.typemap@[i].module) == Some(module)
    &&& ts.classes@.len() == cs.filter(has_superclass()).len()
    &&& forall|i: int| 0 <= i < ts.classes@.len() ==> class_spec_ok(cs.filter(has_superclass())[i], module, #[trigger] ts.classes@[i])
    &&& ts.gadgets@.len() == cs.filter(is_gadget()).len()
    &&& forall|i: int| 0 <= i < ts.gadgets@.len() ==> gadget_spec_ok(cs.filter(is_gadget())[i], #[trigger] ts.gadgets@[i])
    &&& ts.enums@.len() == es.len()
    &&& forall|i: int| 0 <= i < es.len() ==> enum_spec_ok(es[i], module, #[trigger] ts.enums@[i])
}

fn details_exec(c: &Option<Comment>, quotes: &GfmQuoteBlocks) -> (r: Option<String>)
    requires
        quotes.wf(),
    ensures
        opt_text(r) == details_of(crate::parse::comment_view(*c)),
{
    match c {
        Some(c) => Some(parse_details(c, quotes)),
        None => None,
    }
}

fn desc_exec(c: &Option<Comment>, quotes: &GfmQuoteBlocks) -> (r: (Option<String>, Option<String>))
    requires
        quotes.wf(),
    ensures
        opt_text(r.0) == desc_of(crate::parse::comment_view(*c)).0,
        opt_text(r.1) == desc_of(crate::parse::comment_view(*c)).1,
{
    match c {
        Some(c) => parse_details_desc(c, quotes),
        None => (None, None),
    }
}

/// The intermediate form of a property.
pub fn property_spec(p: &Property, quotes: &GfmQuoteBlocks) -> (r: typespec::Property)
    requires
        quotes.wf(),
    ensures
        property_spec_ok(p@, r),
{
    typespec::Property {
        type_: p.type_.clone(),
        name: p.name.clone(),
        details: details_exec(&p.comment, quotes),
        readable: p.readable,
        writable: p.writable,
        default: p.default,
    }
}

fn params_spec(ps: &Vec<InvokableParam>) -> (r: Vec<typespec::FnParam>)
    ensures
        params_spec_ok(crate::parse::params_view(ps@), r@),
{
    let mut out: Vec<typespec::FnParam> = Vec::new();
    let mut i: usize = 0;
    while i < ps.len()
        invariant
            i <= ps.len(),
            out.len() == i,
            forall|k: int| 0 <= k < i ==> (#[trigger] out@[k]).type_@ == ps@[k].type_@ && out@[k].name@ == ps@[k].name@,
        decreases ps.len() - i,
    {
        out.push(typespec::FnParam { type_: ps[i].type_.clone(), name: ps[i].name.clone() });
        i = i + 1;
    }
    out
}

impl Invokable {
    /// The intermediate form of a method.
    pub fn as_typespec(&self, quotes: &GfmQuoteBlocks) -> (r: typespec::Function)
        requires
            quotes.wf(),
        ensures
            function_spec_ok(self@, r),
    {
        typespec::Function {
            ret: self.ret.clone(),
            name: self.name.clone(),
            details: details_exec(&self.comment, quotes),
            params: params_spec(&self.params),
        }
    }
}

impl Signal {
    /// The intermediate form of a signal.
    pub fn as_typespec(&self, quotes: &GfmQuoteBlocks) -> (r: typespec::Signal)
        requires
            quotes.wf(),
        ensures
            signal_spec_ok(self@, r),
    {
        typespec::Signal { name: self.name.clone(), details: details_exec(&self.comment, quotes), params: params_spec(&self.params) }
    }
}

fn variants_spec(vs: &Vec<Variant>, quotes: &GfmQuoteBlocks) -> (r: Vec<typespec::Variant>)
    requires
        quotes.wf(),
    ensures
        variants_spec_ok(vs@.map_values(|v: Variant| v@), r@),
{
    let mut out: Vec<typespec::Variant> = Vec::new();
    let mut i: usize = 0;
    while i < vs.len()
        invariant
            quotes.wf(),
            i <= vs.len(),
            out.len() == i,
            forall|k: int| 0 <= k < i ==> (#[trigger] out@[k]).name@ == vs@[k].name@ && opt_text(out@[k].details)
                == details_of(crate::parse::comment_view(vs@[k].comment)),
        decreases vs.len() - i,
    {
        out.push(typespec::Variant { name: vs[i].name.clone(), details: details_exec(&vs[i].comment, quotes) });
        i = i + 1;
    }
    out
}

fn cname_of(e: &EnumInfo) -> (r: String)
    ensures
        r@ == enum_cname(e@),
{
    let mut s = e.namespace.clone();
    s.append("::");
    s.append(e.enum_name.as_str());
    proof {
        reveal_strlit("::");
    }
    assert(s@ =~= enum_cname(e@));
    s
}

/// The intermediate form of an enum of module `module`.
pub fn enum_spec(e: &EnumInfo, module: &str, quotes: &GfmQuoteBlocks) -> (r: typespec::Enum)
    requires
        quotes.wf(),
    ensures
        enum_spec_ok(e@, module@, r),
{
    let (description, details) = desc_exec(&e.comment, quotes);
    typespec::Enum {
        name: e.qml_name.clone(),
        cname: Some(cname_of(e)),
        module: Some(String::from_str(module)),
        description,
        details,
        variants: variants_spec(&e.variants, quotes),
    }
}

fn class_spec(c: &ClassInfo, superclass: &String, module: &str, quotes: &GfmQuoteBlocks) -> (r: typespec::Class)
    requires
        quotes.wf(),
        opt_text(c.superclass) == Some(superclass@),
    ensures
        class_spec_ok(c@, module@, r),
{
    let (description, details) = desc_exec(&c.comment, quotes);
    let mut properties: Vec<typespec::Property> = Vec::new();
    let mut i: usize = 0;
    while i < c.properties.len()
        invariant
            quotes.wf(),
            i <= c.properties.len(),
            properties.len() == i,
            forall|k: int| 0 <= k < i ==> property_spec_ok(c.properties@[k]@, #[trigger] properties@[k]),
        decreases c.properties.len() - i,
    {
        properties.push(property_spec(&c.properties[i], quotes));
        i = i + 1;
    }
    let mut functions: Vec<typespec::Function> = Vec::new();
    let mut i: usize = 0;
    while i < c.invokables.len()
        invariant
            quotes.wf(),
            i <= c.invokables.len(),
            functions.len() == i,
            forall|k: int| 0 <= k < i ==> function_spec_ok(c.invokables@[k]@, #[trigger] functions@[k]),
        decreases c.invokables.len() - i,
    {
        functions.push(c.invokables[i].as_typespec(quotes));
        i = i + 1;
    }
    let mut signals: Vec<typespec::Signal> = Vec::new();
    let mut i: usize = 0;
    while i < c.signals.len()
        invariant
            quotes.wf(),
            i <= c.signals.len(),
            signals.len() == i,
            forall|k: int| 0 <= k < i ==> signal_spec_ok(c.signals@[k]@, #[trigger] signals@[k]),
        decreases c.signals.len() - i,
    {
        signals.push(c.signals[i].as_typespec(quotes));
        i = i + 1;
    }
    let mut enums: Vec<typespec::Enum> = Vec::new();
    let mut i: usize = 0;
    while i < c.enums.len()
        invariant
            quotes.wf(),
            i <= c.enums.len(),
            enums.len() == i,
            forall|k: int| 0 <= k < i ==> enum_spec_ok(c.enums@[k]@, module@, #[trigger] enums@[k]),
        decreases c.enums.len() - i,
    {
        enums.push(enum_spec(&c.enums[i], module, quotes));
        i = i + 1;
    }
    typespec::Class {
        name: c.name.clone(),
        module: String::from_str(module),
        description,
        details,
        superclass: superclass.clone(),
        singleton: c.singleton,
        uncreatable: c.uncreatable,
        properties,
        functions,
        signals,
        enums,
    }
}

fn find_enum_carrier(c: &ClassInfo) -> (r: Option<usize>)
    ensures
        match r {
            Some(k) => first_from(c@.enums, enum_v_named(enum_token()), 0) == Some(k as int) && k < c.enums.len(),
            None => first_from(c@.enums, enum_v_named(enum_token()), 0) is None,
        },
{
    let ghost ev = c@.enums;
    let mut i: usize = 0;
    while i < c.enums.len()
        invariant
            i <= c.enums.len(),
            ev == c@.enums,
            ev.len() == c.enums.len(),
            first_from(ev, enum_v_named(enum_token()), 0) == first_from(ev, enum_v_named(enum_token()), i as int),
        decreases c.enums.len() - i,
    {
        proof {
            reveal_strlit("Enum");
        }
        if crate::text::same_text(c.enums[i].enum_name.as_str(), "Enum") {
            assert("Enum"@ =~= enum_token());
            return Some(i);
        }
        assert("Enum"@ =~= enum_token());
        i = i + 1;
    }
    None
}

impl ParseContext {
    /// The intermediate specification of module `module`: a name mapping for each
    /// class with an exposed name (and one more for a class that carries the
    /// reserved enum), each class with a superclass, each value type, each
    /// namespace-scoped enum; comments turned into documentation text.
    pub fn gen_typespec(&self, module: &str, quotes: &GfmQuoteBlocks) -> (r: TypeSpec)
        requires
            quotes.wf(),
        ensures
            typespec_ok(self.classes@.map_values(|c: ClassInfo| c@), self.enums@.map_values(|e: EnumInfo| e@), module@, r),
    {
        let ghost cs = self.classes@.map_values(|c: ClassInfo| c@);
        let ghost es = self.enums@.map_values(|e: EnumInfo| e@);
        let mut typemap: Vec<typespec::QmlTypeMapping> = Vec::new();
        let mut i: usize = 0;
        while i < self.classes.len()
            invariant
                i <= self.classes.len(),
                cs == self.classes@.map_values(|c: ClassInfo| c@),
                typemap.len() == mappings_of(cs.take(i as int)).len(),
                forall|k: int| 0 <= k < typemap.len() ==> ((#[trigger] typemap@[k]).name@, typemap@[k].cname@)
                    == mappings_of(cs.take(i as int))[k] && opt_text(typemap@[k].module) == Some(module@),
            decreases self.classes.len() - i,
        {
            let c = &self.classes[i];
            assert(cs.take(i + 1).drop_last() =~= cs.take(i as int));
            assert(cs.take(i + 1).last() == c@);
            let ghost before = typemap@;
            let ghost prev = mappings_of(cs.take(i as int));
            match &c.qml_name {
                Some(q) => {
                    typemap.push(typespec::QmlTypeMapping { name: q.clone(), cname: c.name.clone(), module: Some(String::from_str(module)) });
                    match find_enum_carrier(c) {
                        Some(k) => {
                            typemap.push(typespec::QmlTypeMapping {
                                name: q.clone(),
                                cname: cname_of(&c.enums[k]),
                                module: Some(String::from_str(module)),
                            });
                            assert(c@.enums[k as int] == c.enums@[k as int]@);
                        },
                        None => {},
                    }
                },
                None => {},
            }
            proof {
                let now = mappings_of(cs.take(i + 1));
                assert forall|k: int| 0 <= k < typemap.len() implies ((#[trigger] typemap@[k]).name@, typemap@[k].cname@)
                    == now[k] && opt_text(typemap@[k].module) == Some(module@) by {
                    if k < before.len() {
                        assert(typemap@[k] == before[k]);
                        assert(now[k] == prev[k]);
                    }
                }
            }
            i = i + 1;
        }
        assert(cs.take(i as int) =~= cs);
        let mut classes: Vec<typespec::Class> = Vec::new();
        let mut gadgets: Vec<typespec::Gadget> = Vec::new();
        let mut i: usize = 0;
        while i < self.classes.len()
            invariant
                quotes.wf(),
                i <= self.classes.len(),
                cs == self.classes@.map_values(|c: ClassInfo| c@),
                classes.len() == cs.take(i as int).filter(has_superclass()).len(),
                forall|k: int| 0 <= k < classes.len() ==> class_spec_ok(cs.take(i as int).filter(has_superclass())[k], module@, #[trigger] classes@[k]),
                gadgets.len() == cs.take(i as int).filter(is_gadget()).len(),
                forall|k: int| 0 <= k < gadgets.len() ==> gadget_spec_ok(cs.take(i as int).filter(is_gadget())[k], #[trigger] gadgets@[k]),
            decreases self.classes.len() - i,
        {
            let c = &self.classes[i];
            proof {
                assert(cs.take(i + 1) =~= cs.take(i as int).push(c@));
                cs.take(i as int).lemma_filter_push(c@, has_superclass());
                cs.take(i as int).lemma_filter_push(c@, is_gadget());
            }
            let ghost fc = cs.take(i as int).filter(has_superclass());
            let ghost fg = cs.take(i as int).filter(is_gadget());
            match &c.superclass {
                Some(sup) => {
                    let ghost before = classes@;
                    classes.push(class_spec(c, sup, module, quotes));
                    assert forall|k: int| 0 <= k < classes.len() implies class_spec_ok(fc.push(c@)[k], module@, #[trigger] classes@[k]) by {
                        if k < before.len() {
                            assert(classes@[k] == before[k]);
                        }
                    }
                },
                None => {},
            }
            if c.type_ == ClassType::Gadget {
                let mut properties: Vec<typespec::Property> = Vec::new();
                let mut j: usize = 0;
                while j < c.properties.len()
                    invariant
                        quotes.wf(),
                        j <= c.properties.len(),
                        properties.len() == j,
                        forall|k: int| 0 <= k < j ==> property_spec_ok(c.properties@[k]@, #[trigger] properties@[k]),
                    decreases c.properties.len() - j,
                {
                    properties.push(property_spec(&c.properties[j], quotes));
                    j = j + 1;
                }
                let ghost before = gadgets@;
                let g = typespec::Gadget { cname: c.name.clone(), properties };
                gadgets.push(g);
                assert forall|k: int| 0 <= k < gadgets.len() implies gadget_spec_ok(fg.push(c@)[k], #[trigger] gadgets@[k]) by {
                    if k < before.len() {
                        assert(gadgets@[k] == before[k]);
                    }
                }
            }
            i = i + 1;
        }
        assert(cs.take(i as int) =~= cs);
        let mut enums: Vec<typespec::Enum> = Vec::new();
        let mut i: usize = 0;
        while i < self.enums.len()
            invariant
                quotes.wf(),
                i <= self.enums.len(),
                es == self.enums@.map_values(|e: EnumInfo| e@),
                enums.len() == i,
                forall|k: int| 0 <= k < i ==> enum_spec_ok(es[k], module@, #[trigger] enums@[k]),
            decreases self.enums.len() - i,
        {
            enums.push(enum_spec(&self.enums[i], module, quotes));
            i = i + 1;
        }
        TypeSpec { typemap, classes, gadgets, enums }
    }
}

} // verus!
