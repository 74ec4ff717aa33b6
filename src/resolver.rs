//! Resolution of a merged type specification into final per-type records.
use vstd::prelude::*;
use crate::outform::{self, Flag, Parameter, PropertyType, Type, TypeRef, resolved_ref, unknown_ref};
use crate::order::{first_keys_in_order, has_key, key_lt, key_view, keys_view, order_by_key};
use crate::text::{chars_of, is_prefix, is_suffix, lex_lt};
use crate::outform::{ClassInfo, EnumInfo, TypeDetails, TypeInfo, TypeSource};
use crate::typespec::{merged, Class, Enum, FnParam, Function, Gadget, Property, QmlTypeMapping, Signal, TypeSpec, TypeSpecView};

verus! {

/// The index of the first element of `s` at or after `i` that satisfies `p`.
pub open spec fn first_from<T>(s: Seq<T>, p: spec_fn(T) -> bool, i: int) -> Option<int>
    decreases s.len() - i,
{
    if i < 0 || i >= s.len() {
        None
    } else if p(s[i]) {
        Some(i)
    } else {
        first_from(s, p, i + 1)
    }
}

pub proof fn lemma_first_from<T>(s: Seq<T>, p: spec_fn(T) -> bool, i: int)
    requires
        0 <= i,
    ensures
        match first_from(s, p, i) {
            Some(k) => i <= k < s.len() && p(s[k]) && forall|j: int| i <= j < k ==> !p(#[trigger] s[j]),
            None => forall|j: int| i <= j < s.len() ==> !p(#[trigger] s[j]),
        },
    decreases s.len() - i,
{
    if i < s.len() && !p(s[i]) {
        lemma_first_from(s, p, i + 1);
    }
}

pub open spec fn opt_view(o: Option<String>) -> Option<Seq<char>> {
    match o {
        Some(s) => Some(s@),
        None => None,
    }
}

/// The tag that marks a type name as one of the scripting language.
pub open spec fn script_tag() -> Seq<char> {
    seq!['Q', 'M', 'L', ':']
}

pub open spec fn by_exposed(n: Seq<char>) -> spec_fn(QmlTypeMapping) -> bool {
    |m: QmlTypeMapping| m.name@ == n
}

pub open spec fn by_cname(n: Seq<char>) -> spec_fn(QmlTypeMapping) -> bool {
    |m: QmlTypeMapping| m.cname@ == n
}

/// A mapping whose internal name is a non-empty suffix of `n`.
pub open spec fn by_cname_suffix(n: Seq<char>) -> spec_fn(QmlTypeMapping) -> bool {
    |m: QmlTypeMapping| m.cname@.len() > 0 && is_suffix(m.cname@, n)
}

/// An enum whose internal name is a non-empty suffix of `n`.
pub open spec fn enum_by_suffix(n: Seq<char>) -> spec_fn(Enum) -> bool {
    |e: Enum|
        match e.cname {
            Some(c) => c@.len() > 0 && is_suffix(c@, n),
            None => false,
        }
}

pub open spec fn class_named(n: Seq<char>) -> spec_fn(Class) -> bool {
    |c: Class| c.name@ == n
}

pub open spec fn gadget_named(n: Seq<char>) -> spec_fn(Gadget) -> bool {
    |g: Gadget| g.cname@ == n
}

pub open spec fn is_char(c: char) -> spec_fn(char) -> bool {
    |x: char| x == c
}

pub open spec fn mapping_ref(m: QmlTypeMapping) -> TypeRef {
    resolved_ref(opt_view(m.module), m.name@)
}

pub open spec fn enum_ref(e: Enum) -> TypeRef {
    resolved_ref(opt_view(e.module), e.name@)
}

/// `s` without one trailing `c`, if it ends with one.
pub open spec fn strip_last(s: Seq<char>, c: char) -> Seq<char> {
    if s.len() > 0 && s.last() == c {
        s.drop_last()
    } else {
        s
    }
}

/// `s` without its last character, if it has one.
pub open spec fn drop_one(s: Seq<char>) -> Seq<char> {
    if s.len() > 0 {
        s.drop_last()
    } else {
        s
    }
}

pub open spec fn with_of(t: TypeRef, of: Option<TypeRef>) -> TypeRef {
    TypeRef {
        of: match of {
            Some(o) => Some(Box::new(o)),
            None => None,
        },
        ..t
    }
}

/// The element type text of a single `Outer<Inner>` wrapper: what follows the
/// first `<`, without one trailing pointer marker and the closing bracket.
pub open spec fn elem_text(ctype: Seq<char>) -> Option<Seq<char>> {
    match first_from(ctype, is_char('<'), 0) {
        Some(k) => if 0 <= k < ctype.len() {
            Some(drop_one(strip_last(ctype.subrange(k + 1, ctype.len() as int), '*')))
        } else {
            None
        },
        None => None,
    }
}

/// The bare type name: the text before the first `<`, without one trailing pointer marker.
pub open spec fn bare_text(ctype: Seq<char>) -> Seq<char> {
    strip_last(
        match first_from(ctype, is_char('<'), 0) {
            Some(k) => ctype.subrange(0, k),
            None => ctype,
        },
        '*',
    )
}

/// The first mapping (then the first enum) whose internal name is a non-empty
/// suffix of `bare`, else the unknown reference; either carries the element type `of`.
pub open spec fn lookup_bare(ts: TypeSpecView, bare: Seq<char>, of: Option<TypeRef>) -> TypeRef {
    match first_from(ts.typemap, by_cname_suffix(bare), 0) {
        Some(i) => with_of(mapping_ref(ts.typemap[i]), of),
        None => match first_from(ts.enums, enum_by_suffix(bare), 0) {
            Some(j) => with_of(enum_ref(ts.enums[j]), of),
            None => with_of(unknown_ref(), of),
        },
    }
}

/// The reference that the type text `ctype` resolves to. A name tagged as of the
/// scripting language is looked up by exposed name. Otherwise the element type of
/// a container wrapper is resolved in turn and the bare name is looked up by
/// suffix; no match gives the unknown reference, which still carries the element type.
pub open spec fn type_of(ts: TypeSpecView, ctype: Seq<char>) -> TypeRef
    decreases ctype.len(),
{
    if is_prefix(script_tag(), ctype) {
        match first_from(ts.typemap, by_exposed(ctype.subrange(4, ctype.len() as int)), 0) {
            Some(i) => mapping_ref(ts.typemap[i]),
            None => unknown_ref(),
        }
    } else {
        let of = match elem_text(ctype) {
            Some(e) => if e.len() < ctype.len() {
                Some(type_of(ts, e))
            } else {
                None
            },
            None => None,
        };
        lookup_bare(ts, bare_text(ctype), of)
    }
}

/// Whether `s` holds exactly the characters `v[from..to]`.
fn eq_range(s: &String, v: &Vec<char>, from: usize, to: usize) -> (r: bool)
    requires
        from <= to <= v.len(),
    ensures
        r == (s@ == v@.subrange(from as int, to as int)),
{
    let w = chars_of(s.as_str());
    if w.len() != to - from {
        return false;
    }
    let mut i: usize = 0;
    while i < w.len()
        invariant
            w@ == s@,
            w.len() == to - from,
            from <= to <= v.len(),
            i <= w.len(),
            forall|k: int| 0 <= k < i ==> w@[k] == v@[from + k],
        decreases w.len() - i,
    {
        if w[i] != v[from + i] {
            assert(v@.subrange(from as int, to as int)[i as int] != w@[i as int]);
            return false;
        }
        i = i + 1;
    }
    assert(w@ =~= v@.subrange(from as int, to as int));
    true
}

/// Whether `s` is a suffix of `v[from..to]`.
fn suffix_range(s: &String, v: &Vec<char>, from: usize, to: usize) -> (r: bool)
    requires
        from <= to <= v.len(),
    ensures
        r == is_suffix(s@, v@.subrange(from as int, to as int)),
{
    let w = chars_of(s.as_str());
    if w.len() > to - from {
        return false;
    }
    let at = to - w.len();
    let mut i: usize = 0;
    while i < w.len()
        invariant
            w@ == s@,
            w.len() <= to - from,
            at == to - w.len(),
            from <= to <= v.len(),
            i <= w.len(),
            forall|k: int| 0 <= k < i ==> w@[k] == v@[at + k],
        decreases w.len() - i,
    {
        if w[i] != v[at + i] {
            let ghost sub = v@.subrange(from as int, to as int);
            assert(sub.subrange(sub.len() - w.len(), sub.len() as int)[i as int] != w@[i as int]);
            return false;
        }
        i = i + 1;
    }
    let ghost sub = v@.subrange(from as int, to as int);
    assert(sub.subrange(sub.len() - w.len(), sub.len() as int) =~= w@);
    true
}

fn find_exposed(ts: &TypeSpec, v: &Vec<char>, from: usize, to: usize) -> (r: Option<usize>)
    requires
        from <= to <= v.len(),
    ensures
        r matches Some(k) ==> k < ts.typemap.len(),
        match r {
            Some(k) => first_from(ts.typemap@, by_exposed(v@.subrange(from as int, to as int)), 0) == Some(k as int),
            None => first_from(ts.typemap@, by_exposed(v@.subrange(from as int, to as int)), 0) is None,
        },
{
    let ghost p = by_exposed(v@.subrange(from as int, to as int));
    let mut i: usize = 0;
    while i < ts.typemap.len()
        invariant
            from <= to <= v.len(),
            p == by_exposed(v@.subrange(from as int, to as int)),
            i <= ts.typemap.len(),
            first_from(ts.typemap@, p, 0) == first_from(ts.typemap@, p, i as int),
        decreases ts.typemap.len() - i,
    {
        if eq_range(&ts.typemap[i].name, v, from, to) {
            return Some(i);
        }
        i = i + 1;
    }
    None
}

fn find_cname(ts: &TypeSpec, v: &Vec<char>, from: usize, to: usize) -> (r: Option<usize>)
    requires
        from <= to <= v.len(),
    ensures
        r matches Some(k) ==> k < ts.typemap.len(),
        match r {
            Some(k) => first_from(ts.typemap@, by_cname(v@.subrange(from as int, to as int)), 0) == Some(k as int),
            None => first_from(ts.typemap@, by_cname(v@.subrange(from as int, to as int)), 0) is None,
        },
{
    let ghost p = by_cname(v@.subrange(from as int, to as int));
    let mut i: usize = 0;
    while i < ts.typemap.len()
        invariant
            from <= to <= v.len(),
            p == by_cname(v@.subrange(from as int, to as int)),
            i <= ts.typemap.len(),
            first_from(ts.typemap@, p, 0) == first_from(ts.typemap@, p, i as int),
        decreases ts.typemap.len() - i,
    {
        if eq_range(&ts.typemap[i].cname, v, from, to) {
            return Some(i);
        }
        i = i + 1;
    }
    None
}

fn find_cname_suffix(ts: &TypeSpec, v: &Vec<char>, from: usize, to: usize) -> (r: Option<usize>)
    requires
        from <= to <= v.len(),
    ensures
        r matches Some(k) ==> k < ts.typemap.len(),
        match r {
            Some(k) => first_from(ts.typemap@, by_cname_suffix(v@.subrange(from as int, to as int)), 0) == Some(k as int),
            None => first_from(ts.typemap@, by_cname_suffix(v@.subrange(from as int, to as int)), 0) is None,
        },
{
    let ghost p = by_cname_suffix(v@.subrange(from as int, to as int));
    let mut i: usize = 0;
    while i < ts.typemap.len()
        invariant
            from <= to <= v.len(),
            p == by_cname_suffix(v@.subrange(from as int, to as int)),
            i <= ts.typemap.len(),
            first_from(ts.typemap@, p, 0) == first_from(ts.typemap@, p, i as int),
        decreases ts.typemap.len() - i,
    {
        let m = &ts.typemap[i];
        if m.cname.as_str().is_empty() == false && suffix_range(&m.cname, v, from, to) {
            return Some(i);
        }
        i = i + 1;
    }
    None
}

fn find_enum_suffix(ts: &TypeSpec, v: &Vec<char>, from: usize, to: usize) -> (r: Option<usize>)
    requires
        from <= to <= v.len(),
    ensures
        r matches Some(k) ==> k < ts.enums.len(),
        match r {
            Some(k) => first_from(ts.enums@, enum_by_suffix(v@.subrange(from as int, to as int)), 0) == Some(k as int),
            None => first_from(ts.enums@, enum_by_suffix(v@.subrange(from as int, to as int)), 0) is None,
        },
{
    let ghost p = enum_by_suffix(v@.subrange(from as int, to as int));
    let mut i: usize = 0;
    while i < ts.enums.len()
        invariant
            from <= to <= v.len(),
            p == enum_by_suffix(v@.subrange(from as int, to as int)),
            i <= ts.enums.len(),
            first_from(ts.enums@, p, 0) == first_from(ts.enums@, p, i as int),
        decreases ts.enums.len() - i,
    {
        match &ts.enums[i].cname {
            Some(c) => {
                if c.as_str().is_empty() == false && suffix_range(c, v, from, to) {
                    return Some(i);
                }
            },
            None => {},
        }
        i = i + 1;
    }
    None
}

fn module_type(module: &Option<String>, name: &String) -> (r: Type)
    ensures
        r@ == resolved_ref(opt_view(*module), name@),
{
    match module {
        Some(m) => Type::resolve(Some(m.as_str()), name.as_str()),
        None => Type::resolve(None, name.as_str()),
    }
}

/// Finds the first `c` in `v[from..to]`, as an offset from `from`.
fn find_char(v: &Vec<char>, from: usize, to: usize, c: char) -> (r: Option<usize>)
    requires
        from <= to <= v.len(),
    ensures
        match r {
            Some(k) => first_from(v@.subrange(from as int, to as int), is_char(c), 0) == Some(k as int),
            None => first_from(v@.subrange(from as int, to as int), is_char(c), 0) is None,
        },
{
    let ghost sub = v@.subrange(from as int, to as int);
    let mut i: usize = 0;
    while i < to - from
        invariant
            from <= to <= v.len(),
            sub == v@.subrange(from as int, to as int),
            i <= to - from,
            first_from(sub, is_char(c), 0) == first_from(sub, is_char(c), i as int),
        decreases to - from - i,
    {
        assert(sub[i as int] == v@[from + i]);
        if v[from + i] == c {
            return Some(i);
        }
        i = i + 1;
    }
    None
}

/// The bounds of the element type text of `v[from..to]`.
fn elem_range(v: &Vec<char>, from: usize, to: usize) -> (r: Option<(usize, usize)>)
    requires
        from <= to <= v.len(),
    ensures
        match r {
            Some((a, b)) => from < a <= b < to + 1 && elem_text(v@.subrange(from as int, to as int))
                == Some(v@.subrange(a as int, b as int)),
            None => elem_text(v@.subrange(from as int, to as int)) is None,
        },
{
    let ghost sub = v@.subrange(from as int, to as int);
    match find_char(v, from, to, '<') {
        Some(k) => {
            proof {
                lemma_first_from(sub, is_char('<'), 0);
            }
            let mut end = to;
            if end > from + k + 1 && v[end - 1] == '*' {
                end = end - 1;
            }
            let mid = end;
            if end > from + k + 1 {
                end = end - 1;
            }
            let ghost rem = sub.subrange(k + 1, sub.len() as int);
            assert(rem =~= v@.subrange(from + k + 1, to as int));
            assert(strip_last(rem, '*') =~= v@.subrange(from + k + 1, mid as int));
            assert(drop_one(strip_last(rem, '*')) =~= v@.subrange(from + k + 1, end as int));
            Some((from + k + 1, end))
        },
        None => None,
    }
}

/// The end of the bare type name of `v[from..to]`.
fn bare_end(v: &Vec<char>, from: usize, to: usize) -> (r: usize)
    requires
        from <= to <= v.len(),
    ensures
        from <= r <= to,
        bare_text(v@.subrange(from as int, to as int)) == v@.subrange(from as int, r as int),
{
    let ghost sub = v@.subrange(from as int, to as int);
    let mut end = to;
    match find_char(v, from, to, '<') {
        Some(k) => {
            proof {
                lemma_first_from(sub, is_char('<'), 0);
            }
            end = from + k;
        },
        None => {},
    }
    let ghost base = v@.subrange(from as int, end as int);
    assert(base =~= match first_from(sub, is_char('<'), 0) {
        Some(k) => sub.subrange(0, k),
        None => sub,
    });
    if end > from && v[end - 1] == '*' {
        end = end - 1;
    }
    assert(strip_last(base, '*') =~= v@.subrange(from as int, end as int));
    end
}

fn lookup_bare_exec(ts: &TypeSpec, v: &Vec<char>, from: usize, to: usize, of: Option<Box<Type>>) -> (r: Type)
    requires
        from <= to <= v.len(),
    ensures
        r@ == lookup_bare(ts@, v@.subrange(from as int, to as int), match of {
            Some(b) => Some((*b)@),
            None => None,
        }),
{
    match find_cname_suffix(ts, v, from, to) {
        Some(i) => {
            let mut t = module_type(&ts.typemap[i].module, &ts.typemap[i].name);
            t.of = of;
            t
        },
        None => match find_enum_suffix(ts, v, from, to) {
            Some(j) => {
                let mut t = module_type(&ts.enums[j].module, &ts.enums[j].name);
                t.of = of;
                t
            },
            None => {
                let mut t = Type::unknown();
                t.of = of;
                t
            },
        },
    }
}

/// Resolves the type text `v[from..to]`.
pub fn resolve_ctype(ts: &TypeSpec, v: &Vec<char>, from: usize, to: usize) -> (r: Type)
    requires
        from <= to <= v.len(),
    ensures
        r@ == type_of(ts@, v@.subrange(from as int, to as int)),
    decreases to - from,
{
    let ghost sub = v@.subrange(from as int, to as int);
    let tag = vec!['Q', 'M', 'L', ':'];
    assert(tag@ == script_tag());
    let tagged = to - from >= 4 && crate::text::has_at(v, from, &tag);
    proof {
        if to - from >= 4 {
            assert(v@.subrange(from as int, v.len() as int).subrange(0, 4) =~= sub.subrange(0, 4));
        }
    }
    if tagged {
        assert(sub.subrange(4, sub.len() as int) =~= v@.subrange(from + 4, to as int));
        return match find_exposed(ts, v, from + 4, to) {
            Some(i) => module_type(&ts.typemap[i].module, &ts.typemap[i].name),
            None => Type::unknown(),
        };
    }
    let of: Option<Box<Type>> = match elem_range(v, from, to) {
        Some((a, b)) => Some(Box::new(resolve_ctype(ts, v, a, b))),
        None => None,
    };
    let end = bare_end(v, from, to);
    lookup_bare_exec(ts, v, from, end, of)
}

/// `o` is the resolved type of a property declared with type text `ctype`: a
/// registered value type is inlined as its own properties, each resolved by the
/// same rule one level down while `depth` lasts; any other type, and a value
/// type below that depth, is resolved as a type reference.
pub open spec fn prop_type_ok(ts: TypeSpecView, ctype: Seq<char>, depth: nat, o: PropertyType) -> bool
    decreases depth,
{
    let g = first_from(ts.gadgets, gadget_named(ctype), 0);
    if g is Some && depth > 0 {
        match o {
            PropertyType::Gadget(m) => {
                let ps = ts.gadgets[g->0].properties@;
                &&& m@.len() == ps.len()
                &&& forall|k: int| 0 <= k < ps.len() ==> (#[trigger] m@[k]).0@ == ps[k].name@
                    && prop_type_ok(ts, ps[k].type_@, (depth - 1) as nat, m@[k].1)
            },
            PropertyType::Type(_) => false,
        }
    } else {
        match o {
            PropertyType::Type(t) => t@ == type_of(ts, ctype),
            PropertyType::Gadget(_) => false,
        }
    }
}

/// A property's flags: default first, then write-only or else read-only.
pub open spec fn prop_flags(p: Property) -> Seq<Flag> {
    (if p.default {
        seq![Flag::Default]
    } else {
        Seq::empty()
    }) + (if !p.readable {
        seq![Flag::Writeonly]
    } else if !p.writable {
        seq![Flag::Readonly]
    } else {
        Seq::empty()
    })
}

pub open spec fn property_ok(ts: TypeSpecView, p: Property, o: outform::Property) -> bool {
    &&& prop_type_ok(ts, p.type_@, ts.gadgets.len(), o.type_)
    &&& o.details == p.details
    &&& o.flags@ == prop_flags(p)
}

pub open spec fn params_ok(ts: TypeSpecView, ps: Seq<FnParam>, os: Seq<Parameter>) -> bool {
    &&& os.len() == ps.len()
    &&& forall|i: int| 0 <= i < ps.len() ==> (#[trigger] os[i]).name == ps[i].name && os[i].type_@ == type_of(ts, ps[i].type_@)
}

/// The names of the resolved parameter types, concatenated.
pub open spec fn param_type_names(ts: TypeSpecView, ps: Seq<FnParam>) -> Seq<char>
    decreases ps.len(),
{
    if ps.len() == 0 {
        Seq::empty()
    } else {
        param_type_names(ts, ps.drop_last()) + type_of(ts, ps.last().type_@).name
    }
}

/// The signature id: the method name followed by its resolved parameter type names.
pub open spec fn signature_id(ts: TypeSpecView, f: Function) -> Seq<char> {
    f.name@ + param_type_names(ts, f.params@)
}

pub open spec fn function_ok(ts: TypeSpecView, f: Function, o: outform::Function) -> bool {
    &&& o.ret@ == type_of(ts, f.ret@)
    &&& o.name == f.name
    &&& o.id@ == signature_id(ts, f)
    &&& o.details == f.details
    &&& params_ok(ts, f.params@, o.params@)
}

pub open spec fn signal_ok(ts: TypeSpecView, s: Signal, o: outform::Signal) -> bool {
    &&& o.name == s.name
    &&& o.details == s.details
    &&& params_ok(ts, s.params@, o.params@)
}

fn copy_opt(o: &Option<String>) -> (r: Option<String>)
    ensures
        r == *o,
{
    match o {
        Some(s) => Some(s.clone()),
        None => None,
    }
}

/// Resolves the type text `s`.
pub fn resolve_text(ts: &TypeSpec, s: &String) -> (r: Type)
    ensures
        r@ == type_of(ts@, s@),
{
    let v = chars_of(s.as_str());
    assert(v@.subrange(0, v.len() as int) == v@);
    resolve_ctype(ts, &v, 0, v.len())
}

fn find_gadget(ts: &TypeSpec, name: &String) -> (r: Option<usize>)
    ensures
        r matches Some(k) ==> k < ts.gadgets.len(),
        match r {
            Some(k) => first_from(ts.gadgets@, gadget_named(name@), 0) == Some(k as int),
            None => first_from(ts.gadgets@, gadget_named(name@), 0) is None,
        },
{
    let ghost p = gadget_named(name@);
    let mut i: usize = 0;
    while i < ts.gadgets.len()
        invariant
            p == gadget_named(name@),
            i <= ts.gadgets.len(),
            first_from(ts.gadgets@, p, 0) == first_from(ts.gadgets@, p, i as int),
        decreases ts.gadgets.len() - i,
    {
        if ts.gadgets[i].cname == *name {
            return Some(i);
        }
        i = i + 1;
    }
    None
}

fn find_class(ts: &TypeSpec, name: &String) -> (r: Option<usize>)
    ensures
        r matches Some(k) ==> k < ts.classes.len(),
        match r {
            Some(k) => first_from(ts.classes@, class_named(name@), 0) == Some(k as int),
            None => first_from(ts.classes@, class_named(name@), 0) is None,
        },
{
    let ghost p = class_named(name@);
    let mut i: usize = 0;
    while i < ts.classes.len()
        invariant
            p == class_named(name@),
            i <= ts.classes.len(),
            first_from(ts.classes@, p, 0) == first_from(ts.classes@, p, i as int),
        decreases ts.classes.len() - i,
    {
        if ts.classes[i].name == *name {
            return Some(i);
        }
        i = i + 1;
    }
    None
}

fn property_flags(p: &Property) -> (r: Vec<Flag>)
    ensures
        r@ == prop_flags(*p),
{
    let mut flags: Vec<Flag> = Vec::new();
    if p.default {
        flags.push(Flag::Default);
    }
    if !p.readable {
        flags.push(Flag::Writeonly);
    } else if !p.writable {
        flags.push(Flag::Readonly);
    }
    assert(flags@ =~= prop_flags(*p));
    flags
}

/// Resolves the type text `ctype` of a property, inlining value types down to `depth`.
fn solve_type(ts: &TypeSpec, ctype: &String, depth: usize) -> (r: PropertyType)
    ensures
        prop_type_ok(ts@, ctype@, depth as nat, r),
    decreases depth,
{
    match find_gadget(ts, ctype) {
        Some(g) => {
            if depth == 0 {
                return PropertyType::Type(resolve_text(ts, ctype));
            }
            let props = &ts.gadgets[g].properties;
            let mut members: Vec<(String, PropertyType)> = Vec::new();
            let mut i: usize = 0;
            while i < props.len()
                invariant
                    0 < depth,
                    props == &ts.gadgets@[g as int].properties,
                    i <= props.len(),
                    members.len() == i,
                    forall|k: int| 0 <= k < i ==> (#[trigger] members@[k]).0@ == props@[k].name@
                        && prop_type_ok(ts@, props@[k].type_@, (depth - 1) as nat, members@[k].1),
                decreases props.len() - i,
            {
                let t = solve_type(ts, &props[i].type_, depth - 1);
                let n = props[i].name.clone();
                members.push((n, t));
                i = i + 1;
            }
            PropertyType::Gadget(members)
        },
        None => PropertyType::Type(resolve_text(ts, ctype)),
    }
}

/// Resolves one property.
pub fn solve_property(ts: &TypeSpec, p: &Property) -> (r: outform::Property)
    ensures
        property_ok(ts@, *p, r),
{
    let flags = property_flags(p);
    let type_ = solve_type(ts, &p.type_, ts.gadgets.len());
    outform::Property { type_, details: copy_opt(&p.details), flags }
}

fn solve_params(ts: &TypeSpec, ps: &Vec<FnParam>) -> (r: (Vec<Parameter>, String))
    ensures
        params_ok(ts@, ps@, r.0@),
        r.1@ == param_type_names(ts@, ps@),
{
    let mut out: Vec<Parameter> = Vec::new();
    let mut names = String::new();
    let mut i: usize = 0;
    while i < ps.len()
        invariant
            i <= ps.len(),
            params_ok(ts@, ps@.take(i as int), out@),
            names@ == param_type_names(ts@, ps@.take(i as int)),
        decreases ps.len() - i,
    {
        let t = resolve_text(ts, &ps[i].type_);
        names.append(t.name.as_str());
        out.push(Parameter { name: ps[i].name.clone(), type_: t });
        assert(ps@.take(i + 1).drop_last() == ps@.take(i as int));
        i = i + 1;
    }
    assert(ps@.take(i as int) == ps@);
    (out, names)
}

/// Resolves one method: its return type, its parameters and its signature id.
pub fn solve_function(ts: &TypeSpec, f: &Function) -> (r: outform::Function)
    ensures
        function_ok(ts@, *f, r),
{
    let (params, names) = solve_params(ts, &f.params);
    let mut id = f.name.clone();
    id.append(names.as_str());
    outform::Function {
        ret: resolve_text(ts, &f.ret),
        name: f.name.clone(),
        id,
        details: copy_opt(&f.details),
        params,
    }
}

/// Resolves one signal.
pub fn solve_signal(ts: &TypeSpec, s: &Signal) -> (r: outform::Signal)
    ensures
        signal_ok(ts@, *s, r),
{
    let (params, _names) = solve_params(ts, &s.params);
    outform::Signal { name: s.name.clone(), details: copy_opt(&s.details), params }
}

/// Where a superclass name stands among the exposed types: a name tagged as of
/// the scripting language by exposed name, any other by internal name.
pub open spec fn exposed_lookup(ts: TypeSpecView, n: Seq<char>) -> Option<int> {
    if is_prefix(script_tag(), n) {
        first_from(ts.typemap, by_exposed(n.subrange(4, n.len() as int)), 0)
    } else {
        first_from(ts.typemap, by_cname(n), 0)
    }
}

/// The walk up from class `c`: the first exposed superclass (or the unknown
/// reference where the chain breaks, or runs longer than `fuel` internal classes),
/// and the internal classes passed on the way, closest first.
pub open spec fn walk(ts: TypeSpecView, c: int, fuel: nat) -> (TypeRef, Seq<usize>)
    decreases fuel,
{
    let sup = ts.classes[c].superclass@;
    match exposed_lookup(ts, sup) {
        Some(i) => (mapping_ref(ts.typemap[i]), Seq::empty()),
        None => match first_from(ts.classes, class_named(sup), 0) {
            Some(d) => if fuel == 0 {
                (unknown_ref(), Seq::empty())
            } else {
                let (t, ch) = walk(ts, d, (fuel - 1) as nat);
                (t, seq![d as usize] + ch)
            },
            None => (unknown_ref(), Seq::empty()),
        },
    }
}

/// The walk from class `c`, bounded by the number of classes: a longer chain
/// must pass some class twice.
pub open spec fn ancestry(ts: TypeSpecView, c: int) -> (TypeRef, Seq<usize>) {
    walk(ts, c, ts.classes.len())
}

fn lookup_exposed(ts: &TypeSpec, n: &String) -> (r: Option<usize>)
    ensures
        r matches Some(k) ==> k < ts.typemap.len(),
        match r {
            Some(k) => exposed_lookup(ts@, n@) == Some(k as int),
            None => exposed_lookup(ts@, n@) is None,
        },
{
    let v = chars_of(n.as_str());
    let tag = vec!['Q', 'M', 'L', ':'];
    assert(tag@ == script_tag());
    assert(v@.subrange(0, v.len() as int) == v@);
    if v.len() >= 4 && crate::text::has_at(&v, 0, &tag) {
        find_exposed(ts, &v, 4, v.len())
    } else {
        find_cname(ts, &v, 0, v.len())
    }
}

fn walk_up(ts: &TypeSpec, c: usize) -> (r: (Type, Vec<usize>))
    requires
        c < ts.classes.len(),
    ensures
        r.0@ == ancestry(ts@, c as int).0,
        r.1@ == ancestry(ts@, c as int).1,
        forall|i: int| 0 <= i < r.1.len() ==> (#[trigger] r.1@[i]) < ts.classes.len(),
{
    let mut cur = c;
    let mut fuel = ts.classes.len();
    let mut chain: Vec<usize> = Vec::new();
    loop
        invariant
            cur < ts.classes.len(),
            fuel <= ts.classes.len(),
            ancestry(ts@, c as int).0 == walk(ts@, cur as int, fuel as nat).0,
            ancestry(ts@, c as int).1 == chain@ + walk(ts@, cur as int, fuel as nat).1,
            forall|i: int| 0 <= i < chain.len() ==> (#[trigger] chain@[i]) < ts.classes.len(),
        decreases fuel,
    {
        let sup = &ts.classes[cur].superclass;
        match lookup_exposed(ts, sup) {
            Some(i) => {
                assert(chain@ + Seq::<usize>::empty() == chain@);
                return (module_type(&ts.typemap[i].module, &ts.typemap[i].name), chain);
            },
            None => {},
        }
        match find_class(ts, sup) {
            Some(d) => {
                if fuel == 0 {
                    assert(chain@ + Seq::<usize>::empty() == chain@);
                    return (Type::unknown(), chain);
                }
                let ghost rest = walk(ts@, d as int, (fuel - 1) as nat).1;
                assert(chain@ + (seq![d] + rest) == chain@.push(d) + rest);
                chain.push(d);
                cur = d;
                fuel = fuel - 1;
            },
            None => {
                assert(chain@ + Seq::<usize>::empty() == chain@);
                return (Type::unknown(), chain);
            },
        }
    }
}

/// The positions (class, member) of the members that the classes of `order`
/// declare, class by class in that order.
pub open spec fn slots(order: Seq<usize>, count: spec_fn(usize) -> nat) -> Seq<(usize, usize)>
    decreases order.len(),
{
    if order.len() == 0 {
        Seq::empty()
    } else {
        slots(order.drop_last(), count) + Seq::new(count(order.last()), |m: int| (order.last(), m as usize))
    }
}

pub open spec fn prop_count(ts: TypeSpecView) -> spec_fn(usize) -> nat {
    |c: usize| ts.classes[c as int].properties@.len()
}

pub open spec fn fn_count(ts: TypeSpecView) -> spec_fn(usize) -> nat {
    |c: usize| ts.classes[c as int].functions@.len()
}

pub open spec fn signal_count(ts: TypeSpecView) -> spec_fn(usize) -> nat {
    |c: usize| ts.classes[c as int].signals@.len()
}

/// The class itself, then the internal ancestors it absorbs, closest first.
pub open spec fn member_order(ts: TypeSpecView, c: int) -> Seq<usize> {
    seq![c as usize] + ancestry(ts, c).1
}

pub open spec fn prop_at(ts: TypeSpecView, s: (usize, usize)) -> Property {
    ts.classes[s.0 as int].properties@[s.1 as int]
}

pub open spec fn fn_at(ts: TypeSpecView, s: (usize, usize)) -> Function {
    ts.classes[s.0 as int].functions@[s.1 as int]
}

pub open spec fn signal_at(ts: TypeSpecView, s: (usize, usize)) -> Signal {
    ts.classes[s.0 as int].signals@[s.1 as int]
}

/// The member kinds a class declares.
pub enum MemberKind {
    Property,
    Function,
    Signal,
}

pub open spec fn kind_count(ts: TypeSpecView, kind: MemberKind) -> spec_fn(usize) -> nat {
    match kind {
        MemberKind::Property => prop_count(ts),
        MemberKind::Function => fn_count(ts),
        MemberKind::Signal => signal_count(ts),
    }
}

proof fn lemma_slots_step(order: Seq<usize>, count: spec_fn(usize) -> nat, k: int)
    requires
        0 <= k < order.len(),
    ensures
        slots(order.take(k + 1), count) == slots(order.take(k), count) + Seq::new(
            count(order[k]),
            |m: int| (order[k], m as usize),
        ),
{
    assert(order.take(k + 1).drop_last() == order.take(k));
}

fn member_len(ts: &TypeSpec, c: usize, kind: &MemberKind) -> (r: usize)
    requires
        c < ts.classes.len(),
    ensures
        r == kind_count(ts@, *kind)(c),
{
    match kind {
        MemberKind::Property => ts.classes[c].properties.len(),
        MemberKind::Function => ts.classes[c].functions.len(),
        MemberKind::Signal => ts.classes[c].signals.len(),
    }
}

/// The member positions of the classes of `order`, of one kind.
fn gather(ts: &TypeSpec, order: &Vec<usize>, kind: MemberKind) -> (r: Vec<(usize, usize)>)
    requires
        forall|i: int| 0 <= i < order.len() ==> (#[trigger] order@[i]) < ts.classes.len(),
    ensures
        r@ == slots(order@, kind_count(ts@, kind)),
        forall|i: int| 0 <= i < r.len() ==> (#[trigger] r@[i]).0 < ts.classes.len() && r@[i].1 < kind_count(ts@, kind)(r@[i].0),
{
    let ghost cnt = kind_count(ts@, kind);
    let mut r: Vec<(usize, usize)> = Vec::new();
    let mut k: usize = 0;
    while k < order.len()
        invariant
            cnt == kind_count(ts@, kind),
            k <= order.len(),
            forall|i: int| 0 <= i < order.len() ==> (#[trigger] order@[i]) < ts.classes.len(),
            r@ == slots(order@.take(k as int), cnt),
            forall|i: int| 0 <= i < r.len() ==> (#[trigger] r@[i]).0 < ts.classes.len() && r@[i].1 < cnt(r@[i].0),
        decreases order.len() - k,
    {
        let c = order[k];
        let n = member_len(ts, c, &kind);
        let ghost base = r@;
        let mut m: usize = 0;
        while m < n
            invariant
                cnt == kind_count(ts@, kind),
                c == order@[k as int],
                c < ts.classes.len(),
                n == cnt(c),
                m <= n,
                r@ == base + Seq::new(m as nat, |j: int| (c, j as usize)),
                forall|i: int| 0 <= i < r.len() ==> (#[trigger] r@[i]).0 < ts.classes.len() && r@[i].1 < cnt(r@[i].0),
            decreases n - m,
        {
            r.push((c, m));
            m = m + 1;
            assert(r@ =~= base + Seq::new(m as nat, |j: int| (c, j as usize)));
        }
        proof {
            lemma_slots_step(order@, cnt, k as int);
        }
        k = k + 1;
    }
    assert(order@.take(k as int) == order@);
    r
}

pub proof fn lemma_first_is<T>(s: Seq<T>, p: spec_fn(T) -> bool, i: int, from: int)
    requires
        0 <= from <= i < s.len(),
        p(s[i]),
        forall|j: int| from <= j < i ==> !p(#[trigger] s[j]),
    ensures
        first_from(s, p, from) == Some(i),
    decreases i - from,
{
    if from < i {
        lemma_first_is(s, p, i, from + 1);
    }
}

pub open spec fn prop_named(ts: TypeSpecView, n: Seq<char>) -> spec_fn((usize, usize)) -> bool {
    |s: (usize, usize)| prop_at(ts, s).name@ == n
}

pub open spec fn signal_named(ts: TypeSpecView, n: Seq<char>) -> spec_fn((usize, usize)) -> bool {
    |s: (usize, usize)| signal_at(ts, s).name@ == n
}

/// The ordering key of a method: its name, then its signature id.
pub open spec fn fn_key(ts: TypeSpecView, f: Function) -> (Seq<char>, Seq<char>) {
    (f.name@, signature_id(ts, f))
}

pub open spec fn fn_keyed(ts: TypeSpecView, k: (Seq<char>, Seq<char>)) -> spec_fn((usize, usize)) -> bool {
    |s: (usize, usize)| fn_key(ts, fn_at(ts, s)) == k
}

pub open spec fn has_prop(out: Seq<(String, outform::Property)>, n: Seq<char>) -> bool {
    exists|a: int| 0 <= a < out.len() && (#[trigger] out[a]).0@ == n
}

pub open spec fn has_signal(out: Seq<(String, outform::Signal)>, n: Seq<char>) -> bool {
    exists|a: int| 0 <= a < out.len() && (#[trigger] out[a]).0@ == n
}

pub open spec fn has_fn(out: Seq<outform::Function>, k: (Seq<char>, Seq<char>)) -> bool {
    exists|a: int| 0 <= a < out.len() && ((#[trigger] out[a]).name@, out[a].id@) == k
}

/// The resolved properties of the members at `slots`: in strict order of name,
/// one per name, each resolved from the first member of its name.
pub open spec fn props_ok(ts: TypeSpecView, slots: Seq<(usize, usize)>, out: Seq<(String, outform::Property)>) -> bool {
    &&& forall|a: int, b: int| 0 <= a < b < out.len() ==> lex_lt(out[a].0@, out[b].0@)
    &&& forall|a: int| 0 <= a < out.len() ==> match first_from(slots, prop_named(ts, (#[trigger] out[a]).0@), 0) {
        Some(k) => property_ok(ts, prop_at(ts, slots[k]), out[a].1),
        None => false,
    }
    &&& forall|k: int| 0 <= k < slots.len() ==> has_prop(out, prop_at(ts, #[trigger] slots[k]).name@)
}

/// The resolved signals of the members at `slots`, as `props_ok` says of properties.
pub open spec fn signals_ok(ts: TypeSpecView, slots: Seq<(usize, usize)>, out: Seq<(String, outform::Signal)>) -> bool {
    &&& forall|a: int, b: int| 0 <= a < b < out.len() ==> lex_lt(out[a].0@, out[b].0@)
    &&& forall|a: int| 0 <= a < out.len() ==> match first_from(slots, signal_named(ts, (#[trigger] out[a]).0@), 0) {
        Some(k) => signal_ok(ts, signal_at(ts, slots[k]), out[a].1) && out[a].1.name == out[a].0,
        None => false,
    }
    &&& forall|k: int| 0 <= k < slots.len() ==> has_signal(out, signal_at(ts, #[trigger] slots[k]).name@)
}

/// The resolved methods of the members at `slots`: in strict order of name and
/// then signature id, one per such pair, each resolved from the first member with it.
pub open spec fn fns_ok(ts: TypeSpecView, slots: Seq<(usize, usize)>, out: Seq<outform::Function>) -> bool {
    &&& forall|a: int, b: int| 0 <= a < b < out.len() ==> key_lt((out[a].name@, out[a].id@), (out[b].name@, out[b].id@))
    &&& forall|a: int| 0 <= a < out.len() ==> match first_from(slots, fn_keyed(ts, ((#[trigger] out[a]).name@, out[a].id@)), 0) {
        Some(k) => function_ok(ts, fn_at(ts, slots[k]), out[a]),
        None => false,
    }
    &&& forall|k: int| 0 <= k < slots.len() ==> has_fn(out, fn_key(ts, fn_at(ts, #[trigger] slots[k])))
}

fn solve_props(ts: &TypeSpec, slots: &Vec<(usize, usize)>) -> (r: Vec<(String, outform::Property)>)
    requires
        forall|i: int| 0 <= i < slots.len() ==> (#[trigger] slots@[i]).0 < ts.classes.len()
            && slots@[i].1 < ts.classes@[slots@[i].0 as int].properties.len(),
    ensures
        props_ok(ts@, slots@, r@),
{
    let ghost sl = slots@;
    let mut keys: Vec<(String, String)> = Vec::new();
    let mut i: usize = 0;
    while i < slots.len()
        invariant
            i <= slots.len(),
            sl == slots@,
            forall|i: int| 0 <= i < slots.len() ==> (#[trigger] slots@[i]).0 < ts.classes.len()
                && slots@[i].1 < ts.classes@[slots@[i].0 as int].properties.len(),
            keys.len() == i,
            forall|k: int| 0 <= k < i ==> (#[trigger] keys@[k]).0@ == prop_at(ts@, sl[k]).name@ && keys@[k].1@ == Seq::<char>::empty(),
        decreases slots.len() - i,
    {
        let (c, m) = slots[i];
        keys.push((ts.classes[c].properties[m].name.clone(), String::new()));
        i = i + 1;
    }
    let ghost kv = keys_view(keys@);
    let idx = order_by_key(&keys);
    let mut out: Vec<(String, outform::Property)> = Vec::new();
    let mut a: usize = 0;
    while a < idx.len()
        invariant
            a <= idx.len(),
            sl == slots@,
            kv == keys_view(keys@),
            kv.len() == sl.len(),
            first_keys_in_order(kv, idx@),
            forall|i: int| 0 <= i < slots.len() ==> (#[trigger] slots@[i]).0 < ts.classes.len()
                && slots@[i].1 < ts.classes@[slots@[i].0 as int].properties.len(),
            out.len() == a,
            forall|b: int| 0 <= b < a ==> (#[trigger] out@[b]).0@ == prop_at(ts@, sl[idx@[b] as int]).name@
                && property_ok(ts@, prop_at(ts@, sl[idx@[b] as int]), out@[b].1),
        decreases idx.len() - a,
    {
        let (c, m) = slots[idx[a]];
        let p = &ts.classes[c].properties[m];
        out.push((p.name.clone(), solve_property(ts, p)));
        a = a + 1;
    }
    proof {
        assert forall|j: int| 0 <= j < sl.len() implies #[trigger] kv[j] == (prop_at(ts@, sl[j]).name@, Seq::<char>::empty()) by {
            assert(keys@[j].0@ == prop_at(ts@, sl[j]).name@);
        }
        assert forall|a: int, b: int| 0 <= a < b < out.len() implies lex_lt(out@[a].0@, out@[b].0@) by {
            assert(key_lt(kv[idx@[a] as int], kv[idx@[b] as int]));
        }
        assert forall|a: int| 0 <= a < out.len() implies match first_from(sl, prop_named(ts@, (#[trigger] out@[a]).0@), 0) {
            Some(k) => property_ok(ts@, prop_at(ts@, sl[k]), out@[a].1),
            None => false,
        } by {
            let i = idx@[a] as int;
            let p = prop_named(ts@, out@[a].0@);
            assert forall|j: int| 0 <= j < i implies !p(#[trigger] sl[j]) by {
                assert(kv[j] != kv[i]);
            }
            lemma_first_is(sl, p, i, 0);
        }
        assert forall|k: int| 0 <= k < sl.len() implies has_prop(out@, prop_at(ts@, #[trigger] sl[k]).name@) by {
            assert(has_key(kv, idx@, kv[k]));
            let a = choose|a: int| 0 <= a < idx@.len() && #[trigger] kv[idx@[a] as int] == kv[k];
            assert(out@[a].0@ == prop_at(ts@, sl[k]).name@);
        }
    }
    out
}

fn solve_signals(ts: &TypeSpec, slots: &Vec<(usize, usize)>) -> (r: Vec<(String, outform::Signal)>)
    requires
        forall|i: int| 0 <= i < slots.len() ==> (#[trigger] slots@[i]).0 < ts.classes.len()
            && slots@[i].1 < ts.classes@[slots@[i].0 as int].signals.len(),
    ensures
        signals_ok(ts@, slots@, r@),
{
    let ghost sl = slots@;
    let mut keys: Vec<(String, String)> = Vec::new();
    let mut i: usize = 0;
    while i < slots.len()
        invariant
            i <= slots.len(),
            sl == slots@,
            forall|i: int| 0 <= i < slots.len() ==> (#[trigger] slots@[i]).0 < ts.classes.len()
                && slots@[i].1 < ts.classes@[slots@[i].0 as int].signals.len(),
            keys.len() == i,
            forall|k: int| 0 <= k < i ==> (#[trigger] keys@[k]).0@ == signal_at(ts@, sl[k]).name@ && keys@[k].1@ == Seq::<char>::empty(),
        decreases slots.len() - i,
    {
        let (c, m) = slots[i];
        keys.push((ts.classes[c].signals[m].name.clone(), String::new()));
        i = i + 1;
    }
    let ghost kv = keys_view(keys@);
    let idx = order_by_key(&keys);
    let mut out: Vec<(String, outform::Signal)> = Vec::new();
    let mut a: usize = 0;
    while a < idx.len()
        invariant
            a <= idx.len(),
            sl == slots@,
            kv == keys_view(keys@),
            kv.len() == sl.len(),
            first_keys_in_order(kv, idx@),
            forall|i: int| 0 <= i < slots.len() ==> (#[trigger] slots@[i]).0 < ts.classes.len()
                && slots@[i].1 < ts.classes@[slots@[i].0 as int].signals.len(),
            out.len() == a,
            forall|b: int| 0 <= b < a ==> (#[trigger] out@[b]).0@ == signal_at(ts@, sl[idx@[b] as int]).name@
                && signal_ok(ts@, signal_at(ts@, sl[idx@[b] as int]), out@[b].1) && out@[b].1.name == out@[b].0,
        decreases idx.len() - a,
    {
        let (c, m) = slots[idx[a]];
        let sg = &ts.classes[c].signals[m];
        out.push((sg.name.clone(), solve_signal(ts, sg)));
        a = a + 1;
    }
    proof {
        assert forall|j: int| 0 <= j < sl.len() implies #[trigger] kv[j] == (signal_at(ts@, sl[j]).name@, Seq::<char>::empty()) by {
            assert(keys@[j].0@ == signal_at(ts@, sl[j]).name@);
        }
        assert forall|a: int, b: int| 0 <= a < b < out.len() implies lex_lt(out@[a].0@, out@[b].0@) by {
            assert(key_lt(kv[idx@[a] as int], kv[idx@[b] as int]));
        }
        assert forall|a: int| 0 <= a < out.len() implies match first_from(sl, signal_named(ts@, (#[trigger] out@[a]).0@), 0) {
            Some(k) => signal_ok(ts@, signal_at(ts@, sl[k]), out@[a].1) && out@[a].1.name == out@[a].0,
            None => false,
        } by {
            let i = idx@[a] as int;
            let p = signal_named(ts@, out@[a].0@);
            assert forall|j: int| 0 <= j < i implies !p(#[trigger] sl[j]) by {
                assert(kv[j] != kv[i]);
            }
            lemma_first_is(sl, p, i, 0);
        }
        assert forall|k: int| 0 <= k < sl.len() implies has_signal(out@, signal_at(ts@, #[trigger] sl[k]).name@) by {
            assert(has_key(kv, idx@, kv[k]));
            let a = choose|a: int| 0 <= a < idx@.len() && #[trigger] kv[idx@[a] as int] == kv[k];
            assert(out@[a].0@ == signal_at(ts@, sl[k]).name@);
        }
    }
    out
}

fn solve_functions(ts: &TypeSpec, slots: &Vec<(usize, usize)>) -> (r: Vec<outform::Function>)
    requires
        forall|i: int| 0 <= i < slots.len() ==> (#[trigger] slots@[i]).0 < ts.classes.len()
            && slots@[i].1 < ts.classes@[slots@[i].0 as int].functions.len(),
    ensures
        fns_ok(ts@, slots@, r@),
{
    let ghost sl = slots@;
    let mut keys: Vec<(String, String)> = Vec::new();
    let mut i: usize = 0;
    while i < slots.len()
        invariant
            i <= slots.len(),
            sl == slots@,
            forall|i: int| 0 <= i < slots.len() ==> (#[trigger] slots@[i]).0 < ts.classes.len()
                && slots@[i].1 < ts.classes@[slots@[i].0 as int].functions.len(),
            keys.len() == i,
            forall|k: int| 0 <= k < i ==> key_view(#[trigger] keys@[k]) == fn_key(ts@, fn_at(ts@, sl[k])),
        decreases slots.len() - i,
    {
        let (c, m) = slots[i];
        let solved = solve_function(ts, &ts.classes[c].functions[m]);
        keys.push((solved.name, solved.id));
        i = i + 1;
    }
    let ghost kv = keys_view(keys@);
    let idx = order_by_key(&keys);
    let mut out: Vec<outform::Function> = Vec::new();
    let mut a: usize = 0;
    while a < idx.len()
        invariant
            a <= idx.len(),
            sl == slots@,
            kv == keys_view(keys@),
            kv.len() == sl.len(),
            first_keys_in_order(kv, idx@),
            forall|i: int| 0 <= i < slots.len() ==> (#[trigger] slots@[i]).0 < ts.classes.len()
                && slots@[i].1 < ts.classes@[slots@[i].0 as int].functions.len(),
            out.len() == a,
            forall|b: int| 0 <= b < a ==> function_ok(ts@, fn_at(ts@, sl[idx@[b] as int]), #[trigger] out@[b]),
        decreases idx.len() - a,
    {
        let (c, m) = slots[idx[a]];
        out.push(solve_function(ts, &ts.classes[c].functions[m]));
        a = a + 1;
    }
    proof {
        assert forall|j: int| 0 <= j < sl.len() implies #[trigger] kv[j] == fn_key(ts@, fn_at(ts@, sl[j])) by {
            assert(key_view(keys@[j]) == fn_key(ts@, fn_at(ts@, sl[j])));
        }
        assert forall|a: int| 0 <= a < out.len() implies (#[trigger] out@[a]).name@ == kv[idx@[a] as int].0 && out@[a].id@ == kv[idx@[a] as int].1 by {
            assert(function_ok(ts@, fn_at(ts@, sl[idx@[a] as int]), out@[a]));
        }
        assert forall|a: int, b: int| 0 <= a < b < out.len() implies key_lt((out@[a].name@, out@[a].id@), (out@[b].name@, out@[b].id@)) by {
            assert(key_lt(kv[idx@[a] as int], kv[idx@[b] as int]));
            assert(out@[a].name@ == kv[idx@[a] as int].0 && out@[a].id@ == kv[idx@[a] as int].1);
            assert(out@[b].name@ == kv[idx@[b] as int].0 && out@[b].id@ == kv[idx@[b] as int].1);
        }
        assert forall|a: int| 0 <= a < out.len() implies match first_from(sl, fn_keyed(ts@, ((#[trigger] out@[a]).name@, out@[a].id@)), 0) {
            Some(k) => function_ok(ts@, fn_at(ts@, sl[k]), out@[a]),
            None => false,
        } by {
            let i = idx@[a] as int;
            assert(out@[a].name@ == kv[i].0 && out@[a].id@ == kv[i].1);
            let p = fn_keyed(ts@, (out@[a].name@, out@[a].id@));
            assert forall|j: int| 0 <= j < i implies !p(#[trigger] sl[j]) by {
                assert(kv[j] != kv[i]);
            }
            lemma_first_is(sl, p, i, 0);
        }
        assert forall|k: int| 0 <= k < sl.len() implies has_fn(out@, fn_key(ts@, fn_at(ts@, #[trigger] sl[k]))) by {
            assert(has_key(kv, idx@, kv[k]));
            let a = choose|a: int| 0 <= a < idx@.len() && #[trigger] kv[idx@[a] as int] == kv[k];
            assert(out@[a].name@ == kv[idx@[a] as int].0 && out@[a].id@ == kv[idx@[a] as int].1);
        }
    }
    out
}

/// The reserved name of a nested enum that makes its class an enumeration.
pub open spec fn enum_token() -> Seq<char> {
    seq!['E', 'n', 'u', 'm']
}

pub open spec fn enum_named(n: Seq<char>) -> spec_fn(Enum) -> bool {
    |e: Enum| e.name@ == n
}

/// A class's flags: enum-carrying takes precedence over singleton, which takes
/// precedence over uncreatable.
pub open spec fn class_flags(carrier: bool, c: Class) -> Seq<Flag> {
    if carrier {
        seq![Flag::Enum]
    } else if c.singleton {
        seq![Flag::Singleton]
    } else if c.uncreatable {
        seq![Flag::Uncreatable]
    } else {
        Seq::empty()
    }
}

pub open spec fn variants_ok(vs: Seq<crate::typespec::Variant>, out: Seq<(String, outform::Variant)>) -> bool {
    &&& out.len() == vs.len()
    &&& forall|i: int| 0 <= i < vs.len() ==> (#[trigger] out[i]).0 == vs[i].name && out[i].1.details == vs[i].details
}

/// The record resolved from class `c`.
pub open spec fn class_ok(ts: TypeSpecView, c: int, ci: ClassInfo) -> bool {
    let cls = ts.classes[c];
    let order = member_order(ts, c);
    let carrier = first_from(cls.enums@, enum_named(enum_token()), 0);
    &&& ci.superclass@ == ancestry(ts, c).0
    &&& ci.description == cls.description
    &&& ci.details == cls.details
    &&& ci.flags@ == class_flags(carrier is Some, cls)
    &&& props_ok(ts, slots(order, prop_count(ts)), ci.properties@)
    &&& fns_ok(ts, slots(order, fn_count(ts)), ci.functions@)
    &&& signals_ok(ts, slots(order, signal_count(ts)), ci.signals@)
    &&& match carrier {
        Some(e) => variants_ok(cls.enums@[e].variants@, ci.variants@),
        None => ci.variants@.len() == 0,
    }
}

fn find_carrier(c: &Class) -> (r: Option<usize>)
    ensures
        r matches Some(k) ==> k < c.enums.len(),
        match r {
            Some(k) => first_from(c.enums@, enum_named(enum_token()), 0) == Some(k as int),
            None => first_from(c.enums@, enum_named(enum_token()), 0) is None,
        },
{
    let token = vec!['E', 'n', 'u', 'm'];
    assert(token@ == enum_token());
    assert(token@.subrange(0, 4) == token@);
    let ghost p = enum_named(enum_token());
    let mut i: usize = 0;
    while i < c.enums.len()
        invariant
            p == enum_named(enum_token()),
            token@ == enum_token(),
            token.len() == 4,
            token@.subrange(0, 4) == enum_token(),
            i <= c.enums.len(),
            first_from(c.enums@, p, 0) == first_from(c.enums@, p, i as int),
        decreases c.enums.len() - i,
    {
        if eq_range(&c.enums[i].name, &token, 0, 4) {
            return Some(i);
        }
        i = i + 1;
    }
    None
}

fn copy_variants(vs: &Vec<crate::typespec::Variant>) -> (r: Vec<(String, outform::Variant)>)
    ensures
        variants_ok(vs@, r@),
{
    let mut out: Vec<(String, outform::Variant)> = Vec::new();
    let mut i: usize = 0;
    while i < vs.len()
        invariant
            i <= vs.len(),
            out.len() == i,
            forall|k: int| 0 <= k < i ==> (#[trigger] out@[k]).0 == vs@[k].name && out@[k].1.details == vs@[k].details,
        decreases vs.len() - i,
    {
        out.push((vs[i].name.clone(), outform::Variant { details: copy_opt(&vs[i].details) }));
        i = i + 1;
    }
    out
}

/// Resolves class `c`: walks its superclass chain, absorbs the members of the
/// internal ancestors passed, orders every member list by name, and resolves
/// every type reference.
pub fn resolve_class(ts: &TypeSpec, c: usize) -> (r: ClassInfo)
    requires
        c < ts.classes.len(),
    ensures
        class_ok(ts@, c as int, r),
{
    let (superclass, chain) = walk_up(ts, c);
    let mut order: Vec<usize> = Vec::new();
    order.push(c);
    let mut i: usize = 0;
    while i < chain.len()
        invariant
            i <= chain.len(),
            c < ts.classes.len(),
            order@ == seq![c] + chain@.take(i as int),
            forall|k: int| 0 <= k < chain.len() ==> (#[trigger] chain@[k]) < ts.classes.len(),
        decreases chain.len() - i,
    {
        order.push(chain[i]);
        i = i + 1;
        assert(order@ =~= seq![c] + chain@.take(i as int));
    }
    assert(chain@.take(i as int) == chain@);
    assert(order@ == member_order(ts@, c as int));
    assert forall|k: int| 0 <= k < order.len() implies (#[trigger] order@[k]) < ts.classes.len() by {
        if k > 0 {
            assert(order@[k] == chain@[k - 1]);
        }
    }
    let pslots = gather(ts, &order, MemberKind::Property);
    let fslots = gather(ts, &order, MemberKind::Function);
    let sslots = gather(ts, &order, MemberKind::Signal);
    let cls = &ts.classes[c];
    let carrier = find_carrier(cls);
    let mut flags: Vec<Flag> = Vec::new();
    let variants = match carrier {
        Some(e) => {
            flags.push(Flag::Enum);
            copy_variants(&cls.enums[e].variants)
        },
        None => {
            if cls.singleton {
                flags.push(Flag::Singleton);
            } else if cls.uncreatable {
                flags.push(Flag::Uncreatable);
            }
            Vec::new()
        },
    };
    assert(flags@ =~= class_flags(carrier is Some, *cls));
    ClassInfo {
        superclass,
        description: copy_opt(&cls.description),
        details: copy_opt(&cls.details),
        flags,
        properties: solve_props(ts, &pslots),
        functions: solve_functions(ts, &fslots),
        signals: solve_signals(ts, &sslots),
        variants,
    }
}

/// The index of the last element of `s` below `k` that satisfies `p`.
pub open spec fn last_below<T>(s: Seq<T>, p: spec_fn(T) -> bool, k: int) -> Option<int>
    decreases k,
{
    if k <= 0 || k > s.len() {
        None
    } else if p(s[k - 1]) {
        Some(k - 1)
    } else {
        last_below(s, p, k - 1)
    }
}

/// What a final record comes from: a name mapping onto a class, or an enum.
pub enum Source {
    Mapping(int),
    Enum(int),
}

/// A mapping of `module`, exposed as `n`, whose internal name names a class.
pub open spec fn mapping_source(ts: TypeSpecView, module: Seq<char>, n: Seq<char>) -> spec_fn(QmlTypeMapping) -> bool {
    |m: QmlTypeMapping|
        opt_view(m.module) == Some(module) && m.name@ == n && first_from(ts.classes, class_named(m.cname@), 0) is Some
}

/// A top-level enum of `module` exposed as `n`.
pub open spec fn enum_source(module: Seq<char>, n: Seq<char>) -> spec_fn(Enum) -> bool {
    |e: Enum| opt_view(e.module) == Some(module) && e.name@ == n
}

/// The source of the record named `n` among the first `mi` mappings and the
/// first `ej` enums: the last enum of that name, else the last mapping.
pub open spec fn source_upto(ts: TypeSpecView, module: Seq<char>, n: Seq<char>, mi: int, ej: int) -> Option<Source> {
    match last_below(ts.enums, enum_source(module, n), ej) {
        Some(j) => Some(Source::Enum(j)),
        None => match last_below(ts.typemap, mapping_source(ts, module, n), mi) {
            Some(i) => Some(Source::Mapping(i)),
            None => None,
        },
    }
}

/// The source of the final record named `n` of `module`.
pub open spec fn record_source(ts: TypeSpecView, module: Seq<char>, n: Seq<char>) -> Option<Source> {
    source_upto(ts, module, n, ts.typemap.len() as int, ts.enums.len() as int)
}

pub open spec fn enum_ok(e: Enum, ei: EnumInfo) -> bool {
    &&& ei.description == e.description
    &&& ei.details == e.details
    &&& variants_ok(e.variants@, ei.variants@)
}

/// The record `t` is the one resolved from `src`.
pub open spec fn record_ok(ts: TypeSpecView, module: Seq<char>, src: Source, t: TypeInfo) -> bool {
    match src {
        Source::Mapping(i) => {
            &&& t.name == ts.typemap[i].name
            &&& t.module@ == module
            &&& match t.details {
                TypeDetails::Class(ci) => class_ok(
                    ts,
                    first_from(ts.classes, class_named(ts.typemap[i].cname@), 0)->0,
                    ci,
                ),
                TypeDetails::Enum(_) => false,
            }
        },
        Source::Enum(j) => {
            &&& t.name == ts.enums[j].name
            &&& t.module@ == module
            &&& match t.details {
                TypeDetails::Enum(ei) => enum_ok(ts.enums[j], ei),
                TypeDetails::Class(_) => false,
            }
        },
    }
}

pub open spec fn has_type(out: Seq<TypeInfo>, n: Seq<char>) -> bool {
    exists|a: int| 0 <= a < out.len() && (#[trigger] out[a]).name@ == n
}

/// `out` holds one record per name, the one from the last source of that name
/// among the first `mi` mappings and `ej` enums, and a record for every such name.
pub open spec fn records_upto(ts: TypeSpecView, module: Seq<char>, out: Seq<TypeInfo>, mi: int, ej: int) -> bool {
    &&& forall|a: int, b: int| 0 <= a < b < out.len() ==> out[a].name@ != out[b].name@
    &&& forall|a: int| 0 <= a < out.len() ==> match source_upto(ts, module, (#[trigger] out[a]).name@, mi, ej) {
        Some(src) => record_ok(ts, module, src, out[a]),
        None => false,
    }
    &&& forall|n: Seq<char>| #[trigger] source_upto(ts, module, n, mi, ej) is Some ==> has_type(out, n)
}

/// `out` is the resolution of `module` against `ts`: one record per name, each
/// the one owed by the last source of that name, and a record for every name
/// that has a source.
pub open spec fn resolution_ok(ts: TypeSpecView, module: Seq<char>, out: Seq<TypeInfo>) -> bool {
    &&& forall|a: int, b: int| 0 <= a < b < out.len() ==> out[a].name@ != out[b].name@
    &&& forall|a: int| 0 <= a < out.len() ==> match record_source(ts, module, (#[trigger] out[a]).name@) {
        Some(src) => record_ok(ts, module, src, out[a]),
        None => false,
    }
    &&& forall|n: Seq<char>| #[trigger] record_source(ts, module, n) is Some ==> has_type(out, n)
}

/// Adds `t` to `out`, in place of the record of the same name if there is one.
fn put_record(out: &mut Vec<TypeInfo>, t: TypeInfo)
    requires
        forall|a: int, b: int| 0 <= a < b < old(out).len() ==> old(out)@[a].name@ != old(out)@[b].name@,
    ensures
        forall|a: int, b: int| 0 <= a < b < final(out).len() ==> final(out)@[a].name@ != final(out)@[b].name@,
        forall|a: int| 0 <= a < final(out).len() ==> (if (#[trigger] final(out)@[a]).name@ == t.name@ {
            final(out)@[a] == t
        } else {
            exists|b: int| 0 <= b < old(out).len() && old(out)@[b] == final(out)@[a]
        }),
        has_type(final(out)@, t.name@),
        forall|n: Seq<char>| n != t.name@ && has_type(old(out)@, n) ==> has_type(final(out)@, n),
{
    let mut i: usize = 0;
    while i < out.len()
        invariant
            i <= out.len(),
            out@ == old(out)@,
            forall|a: int, b: int| 0 <= a < b < out.len() ==> out@[a].name@ != out@[b].name@,
            forall|a: int| 0 <= a < i ==> (#[trigger] out@[a]).name@ != t.name@,
        decreases out.len() - i,
    {
        if out[i].name == t.name {
            let ghost before = out@;
            out.set(i, t);
            proof {
                assert(out@[i as int].name@ == before[i as int].name@);
                assert forall|a: int| 0 <= a < out.len() && a != i implies (#[trigger] out@[a]).name@ != t.name@ by {
                    assert(out@[a] == before[a]);
                }
                assert forall|a: int| 0 <= a < out.len() implies (if (#[trigger] out@[a]).name@ == t.name@ {
                    out@[a] == t
                } else {
                    exists|b: int| 0 <= b < before.len() && before[b] == out@[a]
                }) by {
                    assert(before[a] == out@[a] || a == i);
                }
                assert forall|n: Seq<char>| n != out@[i as int].name@ && has_type(before, n) implies has_type(out@, n) by {
                    let b = choose|b: int| 0 <= b < before.len() && (#[trigger] before[b]).name@ == n;
                    assert(out@[b] == before[b]);
                }
                assert(has_type(out@, out@[i as int].name@));
                assert forall|a: int| 0 <= a < out.len() && (#[trigger] out@[a]).name@ != out@[i as int].name@ implies (exists|b: int| 0 <= b < before.len() && before[b] == out@[a]) by {
                    assert(before[a] == out@[a]);
                }
            }
            return;
        }
        i = i + 1;
    }
    let ghost before = out@;
    let ghost tn = t.name@;
    out.push(t);
    proof {
        assert forall|n: Seq<char>| n != tn && has_type(before, n) implies has_type(out@, n) by {
            let b = choose|b: int| 0 <= b < before.len() && (#[trigger] before[b]).name@ == n;
            assert(out@[b] == before[b]);
        }
        assert(out@[before.len() as int].name@ == tn);
        assert forall|a: int| 0 <= a < out.len() implies (if (#[trigger] out@[a]).name@ == tn {
            out@[a] == t
        } else {
            exists|b: int| 0 <= b < before.len() && before[b] == out@[a]
        }) by {
            if a < before.len() {
                assert(before[a] == out@[a]);
            }
        }
        assert(has_type(out@, tn));
        assert forall|a: int| 0 <= a < out.len() && (#[trigger] out@[a]).name@ != tn implies (exists|b: int| 0 <= b < before.len() && before[b] == out@[a]) by {
            assert(before[a] == out@[a]);
        }
    }
}

proof fn lemma_records_step(
    ts: TypeSpecView,
    module: Seq<char>,
    before: Seq<TypeInfo>,
    after: Seq<TypeInfo>,
    t: TypeInfo,
    mi: int,
    ej: int,
    mi2: int,
    ej2: int,
)
    requires
        records_upto(ts, module, before, mi, ej),
        forall|n: Seq<char>| n != t.name@ ==> source_upto(ts, module, n, mi2, ej2) == source_upto(ts, module, n, mi, ej),
        source_upto(ts, module, t.name@, mi2, ej2) matches Some(src) && record_ok(ts, module, src, t),
        forall|a: int, b: int| 0 <= a < b < after.len() ==> after[a].name@ != after[b].name@,
        forall|a: int| 0 <= a < after.len() ==> (if (#[trigger] after[a]).name@ == t.name@ {
            after[a] == t
        } else {
            exists|b: int| 0 <= b < before.len() && before[b] == after[a]
        }),
        has_type(after, t.name@),
        forall|n: Seq<char>| n != t.name@ && has_type(before, n) ==> has_type(after, n),
    ensures
        records_upto(ts, module, after, mi2, ej2),
{
    assert forall|a: int| 0 <= a < after.len() implies match source_upto(ts, module, (#[trigger] after[a]).name@, mi2, ej2) {
        Some(src) => record_ok(ts, module, src, after[a]),
        None => false,
    } by {
        if after[a].name@ != t.name@ {
            let b = choose|b: int| 0 <= b < before.len() && before[b] == after[a];
            assert(before[b] == after[a]);
        }
    }
    assert forall|n: Seq<char>| #[trigger] source_upto(ts, module, n, mi2, ej2) is Some implies has_type(after, n) by {
        if n != t.name@ {
            assert(source_upto(ts, module, n, mi, ej) is Some);
        }
    }
}

proof fn lemma_records_same(ts: TypeSpecView, module: Seq<char>, out: Seq<TypeInfo>, mi: int, ej: int, mi2: int, ej2: int)
    requires
        records_upto(ts, module, out, mi, ej),
        forall|n: Seq<char>| source_upto(ts, module, n, mi2, ej2) == source_upto(ts, module, n, mi, ej),
    ensures
        records_upto(ts, module, out, mi2, ej2),
{
    assert forall|a: int| 0 <= a < out.len() implies match source_upto(ts, module, (#[trigger] out[a]).name@, mi2, ej2) {
        Some(src) => record_ok(ts, module, src, out[a]),
        None => false,
    } by {
        assert(source_upto(ts, module, out[a].name@, mi2, ej2) == source_upto(ts, module, out[a].name@, mi, ej));
    }
    assert forall|n: Seq<char>| #[trigger] source_upto(ts, module, n, mi2, ej2) is Some implies has_type(out, n) by {
        assert(source_upto(ts, module, n, mi2, ej2) == source_upto(ts, module, n, mi, ej));
    }
}

fn module_is(m: &Option<String>, v: &Vec<char>) -> (r: bool)
    ensures
        r == (opt_view(*m) == Some(v@)),
{
    assert(v@.subrange(0, v.len() as int) == v@);
    match m {
        Some(s) => eq_range(s, v, 0, v.len()),
        None => false,
    }
}

/// Resolves every type that `module` exposes, against the whole merged
/// specification `typespec`. Each mapping of the module onto a class gives a
/// class record, then each top-level enum of the module an enum record; a later
/// record replaces an earlier one of the same name. A reference that matches
/// nothing resolves to the unknown reference and never fails the run.
pub fn resolve_types(module: &str, typespec: TypeSpec) -> (r: Vec<TypeInfo>)
    ensures
        resolution_ok(typespec@, module@, r@),
{
    let ts = &typespec;
    let mv = chars_of(module);
    let mut out: Vec<TypeInfo> = Vec::new();
    let mut i: usize = 0;
    while i < ts.typemap.len()
        invariant
            i <= ts.typemap.len(),
            mv@ == module@,
            records_upto(ts@, module@, out@, i as int, 0),
        decreases ts.typemap.len() - i,
    {
        let m = &ts.typemap[i];
        let ghost before = out@;
        if module_is(&m.module, &mv) {
            match find_class(ts, &m.cname) {
                Some(c) => {
                    let t = TypeInfo {
                        name: m.name.clone(),
                        module: String::from_str(module),
                        details: TypeDetails::Class(resolve_class(ts, c)),
                    };
                    let ghost tn = t.name@;
                    assert(mapping_source(ts@, module@, tn)(ts@.typemap[i as int]));
                    assert forall|n: Seq<char>| n != tn implies source_upto(ts@, module@, n, i + 1, 0)
                        == source_upto(ts@, module@, n, i as int, 0) by {
                        assert(!mapping_source(ts@, module@, n)(ts@.typemap[i as int]));
                    }
                    put_record(&mut out, t);
                    proof {
                        lemma_records_step(ts@, module@, before, out@, t, i as int, 0, i + 1, 0);
                    }
                },
                None => {
                    assert forall|n: Seq<char>| source_upto(ts@, module@, n, i + 1, 0)
                        == source_upto(ts@, module@, n, i as int, 0) by {
                        assert(!mapping_source(ts@, module@, n)(ts@.typemap[i as int]));
                    }
                    proof {
                        lemma_records_same(ts@, module@, out@, i as int, 0, i + 1, 0);
                    }
                },
            }
        } else {
            assert forall|n: Seq<char>| source_upto(ts@, module@, n, i + 1, 0)
                == source_upto(ts@, module@, n, i as int, 0) by {
                assert(!mapping_source(ts@, module@, n)(ts@.typemap[i as int]));
            }
            proof {
                lemma_records_same(ts@, module@, out@, i as int, 0, i + 1, 0);
            }
        }
        i = i + 1;
    }
    let mut j: usize = 0;
    while j < ts.enums.len()
        invariant
            j <= ts.enums.len(),
            i == ts.typemap.len(),
            mv@ == module@,
            records_upto(ts@, module@, out@, i as int, j as int),
        decreases ts.enums.len() - j,
    {
        let e = &ts.enums[j];
        let ghost before = out@;
        if module_is(&e.module, &mv) {
            let t = TypeInfo {
                name: e.name.clone(),
                module: String::from_str(module),
                details: TypeDetails::Enum(EnumInfo {
                    description: copy_opt(&e.description),
                    details: copy_opt(&e.details),
                    variants: copy_variants(&e.variants),
                }),
            };
            let ghost tn = t.name@;
            assert(enum_source(module@, tn)(ts@.enums[j as int]));
            assert forall|n: Seq<char>| n != tn implies source_upto(ts@, module@, n, i as int, j + 1)
                == source_upto(ts@, module@, n, i as int, j as int) by {
                assert(!enum_source(module@, n)(ts@.enums[j as int]));
            }
            put_record(&mut out, t);
            proof {
                lemma_records_step(ts@, module@, before, out@, t, i as int, j as int, i as int, j + 1);
            }
        } else {
            assert forall|n: Seq<char>| source_upto(ts@, module@, n, i as int, j + 1)
                == source_upto(ts@, module@, n, i as int, j as int) by {
                assert(!enum_source(module@, n)(ts@.enums[j as int]));
            }
            proof {
                lemma_records_same(ts@, module@, out@, i as int, j as int, i as int, j + 1);
            }
        }
        j = j + 1;
    }
    out
}

/// A type name that no internal name or enum matches resolves to the unknown
/// reference, keeping the element type of a container: resolution does not
/// fail. A name that is no container resolves to the bare unknown reference.
pub proof fn lemma_unregistered_is_unknown(ts: TypeSpecView, ctype: Seq<char>)
    requires
        !is_prefix(script_tag(), ctype),
        forall|i: int| 0 <= i < ts.typemap.len() ==> !(#[trigger] by_cname_suffix(bare_text(ctype))(ts.typemap[i])),
        forall|j: int| 0 <= j < ts.enums.len() ==> !(#[trigger] enum_by_suffix(bare_text(ctype))(ts.enums[j])),
    ensures
        type_of(ts, ctype).source == TypeSource::Unknown,
        type_of(ts, ctype).module.len() == 0,
        type_of(ts, ctype).name.len() == 0,
        elem_text(ctype) is None ==> type_of(ts, ctype) == unknown_ref(),
{
    lemma_first_from(ts.typemap, by_cname_suffix(bare_text(ctype)), 0);
    lemma_first_from(ts.enums, enum_by_suffix(bare_text(ctype)), 0);
}

/// A class holding a nested enum named by the reserved token is flagged as an
/// enumeration and takes that enum's variants; a class without one is not
/// flagged so and has no variants.
pub proof fn lemma_enum_carrier(ts: TypeSpecView, c: int, ci: ClassInfo)
    requires
        0 <= c < ts.classes.len(),
        class_ok(ts, c, ci),
    ensures
        (exists|k: int| 0 <= k < ts.classes[c].enums.len() && (#[trigger] ts.classes[c].enums@[k]).name@ == enum_token())
            ==> ci.flags@ == seq![Flag::Enum] && exists|k: int| 0 <= k < ts.classes[c].enums.len()
                && ts.classes[c].enums@[k].name@ == enum_token()
                && variants_ok(ts.classes[c].enums@[k].variants@, ci.variants@),
        (forall|k: int| 0 <= k < ts.classes[c].enums.len() ==> (#[trigger] ts.classes[c].enums@[k]).name@ != enum_token())
            ==> !ci.flags@.contains(Flag::Enum) && ci.variants@.len() == 0,
{
    let cls = ts.classes[c];
    lemma_first_from(cls.enums@, enum_named(enum_token()), 0);
    match first_from(cls.enums@, enum_named(enum_token()), 0) {
        Some(k) => {
            assert(cls.enums@[k].name@ == enum_token());
        },
        None => {
            if exists|k: int| 0 <= k < cls.enums.len() && (#[trigger] cls.enums@[k]).name@ == enum_token() {
                let k = choose|k: int| 0 <= k < cls.enums.len() && (#[trigger] cls.enums@[k]).name@ == enum_token();
                assert(enum_named(enum_token())(cls.enums@[k]));
            }
            assert(!class_flags(false, cls).contains(Flag::Enum)) by {
                if class_flags(false, cls).len() > 0 {
                    assert(class_flags(false, cls)[0] != Flag::Enum);
                }
            }
        },
    }
}

/// The resolved members come out in strict order of name (methods: of name,
/// then of signature id), so no two properties or signals share a name.
pub proof fn lemma_members_ordered(ts: TypeSpecView, c: int, ci: ClassInfo)
    requires
        0 <= c < ts.classes.len(),
        class_ok(ts, c, ci),
    ensures
        forall|a: int, b: int| 0 <= a < b < ci.properties@.len() ==> lex_lt(ci.properties@[a].0@, ci.properties@[b].0@)
            && ci.properties@[a].0@ != ci.properties@[b].0@,
        forall|a: int, b: int| 0 <= a < b < ci.signals@.len() ==> lex_lt(ci.signals@[a].0@, ci.signals@[b].0@)
            && ci.signals@[a].0@ != ci.signals@[b].0@,
        forall|a: int, b: int| 0 <= a < b < ci.functions@.len() ==> lex_lt(ci.functions@[a].name@, ci.functions@[b].name@)
            || (ci.functions@[a].name@ == ci.functions@[b].name@ && lex_lt(ci.functions@[a].id@, ci.functions@[b].id@)),
{
    assert forall|a: int, b: int| 0 <= a < b < ci.properties@.len() implies lex_lt(ci.properties@[a].0@, ci.properties@[b].0@)
        && ci.properties@[a].0@ != ci.properties@[b].0@ by {
        crate::text::lemma_lex_irreflexive(ci.properties@[a].0@);
    }
    assert forall|a: int, b: int| 0 <= a < b < ci.signals@.len() implies lex_lt(ci.signals@[a].0@, ci.signals@[b].0@)
        && ci.signals@[a].0@ != ci.signals@[b].0@ by {
        crate::text::lemma_lex_irreflexive(ci.signals@[a].0@);
    }
    assert forall|a: int, b: int| 0 <= a < b < ci.functions@.len() implies lex_lt(ci.functions@[a].name@, ci.functions@[b].name@)
        || (ci.functions@[a].name@ == ci.functions@[b].name@ && lex_lt(ci.functions@[a].id@, ci.functions@[b].id@)) by {
        assert(key_lt((ci.functions@[a].name@, ci.functions@[a].id@), (ci.functions@[b].name@, ci.functions@[b].id@)));
    }
}

proof fn lemma_slots_prefix(order: Seq<usize>, count: spec_fn(usize) -> nat)
    requires
        order.len() > 0,
    ensures
        slots(order, count).len() >= count(order[0]),
        forall|m: int| 0 <= m < count(order[0]) ==> #[trigger] slots(order, count)[m] == (order[0], m as usize),
    decreases order.len(),
{
    let s = slots(order, count);
    if order.len() > 1 {
        lemma_slots_prefix(order.drop_last(), count);
        assert(order.drop_last()[0] == order[0]);
        assert forall|m: int| 0 <= m < count(order[0]) implies #[trigger] s[m] == (order[0], m as usize) by {
            assert(s[m] == slots(order.drop_last(), count)[m]);
        }
    } else {
        assert(order.drop_last() =~= Seq::<usize>::empty());
        assert(order.last() == order[0]);
        assert forall|m: int| 0 <= m < count(order[0]) implies #[trigger] s[m] == (order[0], m as usize) by {
            assert(slots(order.drop_last(), count) =~= Seq::<(usize, usize)>::empty());
            assert(s[m] == Seq::new(count(order.last()), |m: int| (order.last(), m as usize))[m]);
        }
    }
}

/// Members are absorbed once per name: every property and signal of the class
/// or of an internal ancestor it absorbs has exactly one entry of its name (a
/// method, one of its name and signature id), and a property the class itself
/// declares (first under its name) is the one resolved, over any ancestor's of
/// the same name.
pub proof fn lemma_members_once(ts: TypeSpecView, c: int, ci: ClassInfo)
    requires
        0 <= c < ts.classes.len(),
        ts.classes.len() <= usize::MAX,
        class_ok(ts, c, ci),
    ensures
        forall|k: int| #![trigger slots(member_order(ts, c), prop_count(ts))[k]]
            0 <= k < slots(member_order(ts, c), prop_count(ts)).len() ==> has_prop(
                ci.properties@,
                prop_at(ts, slots(member_order(ts, c), prop_count(ts))[k]).name@,
            ),
        forall|a: int, b: int| 0 <= a < ci.properties@.len() && 0 <= b < ci.properties@.len() && a != b
            ==> ci.properties@[a].0@ != ci.properties@[b].0@,
        forall|k: int| #![trigger slots(member_order(ts, c), signal_count(ts))[k]]
            0 <= k < slots(member_order(ts, c), signal_count(ts)).len() ==> has_signal(
                ci.signals@,
                signal_at(ts, slots(member_order(ts, c), signal_count(ts))[k]).name@,
            ),
        forall|a: int, b: int| 0 <= a < ci.signals@.len() && 0 <= b < ci.signals@.len() && a != b
            ==> ci.signals@[a].0@ != ci.signals@[b].0@,
        forall|k: int| #![trigger slots(member_order(ts, c), fn_count(ts))[k]]
            0 <= k < slots(member_order(ts, c), fn_count(ts)).len() ==> has_fn(
                ci.functions@,
                fn_key(ts, fn_at(ts, slots(member_order(ts, c), fn_count(ts))[k])),
            ),
        forall|a: int, b: int| 0 <= a < ci.functions@.len() && 0 <= b < ci.functions@.len() && a != b
            ==> (ci.functions@[a].name@, ci.functions@[a].id@) != (ci.functions@[b].name@, ci.functions@[b].id@),
        forall|k: int| 0 <= k < ts.classes[c].properties.len() && (forall|j: int| 0 <= j < k
            ==> ts.classes[c].properties@[j].name@ != (#[trigger] ts.classes[c].properties@[k]).name@)
            ==> exists|a: int| 0 <= a < ci.properties@.len() && ci.properties@[a].0@ == ts.classes[c].properties@[k].name@
                && property_ok(ts, ts.classes[c].properties@[k], ci.properties@[a].1),
{
    lemma_members_ordered(ts, c, ci);
    let order = member_order(ts, c);
    let sl = slots(order, prop_count(ts));
    assert(order[0] == c as usize);
    lemma_slots_prefix(order, prop_count(ts));
    assert forall|a: int, b: int| 0 <= a < ci.properties@.len() && 0 <= b < ci.properties@.len() && a != b
        implies ci.properties@[a].0@ != ci.properties@[b].0@ by {
        if b < a {
            assert(lex_lt(ci.properties@[b].0@, ci.properties@[a].0@));
            crate::text::lemma_lex_irreflexive(ci.properties@[b].0@);
        } else {
            assert(lex_lt(ci.properties@[a].0@, ci.properties@[b].0@));
            crate::text::lemma_lex_irreflexive(ci.properties@[a].0@);
        }
    }
    assert forall|a: int, b: int| 0 <= a < ci.signals@.len() && 0 <= b < ci.signals@.len() && a != b
        implies ci.signals@[a].0@ != ci.signals@[b].0@ by {
        if b < a {
            assert(lex_lt(ci.signals@[b].0@, ci.signals@[a].0@));
            crate::text::lemma_lex_irreflexive(ci.signals@[b].0@);
        } else {
            assert(lex_lt(ci.signals@[a].0@, ci.signals@[b].0@));
            crate::text::lemma_lex_irreflexive(ci.signals@[a].0@);
        }
    }
    assert forall|a: int, b: int| 0 <= a < ci.functions@.len() && 0 <= b < ci.functions@.len() && a != b
        implies (ci.functions@[a].name@, ci.functions@[a].id@) != (ci.functions@[b].name@, ci.functions@[b].id@) by {
        let ka = (ci.functions@[a].name@, ci.functions@[a].id@);
        let kb = (ci.functions@[b].name@, ci.functions@[b].id@);
        if b < a {
            assert(key_lt(kb, ka));
        } else {
            assert(key_lt(ka, kb));
        }
        crate::order::lemma_key_order(ka, kb, ka);
    }
    assert forall|k: int| 0 <= k < ts.classes[c].properties.len() && (forall|j: int| 0 <= j < k
        ==> ts.classes[c].properties@[j].name@ != (#[trigger] ts.classes[c].properties@[k]).name@)
        implies exists|a: int| 0 <= a < ci.properties@.len() && ci.properties@[a].0@ == ts.classes[c].properties@[k].name@
            && property_ok(ts, ts.classes[c].properties@[k], ci.properties@[a].1) by {
        let n = ts.classes[c].properties@[k].name@;
        assert(prop_count(ts)(order[0]) == ts.classes[c].properties@.len());
        assert(sl[k] == (c as usize, k as usize));
        assert(prop_at(ts, sl[k]).name@ == n);
        assert(has_prop(ci.properties@, n));
        let a = choose|a: int| 0 <= a < ci.properties@.len() && (#[trigger] ci.properties@[a]).0@ == n;
        let p = prop_named(ts, n);
        assert forall|j: int| 0 <= j < k implies !p(#[trigger] sl[j]) by {
            assert(sl[j] == (c as usize, j as usize));
        }
        lemma_first_is(sl, p, k, 0);
        assert(ci.properties@[a].0@ == n);
    }
}

/// No two positions of `s` both satisfy `p`.
pub open spec fn at_most_one<T>(s: Seq<T>, p: spec_fn(T) -> bool) -> bool {
    forall|i: int, j: int| 0 <= i < s.len() && 0 <= j < s.len() && i != j && p(#[trigger] s[i]) ==> !p(#[trigger] s[j])
}

/// Every position of `a + b` that satisfies `p` lies within `a`, or every one within `b`.
pub open spec fn one_side<T>(a: Seq<T>, b: Seq<T>, p: spec_fn(T) -> bool) -> bool {
    (forall|i: int| 0 <= i < a.len() ==> !p(#[trigger] a[i])) || (forall|j: int| 0 <= j < b.len() ==> !p(#[trigger] b[j]))
}

proof fn lemma_sides<T>(a: Seq<T>, b: Seq<T>, p: spec_fn(T) -> bool)
    requires
        at_most_one(a + b, p),
    ensures
        one_side(a, b, p),
{
    if !(forall|i: int| 0 <= i < a.len() ==> !p(#[trigger] a[i])) {
        let i = choose|i: int| 0 <= i < a.len() && p(#[trigger] a[i]);
        assert((a + b)[i] == a[i]);
        assert forall|j: int| 0 <= j < b.len() implies !p(#[trigger] b[j]) by {
            assert((a + b)[a.len() + j] == b[j]);
        }
    }
}

proof fn lemma_first_swap<T>(a: Seq<T>, b: Seq<T>, p: spec_fn(T) -> bool)
    requires
        one_side(a, b, p),
    ensures
        match (first_from(a + b, p, 0), first_from(b + a, p, 0)) {
            (Some(i), Some(j)) => (a + b)[i] == (b + a)[j],
            (None, None) => true,
            _ => false,
        },
{
    lemma_first_index_swap(a, b, p);
    lemma_first_from(a + b, p, 0);
    match first_from(a + b, p, 0) {
        Some(i) => {
            assert((b + a)[swapped_index(i, a.len() as int, b.len() as int)] == (a + b)[i]);
        },
        None => {},
    }
}

proof fn lemma_suffix_of_suffix(x: Seq<char>, y: Seq<char>, s: Seq<char>)
    requires
        is_suffix(x, s),
        is_suffix(y, s),
        x.len() <= y.len(),
    ensures
        is_suffix(x, y),
{
    assert(y.subrange(y.len() - x.len(), y.len() as int) =~= x) by {
        assert forall|k: int| 0 <= k < x.len() implies y.subrange(y.len() - x.len(), y.len() as int)[k] == x[k] by {
            assert(y[y.len() - x.len() + k] == s[s.len() - y.len() + y.len() - x.len() + k]);
            assert(x[k] == s[s.len() - x.len() + k]);
        }
    }
}

/// Internal names in `ts` are unambiguous: no non-empty internal name of a
/// mapping (or of an enum) ends another, and value types have distinct names.

/// The two specifications expose no name in common (one may expose a name
/// twice, as a class and its reserved enum are).
pub open spec fn exposed_apart(a: TypeSpecView, b: TypeSpecView) -> bool {
    forall|i: int, j: int| 0 <= i < a.typemap.len() && 0 <= j < b.typemap.len()
        ==> (#[trigger] a.typemap[i]).name@ != (#[trigger] b.typemap[j]).name@
}

proof fn lemma_exposed_sides(a: TypeSpecView, b: TypeSpecView, p: spec_fn(QmlTypeMapping) -> bool, n: Seq<char>)
    requires
        exposed_apart(a, b),
        forall|x: QmlTypeMapping| #[trigger] p(x) ==> x.name@ == n,
    ensures
        one_side(a.typemap, b.typemap, p),
{
    if !(forall|i: int| 0 <= i < a.typemap.len() ==> !p(#[trigger] a.typemap[i])) {
        let i = choose|i: int| 0 <= i < a.typemap.len() && p(#[trigger] a.typemap[i]);
        assert forall|j: int| 0 <= j < b.typemap.len() implies !p(#[trigger] b.typemap[j]) by {
            assert(a.typemap[i].name@ != b.typemap[j].name@);
        }
    }
}

/// Internal names in `ts` are unambiguous.
pub open spec fn unambiguous(ts: TypeSpecView) -> bool {
    &&& forall|i: int, j: int| 0 <= i < ts.typemap.len() && 0 <= j < ts.typemap.len() && i != j
        ==> (#[trigger] ts.typemap[i]).cname@ != (#[trigger] ts.typemap[j]).cname@
            && !(ts.typemap[i].cname@.len() > 0 && is_suffix(ts.typemap[i].cname@, ts.typemap[j].cname@))
    &&& forall|i: int, j: int| 0 <= i < ts.enums.len() && 0 <= j < ts.enums.len() && i != j
        ==> match ((#[trigger] ts.enums[i]).cname, (#[trigger] ts.enums[j]).cname) {
            (Some(x), Some(y)) => !(x@.len() > 0 && is_suffix(x@, y@)),
            _ => true,
        }
    &&& forall|i: int, j: int| 0 <= i < ts.gadgets.len() && 0 <= j < ts.gadgets.len() && i != j
        ==> (#[trigger] ts.gadgets[i]).cname@ != (#[trigger] ts.gadgets[j]).cname@
}

proof fn lemma_unambiguous_lookups(ts: TypeSpecView, n: Seq<char>)
    requires
        unambiguous(ts),
    ensures
        at_most_one(ts.typemap, by_cname(n)),
        at_most_one(ts.typemap, by_cname_suffix(n)),
        at_most_one(ts.enums, enum_by_suffix(n)),
        at_most_one(ts.gadgets, gadget_named(n)),
{
    assert forall|i: int, j: int| 0 <= i < ts.typemap.len() && 0 <= j < ts.typemap.len() && i != j
        && by_cname_suffix(n)(#[trigger] ts.typemap[i]) implies !by_cname_suffix(n)(#[trigger] ts.typemap[j]) by {
        if by_cname_suffix(n)(ts.typemap[j]) {
            let x = ts.typemap[i].cname@;
            let y = ts.typemap[j].cname@;
            if x.len() <= y.len() {
                lemma_suffix_of_suffix(x, y, n);
            } else {
                lemma_suffix_of_suffix(y, x, n);
            }
        }
    }
    assert forall|i: int, j: int| 0 <= i < ts.enums.len() && 0 <= j < ts.enums.len() && i != j
        && enum_by_suffix(n)(#[trigger] ts.enums[i]) implies !enum_by_suffix(n)(#[trigger] ts.enums[j]) by {
        if enum_by_suffix(n)(ts.enums[j]) {
            let x = ts.enums[i].cname->0@;
            let y = ts.enums[j].cname->0@;
            if x.len() <= y.len() {
                lemma_suffix_of_suffix(x, y, n);
            } else {
                lemma_suffix_of_suffix(y, x, n);
            }
        }
    }
}

/// Where the names of the merged specifications are unambiguous, a type
/// reference resolves the same whichever specification was merged first.
pub proof fn lemma_type_of_merge_order(a: TypeSpecView, b: TypeSpecView, ctype: Seq<char>)
    requires
        unambiguous(merged(a, b)),
        exposed_apart(a, b),
    ensures
        type_of(merged(a, b), ctype) == type_of(merged(b, a), ctype),
    decreases ctype.len(),
{
    let ab = merged(a, b);
    let ba = merged(b, a);
    if is_prefix(script_tag(), ctype) {
        let n = ctype.subrange(4, ctype.len() as int);
        lemma_unambiguous_lookups(ab, n);
        lemma_exposed_sides(a, b, by_exposed(n), n);
        lemma_first_swap(a.typemap, b.typemap, by_exposed(n));
    } else {
        match elem_text(ctype) {
            Some(e) => if e.len() < ctype.len() {
                lemma_type_of_merge_order(a, b, e);
            },
            None => {},
        }
        let bare = bare_text(ctype);
        lemma_unambiguous_lookups(ab, bare);
        lemma_sides(a.typemap, b.typemap, by_cname_suffix(bare));
        lemma_first_swap(a.typemap, b.typemap, by_cname_suffix(bare));
        lemma_sides(a.enums, b.enums, enum_by_suffix(bare));
        lemma_first_swap(a.enums, b.enums, enum_by_suffix(bare));
    }
}

/// Where the names of the merged specifications are unambiguous, a property
/// type resolved against `a + b` is the one owed against `b + a`.
pub proof fn lemma_prop_type_merge_order(a: TypeSpecView, b: TypeSpecView, ctype: Seq<char>, depth: nat, o: PropertyType)
    requires
        unambiguous(merged(a, b)),
        exposed_apart(a, b),
        prop_type_ok(merged(a, b), ctype, depth, o),
    ensures
        prop_type_ok(merged(b, a), ctype, depth, o),
    decreases depth,
{
    let ab = merged(a, b);
    let ba = merged(b, a);
    lemma_unambiguous_lookups(ab, ctype);
    lemma_sides(a.gadgets, b.gadgets, gadget_named(ctype));
    lemma_first_swap(a.gadgets, b.gadgets, gadget_named(ctype));
    lemma_type_of_merge_order(a, b, ctype);
    match (first_from(ab.gadgets, gadget_named(ctype), 0), first_from(ba.gadgets, gadget_named(ctype), 0)) {
        (Some(i), Some(j)) => if depth > 0 {
            let ps = ab.gadgets[i].properties@;
            assert(ba.gadgets[j].properties@ == ps);
            match o {
                PropertyType::Gadget(m) => {
                    assert forall|k: int| 0 <= k < ps.len() implies (#[trigger] m@[k]).0@ == ps[k].name@
                        && prop_type_ok(ba, ps[k].type_@, (depth - 1) as nat, m@[k].1) by {
                        lemma_prop_type_merge_order(a, b, ps[k].type_@, (depth - 1) as nat, m@[k].1);
                    }
                },
                PropertyType::Type(_) => {},
            }
        },
        _ => {},
    }
}

proof fn lemma_first_from_exists<T>(s: Seq<T>, p: spec_fn(T) -> bool)
    ensures
        first_from(s, p, 0) is Some <==> exists|i: int| 0 <= i < s.len() && p(#[trigger] s[i]),
{
    lemma_first_from(s, p, 0);
    if first_from(s, p, 0) is Some {
        let i = first_from(s, p, 0)->0;
        assert(p(s[i]));
    }
}

proof fn lemma_last_below_exists<T>(s: Seq<T>, p: spec_fn(T) -> bool, k: int)
    requires
        0 <= k <= s.len(),
    ensures
        last_below(s, p, k) is Some <==> exists|i: int| 0 <= i < k && p(#[trigger] s[i]),
    decreases k,
{
    if k > 0 {
        lemma_last_below_exists(s, p, k - 1);
        if p(s[k - 1]) {
            assert(p(s[k - 1]));
        } else if exists|i: int| 0 <= i < k && p(#[trigger] s[i]) {
            let i = choose|i: int| 0 <= i < k && p(#[trigger] s[i]);
            assert(i < k - 1);
        }
    }
}

proof fn lemma_exists_swap<T>(a: Seq<T>, b: Seq<T>, p: spec_fn(T) -> bool, q: spec_fn(T) -> bool)
    requires
        forall|x: T| #[trigger] p(x) == q(x),
    ensures
        (exists|i: int| 0 <= i < (a + b).len() && p(#[trigger] (a + b)[i]))
            <==> (exists|i: int| 0 <= i < (b + a).len() && q(#[trigger] (b + a)[i])),
{
    if exists|i: int| 0 <= i < (a + b).len() && p(#[trigger] (a + b)[i]) {
        let i = choose|i: int| 0 <= i < (a + b).len() && p(#[trigger] (a + b)[i]);
        let j = if i < a.len() { b.len() + i } else { i - a.len() };
        assert((b + a)[j] == (a + b)[i]);
        assert(q((b + a)[j]));
    }
    if exists|i: int| 0 <= i < (b + a).len() && q(#[trigger] (b + a)[i]) {
        let i = choose|i: int| 0 <= i < (b + a).len() && q(#[trigger] (b + a)[i]);
        let j = if i < b.len() { a.len() + i } else { i - b.len() };
        assert((a + b)[j] == (b + a)[i]);
        assert(p((a + b)[j]));
    }
}

/// Which names of a module get a final record, and whether each is a class or
/// an enum record, does not depend on the order in which specifications were merged.
pub proof fn lemma_record_names_merge_order(a: TypeSpecView, b: TypeSpecView, module: Seq<char>, n: Seq<char>)
    ensures
        record_source(merged(a, b), module, n) is Some <==> record_source(merged(b, a), module, n) is Some,
        record_source(merged(a, b), module, n) matches Some(Source::Enum(_))
            <==> record_source(merged(b, a), module, n) matches Some(Source::Enum(_)),
{
    let ab = merged(a, b);
    let ba = merged(b, a);
    assert forall|x: QmlTypeMapping| #[trigger] mapping_source(ab, module, n)(x) == mapping_source(ba, module, n)(x) by {
        lemma_first_from_exists(ab.classes, class_named(x.cname@));
        lemma_first_from_exists(ba.classes, class_named(x.cname@));
        lemma_exists_swap(a.classes, b.classes, class_named(x.cname@), class_named(x.cname@));
    }
    lemma_exists_swap(a.typemap, b.typemap, mapping_source(ab, module, n), mapping_source(ba, module, n));
    lemma_exists_swap(a.enums, b.enums, enum_source(module, n), enum_source(module, n));
    lemma_last_below_exists(ab.typemap, mapping_source(ab, module, n), ab.typemap.len() as int);
    lemma_last_below_exists(ba.typemap, mapping_source(ba, module, n), ba.typemap.len() as int);
    lemma_last_below_exists(ab.enums, enum_source(module, n), ab.enums.len() as int);
    lemma_last_below_exists(ba.enums, enum_source(module, n), ba.enums.len() as int);
}

/// Where position `x` of `a + b` stands in `b + a`.
pub open spec fn swapped_index(x: int, a_len: int, b_len: int) -> int {
    if x < a_len {
        x + b_len
    } else {
        x - a_len
    }
}

pub open spec fn swap_usize(x: usize, a_len: int, b_len: int) -> usize {
    swapped_index(x as int, a_len, b_len) as usize
}

/// Class names are distinct.
pub open spec fn distinct_classes(ts: TypeSpecView) -> bool {
    forall|i: int, j: int| 0 <= i < ts.classes.len() && 0 <= j < ts.classes.len() && i != j
        ==> (#[trigger] ts.classes[i]).name@ != (#[trigger] ts.classes[j]).name@
}

proof fn lemma_first_index_swap<T>(a: Seq<T>, b: Seq<T>, p: spec_fn(T) -> bool)
    requires
        one_side(a, b, p),
    ensures
        match first_from(a + b, p, 0) {
            Some(i) => first_from(b + a, p, 0) == Some(swapped_index(i, a.len() as int, b.len() as int)),
            None => first_from(b + a, p, 0) is None,
        },
{
    let ab = a + b;
    let ba = b + a;
    lemma_first_from(ab, p, 0);
    lemma_first_from(ba, p, 0);
    match first_from(ab, p, 0) {
        Some(i) => {
            let k = swapped_index(i, a.len() as int, b.len() as int);
            assert(ba[k] == ab[i]);
            if i < a.len() {
                assert(ab[i] == a[i]);
            } else {
                assert(ab[i] == b[i - a.len()]);
            }
            assert forall|j: int| 0 <= j < k implies !p(#[trigger] ba[j]) by {
                if j < b.len() {
                    assert(ba[j] == b[j]);
                    assert(ab[a.len() + j] == b[j]);
                } else {
                    assert(ba[j] == a[j - b.len()]);
                    assert(ab[j - b.len()] == a[j - b.len()]);
                }
            }
            lemma_first_is(ba, p, k, 0);
        },
        None => {
            if first_from(ba, p, 0) is Some {
                let j = first_from(ba, p, 0)->0;
                let i2 = if j < b.len() { a.len() + j } else { j - b.len() };
                assert(ab[i2] == ba[j]);
            }
        },
    }
}

proof fn lemma_exposed_lookup_swap(a: TypeSpecView, b: TypeSpecView, n: Seq<char>)
    requires
        unambiguous(merged(a, b)),
        exposed_apart(a, b),
    ensures
        match (exposed_lookup(merged(a, b), n), exposed_lookup(merged(b, a), n)) {
            (Some(i), Some(j)) => merged(a, b).typemap[i] == merged(b, a).typemap[j],
            (None, None) => true,
            _ => false,
        },
{
    let ab = merged(a, b);
    if is_prefix(script_tag(), n) {
        lemma_unambiguous_lookups(ab, n.subrange(4, n.len() as int));
        lemma_exposed_sides(a, b, by_exposed(n.subrange(4, n.len() as int)), n.subrange(4, n.len() as int));
        lemma_first_swap(a.typemap, b.typemap, by_exposed(n.subrange(4, n.len() as int)));
    } else {
        lemma_unambiguous_lookups(ab, n);
        assert(at_most_one(ab.typemap, by_cname(n))) by {
            assert forall|i: int, j: int| 0 <= i < ab.typemap.len() && 0 <= j < ab.typemap.len() && i != j
                && by_cname(n)(#[trigger] ab.typemap[i]) implies !by_cname(n)(#[trigger] ab.typemap[j]) by {}
        }
        lemma_sides(a.typemap, b.typemap, by_cname(n));
        lemma_first_swap(a.typemap, b.typemap, by_cname(n));
    }
}

/// The walk from class `c` of `a + b` passes the same classes, at their swapped
/// places, as the walk from the same class of `b + a`, and ends at the same reference.
proof fn lemma_walk_swap(a: TypeSpecView, b: TypeSpecView, c: int, fuel: nat)
    requires
        unambiguous(merged(a, b)),
        exposed_apart(a, b),
        distinct_classes(merged(a, b)),
        0 <= c < merged(a, b).classes.len(),
        merged(a, b).classes.len() <= usize::MAX,
    ensures
        walk(merged(b, a), swapped_index(c, a.classes.len() as int, b.classes.len() as int), fuel).0
            == walk(merged(a, b), c, fuel).0,
        walk(merged(b, a), swapped_index(c, a.classes.len() as int, b.classes.len() as int), fuel).1
            == walk(merged(a, b), c, fuel).1.map_values(|x: usize| swap_usize(x, a.classes.len() as int, b.classes.len() as int)),
        forall|i: int| 0 <= i < walk(merged(a, b), c, fuel).1.len() ==> (#[trigger] walk(merged(a, b), c, fuel).1[i]) < merged(a, b).classes.len(),
    decreases fuel,
{
    let ab = merged(a, b);
    let ba = merged(b, a);
    let al = a.classes.len() as int;
    let bl = b.classes.len() as int;
    let c2 = swapped_index(c, al, bl);
    assert(ba.classes[c2] == ab.classes[c]);
    let sup = ab.classes[c].superclass@;
    lemma_exposed_lookup_swap(a, b, sup);
    assert(at_most_one(ab.classes, class_named(sup))) by {
        assert forall|i: int, j: int| 0 <= i < ab.classes.len() && 0 <= j < ab.classes.len() && i != j
            && class_named(sup)(#[trigger] ab.classes[i]) implies !class_named(sup)(#[trigger] ab.classes[j]) by {}
    }
    lemma_sides(a.classes, b.classes, class_named(sup));
    lemma_first_index_swap(a.classes, b.classes, class_named(sup));
    lemma_first_from(ab.classes, class_named(sup), 0);
    match exposed_lookup(ab, sup) {
        Some(_) => {
            assert(Seq::<usize>::empty().map_values(|x: usize| swap_usize(x, al, bl)) =~= Seq::<usize>::empty());
        },
        None => match first_from(ab.classes, class_named(sup), 0) {
            Some(d) => if fuel == 0 {
                assert(Seq::<usize>::empty().map_values(|x: usize| swap_usize(x, al, bl)) =~= Seq::<usize>::empty());
            } else {
                lemma_walk_swap(a, b, d, (fuel - 1) as nat);
                let rest = walk(ab, d, (fuel - 1) as nat).1;
                assert(swap_usize(d as usize, al, bl) == swapped_index(d, al, bl) as usize);
                assert((seq![d as usize] + rest).map_values(|x: usize| swap_usize(x, al, bl))
                    =~= seq![swapped_index(d, al, bl) as usize] + rest.map_values(|x: usize| swap_usize(x, al, bl)));
                let full = seq![d as usize] + rest;
                assert forall|i: int| 0 <= i < full.len() implies (#[trigger] full[i]) < ab.classes.len() by {
                    if i > 0 {
                        assert(full[i] == rest[i - 1]);
                    }
                }
            },
            None => {
                assert(Seq::<usize>::empty().map_values(|x: usize| swap_usize(x, al, bl)) =~= Seq::<usize>::empty());
            },
        },
    }
}

pub open spec fn swap_slot(sl: (usize, usize), a_len: int, b_len: int) -> (usize, usize) {
    (swap_usize(sl.0, a_len, b_len), sl.1)
}

proof fn lemma_slots_swap(order: Seq<usize>, cab: spec_fn(usize) -> nat, cba: spec_fn(usize) -> nat, a_len: int, b_len: int)
    requires
        forall|i: int| 0 <= i < order.len() ==> cba(swap_usize(#[trigger] order[i], a_len, b_len)) == cab(order[i]),
    ensures
        slots(order.map_values(|x: usize| swap_usize(x, a_len, b_len)), cba)
            == slots(order, cab).map_values(|sl: (usize, usize)| swap_slot(sl, a_len, b_len)),
    decreases order.len(),
{
    let mo = order.map_values(|x: usize| swap_usize(x, a_len, b_len));
    if order.len() > 0 {
        assert(mo.drop_last() =~= order.drop_last().map_values(|x: usize| swap_usize(x, a_len, b_len)));
        lemma_slots_swap(order.drop_last(), cab, cba, a_len, b_len);
        assert(cba(mo.last()) == cab(order.last()));
        assert(slots(mo, cba) =~= slots(order, cab).map_values(|sl: (usize, usize)| swap_slot(sl, a_len, b_len)));
    } else {
        assert(mo =~= Seq::<usize>::empty());
        assert(slots(order, cab).map_values(|sl: (usize, usize)| swap_slot(sl, a_len, b_len)) =~= Seq::<(usize, usize)>::empty());
    }
}

proof fn lemma_first_from_congruent<T, U>(s: Seq<T>, p: spec_fn(T) -> bool, t: Seq<U>, q: spec_fn(U) -> bool, i: int)
    requires
        s.len() == t.len(),
        forall|k: int| 0 <= k < s.len() ==> p(#[trigger] s[k]) == q(t[k]),
    ensures
        first_from(s, p, i) == first_from(t, q, i),
    decreases s.len() - i,
{
    if 0 <= i < s.len() {
        lemma_first_from_congruent(s, p, t, q, i + 1);
    }
}

proof fn lemma_param_names_swap(a: TypeSpecView, b: TypeSpecView, ps: Seq<FnParam>)
    requires
        unambiguous(merged(a, b)),
        exposed_apart(a, b),
    ensures
        param_type_names(merged(a, b), ps) == param_type_names(merged(b, a), ps),
    decreases ps.len(),
{
    if ps.len() > 0 {
        lemma_param_names_swap(a, b, ps.drop_last());
        lemma_type_of_merge_order(a, b, ps.last().type_@);
    }
}

proof fn lemma_params_ok_swap(a: TypeSpecView, b: TypeSpecView, ps: Seq<FnParam>, os: Seq<Parameter>)
    requires
        unambiguous(merged(a, b)),
        exposed_apart(a, b),
        params_ok(merged(a, b), ps, os),
    ensures
        params_ok(merged(b, a), ps, os),
{
    assert forall|i: int| 0 <= i < ps.len() implies (#[trigger] os[i]).name == ps[i].name && os[i].type_@ == type_of(merged(b, a), ps[i].type_@) by {
        lemma_type_of_merge_order(a, b, ps[i].type_@);
    }
}

/// Members at positions `sl` of `a + b` and at the swapped positions `sl2` of `b + a`.
pub open spec fn slots_swapped(a: TypeSpecView, b: TypeSpecView, sl: Seq<(usize, usize)>, sl2: Seq<(usize, usize)>) -> bool {
    &&& sl2 == sl.map_values(|x: (usize, usize)| swap_slot(x, a.classes.len() as int, b.classes.len() as int))
    &&& forall|k: int| 0 <= k < sl.len() ==> ((#[trigger] sl[k]).0 as int) < merged(a, b).classes.len()
    &&& merged(a, b).classes.len() <= usize::MAX
}

proof fn lemma_slot_swap_member(a: TypeSpecView, b: TypeSpecView, sl: Seq<(usize, usize)>, sl2: Seq<(usize, usize)>, k: int)
    requires
        slots_swapped(a, b, sl, sl2),
        0 <= k < sl.len(),
    ensures
        merged(b, a).classes[sl2[k].0 as int] == merged(a, b).classes[sl[k].0 as int],
        sl2[k].1 == sl[k].1,
{
    let x = sl[k].0 as int;
    assert(sl2[k] == swap_slot(sl[k], a.classes.len() as int, b.classes.len() as int));
    assert(merged(b, a).classes[swapped_index(x, a.classes.len() as int, b.classes.len() as int)] == merged(a, b).classes[x]);
}

proof fn lemma_props_ok_swap(a: TypeSpecView, b: TypeSpecView, sl: Seq<(usize, usize)>, sl2: Seq<(usize, usize)>, out: Seq<(String, outform::Property)>)
    requires
        unambiguous(merged(a, b)),
        exposed_apart(a, b),
        slots_swapped(a, b, sl, sl2),
        props_ok(merged(a, b), sl, out),
    ensures
        props_ok(merged(b, a), sl2, out),
{
    let ab = merged(a, b);
    let ba = merged(b, a);
    assert forall|k: int| 0 <= k < sl.len() implies prop_at(ba, #[trigger] sl2[k]) == prop_at(ab, sl[k]) by {
        lemma_slot_swap_member(a, b, sl, sl2, k);
    }
    assert forall|x: int| 0 <= x < out.len() implies match first_from(sl2, prop_named(ba, (#[trigger] out[x]).0@), 0) {
        Some(k) => property_ok(ba, prop_at(ba, sl2[k]), out[x].1),
        None => false,
    } by {
        let n = out[x].0@;
        assert forall|k: int| 0 <= k < sl.len() implies prop_named(ab, n)(#[trigger] sl[k]) == prop_named(ba, n)(sl2[k]) by {
            assert(prop_at(ba, sl2[k]) == prop_at(ab, sl[k]));
        }
        lemma_first_from_congruent(sl, prop_named(ab, n), sl2, prop_named(ba, n), 0);
        lemma_first_from(sl, prop_named(ab, n), 0);
        match first_from(sl, prop_named(ab, n), 0) {
            Some(k) => {
                assert(prop_at(ba, sl2[k]) == prop_at(ab, sl[k]));
                lemma_prop_type_merge_order(a, b, prop_at(ab, sl[k]).type_@, ab.gadgets.len(), out[x].1.type_);
            },
            None => {},
        }
    }
    assert forall|k: int| 0 <= k < sl2.len() implies has_prop(out, prop_at(ba, #[trigger] sl2[k]).name@) by {
        assert(prop_at(ba, sl2[k]) == prop_at(ab, sl[k]));
        assert(has_prop(out, prop_at(ab, sl[k]).name@));
    }
}

proof fn lemma_signals_ok_swap(a: TypeSpecView, b: TypeSpecView, sl: Seq<(usize, usize)>, sl2: Seq<(usize, usize)>, out: Seq<(String, outform::Signal)>)
    requires
        unambiguous(merged(a, b)),
        exposed_apart(a, b),
        slots_swapped(a, b, sl, sl2),
        signals_ok(merged(a, b), sl, out),
    ensures
        signals_ok(merged(b, a), sl2, out),
{
    let ab = merged(a, b);
    let ba = merged(b, a);
    assert forall|k: int| 0 <= k < sl.len() implies signal_at(ba, #[trigger] sl2[k]) == signal_at(ab, sl[k]) by {
        lemma_slot_swap_member(a, b, sl, sl2, k);
    }
    assert forall|x: int| 0 <= x < out.len() implies match first_from(sl2, signal_named(ba, (#[trigger] out[x]).0@), 0) {
        Some(k) => signal_ok(ba, signal_at(ba, sl2[k]), out[x].1) && out[x].1.name == out[x].0,
        None => false,
    } by {
        let n = out[x].0@;
        assert forall|k: int| 0 <= k < sl.len() implies signal_named(ab, n)(#[trigger] sl[k]) == signal_named(ba, n)(sl2[k]) by {
            assert(signal_at(ba, sl2[k]) == signal_at(ab, sl[k]));
        }
        lemma_first_from_congruent(sl, signal_named(ab, n), sl2, signal_named(ba, n), 0);
        lemma_first_from(sl, signal_named(ab, n), 0);
        match first_from(sl, signal_named(ab, n), 0) {
            Some(k) => {
                assert(signal_at(ba, sl2[k]) == signal_at(ab, sl[k]));
                lemma_params_ok_swap(a, b, signal_at(ab, sl[k]).params@, out[x].1.params@);
            },
            None => {},
        }
    }
    assert forall|k: int| 0 <= k < sl2.len() implies has_signal(out, signal_at(ba, #[trigger] sl2[k]).name@) by {
        assert(signal_at(ba, sl2[k]) == signal_at(ab, sl[k]));
        assert(has_signal(out, signal_at(ab, sl[k]).name@));
    }
}

proof fn lemma_fns_ok_swap(a: TypeSpecView, b: TypeSpecView, sl: Seq<(usize, usize)>, sl2: Seq<(usize, usize)>, out: Seq<outform::Function>)
    requires
        unambiguous(merged(a, b)),
        exposed_apart(a, b),
        slots_swapped(a, b, sl, sl2),
        fns_ok(merged(a, b), sl, out),
    ensures
        fns_ok(merged(b, a), sl2, out),
{
    let ab = merged(a, b);
    let ba = merged(b, a);
    assert forall|k: int| 0 <= k < sl.len() implies fn_at(ba, #[trigger] sl2[k]) == fn_at(ab, sl[k])
        && fn_key(ba, fn_at(ba, sl2[k])) == fn_key(ab, fn_at(ab, sl[k])) by {
        lemma_slot_swap_member(a, b, sl, sl2, k);
        lemma_param_names_swap(a, b, fn_at(ab, sl[k]).params@);
    }
    assert forall|x: int| 0 <= x < out.len() implies match first_from(sl2, fn_keyed(ba, ((#[trigger] out[x]).name@, out[x].id@)), 0) {
        Some(k) => function_ok(ba, fn_at(ba, sl2[k]), out[x]),
        None => false,
    } by {
        let key = (out[x].name@, out[x].id@);
        assert forall|k: int| 0 <= k < sl.len() implies fn_keyed(ab, key)(#[trigger] sl[k]) == fn_keyed(ba, key)(sl2[k]) by {
            assert(fn_key(ba, fn_at(ba, sl2[k])) == fn_key(ab, fn_at(ab, sl[k])));
        }
        lemma_first_from_congruent(sl, fn_keyed(ab, key), sl2, fn_keyed(ba, key), 0);
        lemma_first_from(sl, fn_keyed(ab, key), 0);
        match first_from(sl, fn_keyed(ab, key), 0) {
            Some(k) => {
                let f = fn_at(ab, sl[k]);
                assert(fn_at(ba, sl2[k]) == f);
                lemma_type_of_merge_order(a, b, f.ret@);
                lemma_param_names_swap(a, b, f.params@);
                lemma_params_ok_swap(a, b, f.params@, out[x].params@);
            },
            None => {},
        }
    }
    assert forall|k: int| 0 <= k < sl2.len() implies has_fn(out, fn_key(ba, fn_at(ba, #[trigger] sl2[k]))) by {
        assert(fn_key(ba, fn_at(ba, sl2[k])) == fn_key(ab, fn_at(ab, sl[k])));
        assert(has_fn(out, fn_key(ab, fn_at(ab, sl[k]))));
    }
}

proof fn lemma_slots_bounded(order: Seq<usize>, count: spec_fn(usize) -> nat, bound: int)
    requires
        forall|j: int| 0 <= j < order.len() ==> (#[trigger] order[j] as int) < bound,
    ensures
        forall|k: int| 0 <= k < slots(order, count).len() ==> ((#[trigger] slots(order, count)[k]).0 as int) < bound,
    decreases order.len(),
{
    if order.len() > 0 {
        lemma_slots_bounded(order.drop_last(), count, bound);
        let s = slots(order, count);
        let s0 = slots(order.drop_last(), count);
        assert forall|k: int| 0 <= k < s.len() implies ((#[trigger] s[k]).0 as int) < bound by {
            if k < s0.len() {
                assert(s[k] == s0[k]);
            } else {
                assert(s[k].0 == order.last());
            }
        }
    }
}

/// Where the names of the merged specifications are unambiguous and class names
/// distinct, a class record resolved from `a + b` is the record owed for the same
/// class in `b + a`.
pub proof fn lemma_class_record_merge_order(a: TypeSpecView, b: TypeSpecView, c: int, ci: ClassInfo)
    requires
        unambiguous(merged(a, b)),
        exposed_apart(a, b),
        distinct_classes(merged(a, b)),
        0 <= c < merged(a, b).classes.len(),
        merged(a, b).classes.len() <= usize::MAX,
        class_ok(merged(a, b), c, ci),
    ensures
        class_ok(merged(b, a), swapped_index(c, a.classes.len() as int, b.classes.len() as int), ci),
{
    let ab = merged(a, b);
    let ba = merged(b, a);
    let al = a.classes.len() as int;
    let bl = b.classes.len() as int;
    let c2 = swapped_index(c, al, bl);
    assert(ba.classes[c2] == ab.classes[c]);
    lemma_walk_swap(a, b, c, ab.classes.len());
    assert(ba.classes.len() == ab.classes.len());
    let order = member_order(ab, c);
    let order2 = member_order(ba, c2);
    let chain = ancestry(ab, c).1;
    assert(order2 =~= order.map_values(|x: usize| swap_usize(x, al, bl))) by {
        assert(swap_usize(c as usize, al, bl) == c2 as usize);
    }
    assert forall|j: int| 0 <= j < order.len() implies (#[trigger] order[j] as int) < ab.classes.len() by {
        if j > 0 {
            assert(order[j] == chain[j - 1]);
        }
    }
    assert forall|i: int| 0 <= i < order.len() implies ba.classes[swap_usize(#[trigger] order[i], al, bl) as int] == ab.classes[order[i] as int] by {
        assert(ba.classes[swapped_index(order[i] as int, al, bl)] == ab.classes[order[i] as int]);
    }
    lemma_slots_swap(order, prop_count(ab), prop_count(ba), al, bl);
    lemma_slots_swap(order, fn_count(ab), fn_count(ba), al, bl);
    lemma_slots_swap(order, signal_count(ab), signal_count(ba), al, bl);
    lemma_slots_bounded(order, prop_count(ab), ab.classes.len() as int);
    lemma_slots_bounded(order, fn_count(ab), ab.classes.len() as int);
    lemma_slots_bounded(order, signal_count(ab), ab.classes.len() as int);
    lemma_props_ok_swap(a, b, slots(order, prop_count(ab)), slots(order2, prop_count(ba)), ci.properties@);
    lemma_fns_ok_swap(a, b, slots(order, fn_count(ab)), slots(order2, fn_count(ba)), ci.functions@);
    lemma_signals_ok_swap(a, b, slots(order, signal_count(ab)), slots(order2, signal_count(ba)), ci.signals@);
}

/// Enums of one module have distinct names.
pub open spec fn distinct_enums(ts: TypeSpecView) -> bool {
    forall|i: int, j: int| 0 <= i < ts.enums.len() && 0 <= j < ts.enums.len() && i != j
        ==> !((#[trigger] ts.enums[i]).name@ == (#[trigger] ts.enums[j]).name@ && opt_view(ts.enums[i].module) == opt_view(ts.enums[j].module))
}

proof fn lemma_last_below_facts<T>(s: Seq<T>, p: spec_fn(T) -> bool, k: int)
    requires
        0 <= k <= s.len(),
    ensures
        match last_below(s, p, k) {
            Some(i) => 0 <= i < k && p(s[i]),
            None => forall|i: int| 0 <= i < k ==> !p(#[trigger] s[i]),
        },
    decreases k,
{
    if k > 0 {
        lemma_last_below_facts(s, p, k - 1);
    }
}

proof fn lemma_last_is<T>(s: Seq<T>, p: spec_fn(T) -> bool, k: int, n: int)
    requires
        0 <= k < n <= s.len(),
        p(s[k]),
        forall|j: int| k < j < n ==> !p(#[trigger] s[j]),
    ensures
        last_below(s, p, n) == Some(k),
    decreases n,
{
    if n - 1 > k {
        lemma_last_is(s, p, k, n - 1);
    }
}

proof fn lemma_last_swap<T>(a: Seq<T>, b: Seq<T>, p: spec_fn(T) -> bool, q: spec_fn(T) -> bool)
    requires
        one_side(a, b, p),
        forall|x: T| #[trigger] p(x) == q(x),
    ensures
        match last_below(a + b, p, (a + b).len() as int) {
            Some(i) => last_below(b + a, q, (b + a).len() as int) == Some(swapped_index(i, a.len() as int, b.len() as int)),
            None => last_below(b + a, q, (b + a).len() as int) is None,
        },
{
    let ab = a + b;
    let ba = b + a;
    lemma_last_below_facts(ab, p, ab.len() as int);
    lemma_last_below_facts(ba, q, ba.len() as int);
    match last_below(ab, p, ab.len() as int) {
        Some(i) => {
            let k = swapped_index(i, a.len() as int, b.len() as int);
            assert(ba[k] == ab[i]);
            assert(q(ba[k]));
            if i < a.len() {
                assert(ab[i] == a[i]);
            } else {
                assert(ab[i] == b[i - a.len()]);
            }
            assert forall|j: int| k < j < ba.len() implies !q(#[trigger] ba[j]) by {
                if j < b.len() {
                    assert(ba[j] == b[j]);
                    assert(ab[a.len() + j] == b[j]);
                } else {
                    assert(ba[j] == a[j - b.len()]);
                    assert(ab[j - b.len()] == a[j - b.len()]);
                }
                let i2 = if j < b.len() { a.len() + j } else { j - b.len() };
                assert(ab[i2] == ba[j]);
                assert(p(ab[i2]) == q(ba[j]));
                if i2 > i {
                    assert(!p(ab[i2])) by {
                        lemma_last_after(ab, p, i, ab.len() as int, i2);
                    }
                }
            }
            lemma_last_is(ba, q, k, ba.len() as int);
        },
        None => {
            if last_below(ba, q, ba.len() as int) is Some {
                let j = last_below(ba, q, ba.len() as int)->0;
                let i2 = if j < b.len() { a.len() + j } else { j - b.len() };
                assert(ab[i2] == ba[j]);
                assert(p(ab[i2]));
            }
        },
    }
}

proof fn lemma_last_after<T>(s: Seq<T>, p: spec_fn(T) -> bool, i: int, n: int, j: int)
    requires
        0 <= n <= s.len(),
        last_below(s, p, n) == Some(i),
        i < j < n,
    ensures
        !p(s[j]),
    decreases n,
{
    if n - 1 > j {
        lemma_last_after(s, p, i, n - 1, j);
    }
}

/// The source of the record named `n` in `b + a`, for a source in `a + b`.
pub open spec fn swapped_source(src: Source, a: TypeSpecView, b: TypeSpecView) -> Source {
    match src {
        Source::Mapping(i) => Source::Mapping(swapped_index(i, a.typemap.len() as int, b.typemap.len() as int)),
        Source::Enum(j) => Source::Enum(swapped_index(j, a.enums.len() as int, b.enums.len() as int)),
    }
}

proof fn lemma_record_source_swap(a: TypeSpecView, b: TypeSpecView, module: Seq<char>, n: Seq<char>)
    requires
        unambiguous(merged(a, b)),
        exposed_apart(a, b),
        distinct_enums(merged(a, b)),
    ensures
        match record_source(merged(a, b), module, n) {
            Some(src) => record_source(merged(b, a), module, n) == Some(swapped_source(src, a, b)),
            None => record_source(merged(b, a), module, n) is None,
        },
{
    let ab = merged(a, b);
    let ba = merged(b, a);
    assert forall|x: QmlTypeMapping| #[trigger] mapping_source(ab, module, n)(x) == mapping_source(ba, module, n)(x) by {
        lemma_first_from_exists(ab.classes, class_named(x.cname@));
        lemma_first_from_exists(ba.classes, class_named(x.cname@));
        lemma_exists_swap(a.classes, b.classes, class_named(x.cname@), class_named(x.cname@));
    }
    assert(at_most_one(ab.enums, enum_source(module, n))) by {
        assert forall|i: int, j: int| 0 <= i < ab.enums.len() && 0 <= j < ab.enums.len() && i != j
            && enum_source(module, n)(#[trigger] ab.enums[i]) implies !enum_source(module, n)(#[trigger] ab.enums[j]) by {}
    }
    lemma_exposed_sides(a, b, mapping_source(ab, module, n), n);
    lemma_last_swap(a.typemap, b.typemap, mapping_source(ab, module, n), mapping_source(ba, module, n));
    lemma_sides(a.enums, b.enums, enum_source(module, n));
    lemma_last_swap(a.enums, b.enums, enum_source(module, n), enum_source(module, n));
}

proof fn lemma_record_ok_swap(a: TypeSpecView, b: TypeSpecView, module: Seq<char>, src: Source, t: TypeInfo)
    requires
        unambiguous(merged(a, b)),
        exposed_apart(a, b),
        distinct_classes(merged(a, b)),
        merged(a, b).classes.len() <= usize::MAX,
        record_ok(merged(a, b), module, src, t),
        match src {
            Source::Mapping(i) => 0 <= i < merged(a, b).typemap.len()
                && first_from(merged(a, b).classes, class_named(merged(a, b).typemap[i].cname@), 0) is Some,
            Source::Enum(j) => 0 <= j < merged(a, b).enums.len(),
        },
    ensures
        record_ok(merged(b, a), module, swapped_source(src, a, b), t),
{
    let ab = merged(a, b);
    let ba = merged(b, a);
    match src {
        Source::Mapping(i) => {
            let i2 = swapped_index(i, a.typemap.len() as int, b.typemap.len() as int);
            assert(ba.typemap[i2] == ab.typemap[i]);
            let cn = ab.typemap[i].cname@;
            assert(at_most_one(ab.classes, class_named(cn))) by {
                assert forall|x: int, y: int| 0 <= x < ab.classes.len() && 0 <= y < ab.classes.len() && x != y
                    && class_named(cn)(#[trigger] ab.classes[x]) implies !class_named(cn)(#[trigger] ab.classes[y]) by {}
            }
            lemma_sides(a.classes, b.classes, class_named(cn));
            lemma_first_index_swap(a.classes, b.classes, class_named(cn));
            lemma_first_from(ab.classes, class_named(cn), 0);
            match t.details {
                TypeDetails::Class(ci) => {
                    lemma_class_record_merge_order(a, b, first_from(ab.classes, class_named(cn), 0)->0, ci);
                },
                TypeDetails::Enum(_) => {},
            }
        },
        Source::Enum(j) => {
            let j2 = swapped_index(j, a.enums.len() as int, b.enums.len() as int);
            assert(ba.enums[j2] == ab.enums[j]);
        },
    }
}

/// Merging is order-blind: where names are unambiguous (no exposed name shared
/// by the two specifications, no internal name ending another, distinct class
/// names, distinct enum names within a module), every result that resolving `a + b` may give is a result
/// that resolving `b + a` owes, and so the resolved records do not depend on the
/// order in which the specifications were merged.
pub proof fn lemma_resolution_merge_order(a: TypeSpecView, b: TypeSpecView, module: Seq<char>, out: Seq<TypeInfo>)
    requires
        unambiguous(merged(a, b)),
        exposed_apart(a, b),
        distinct_classes(merged(a, b)),
        distinct_enums(merged(a, b)),
        merged(a, b).classes.len() <= usize::MAX,
        resolution_ok(merged(a, b), module, out),
    ensures
        resolution_ok(merged(b, a), module, out),
{
    let ab = merged(a, b);
    let ba = merged(b, a);
    assert forall|x: int| 0 <= x < out.len() implies match record_source(ba, module, (#[trigger] out[x]).name@) {
        Some(src) => record_ok(ba, module, src, out[x]),
        None => false,
    } by {
        let n = out[x].name@;
        lemma_record_source_swap(a, b, module, n);
        let src = record_source(ab, module, n)->0;
        match src {
            Source::Mapping(i) => {
                lemma_last_below_facts(ab.typemap, mapping_source(ab, module, n), ab.typemap.len() as int);
                lemma_last_below_facts(ab.enums, enum_source(module, n), ab.enums.len() as int);
            },
            Source::Enum(j) => {
                lemma_last_below_facts(ab.enums, enum_source(module, n), ab.enums.len() as int);
            },
        }
        lemma_record_ok_swap(a, b, module, src, out[x]);
    }
    assert forall|n: Seq<char>| #[trigger] record_source(ba, module, n) is Some implies has_type(out, n) by {
        lemma_record_names_merge_order(a, b, module, n);
    }
}

/// Each class record that resolution gives comes from a class of the
/// specification, and the laws on class records hold of it: its flags are the
/// enum carrier's, else singleton, else uncreatable; its properties and signals
/// are in strict order of name, one per name, and every one its class or an
/// absorbed ancestor declares is there, the class's own declaration winning;
/// its methods are in order of name, then signature id.
pub proof fn lemma_resolved_class(ts: TypeSpecView, module: Seq<char>, out: Seq<TypeInfo>, x: int) -> (c: int)
    requires
        resolution_ok(ts, module, out),
        0 <= x < out.len(),
        out[x].details is Class,
        ts.classes.len() <= usize::MAX,
    ensures
        0 <= c < ts.classes.len(),
        class_ok(ts, c, out[x].details->Class_0),
        out[x].details->Class_0.flags@ == class_flags(
            first_from(ts.classes[c].enums@, enum_named(enum_token()), 0) is Some,
            ts.classes[c],
        ),
        forall|a: int, b: int| 0 <= a < b < out[x].details->Class_0.properties@.len()
            ==> lex_lt(out[x].details->Class_0.properties@[a].0@, out[x].details->Class_0.properties@[b].0@),
        forall|a: int, b: int| 0 <= a < b < out[x].details->Class_0.signals@.len()
            ==> lex_lt(out[x].details->Class_0.signals@[a].0@, out[x].details->Class_0.signals@[b].0@),
        forall|a: int, b: int| 0 <= a < b < out[x].details->Class_0.functions@.len() ==> lex_lt(
            out[x].details->Class_0.functions@[a].name@,
            out[x].details->Class_0.functions@[b].name@,
        ) || (out[x].details->Class_0.functions@[a].name@ == out[x].details->Class_0.functions@[b].name@ && lex_lt(
            out[x].details->Class_0.functions@[a].id@,
            out[x].details->Class_0.functions@[b].id@,
        )),
        forall|k: int| #![trigger slots(member_order(ts, c), prop_count(ts))[k]]
            0 <= k < slots(member_order(ts, c), prop_count(ts)).len() ==> has_prop(
                out[x].details->Class_0.properties@,
                prop_at(ts, slots(member_order(ts, c), prop_count(ts))[k]).name@,
            ),
        forall|k: int| 0 <= k < ts.classes[c].properties.len() && (forall|j: int| 0 <= j < k
            ==> ts.classes[c].properties@[j].name@ != (#[trigger] ts.classes[c].properties@[k]).name@)
            ==> exists|a: int| 0 <= a < out[x].details->Class_0.properties@.len()
                && out[x].details->Class_0.properties@[a].0@ == ts.classes[c].properties@[k].name@
                && property_ok(ts, ts.classes[c].properties@[k], out[x].details->Class_0.properties@[a].1),
{
    let t = out[x];
    let src = record_source(ts, module, t.name@)->0;
    match src {
        Source::Mapping(i) => {},
        Source::Enum(j) => {
            assert(false);
        },
    }
    let i = src->Mapping_0;
    let ghost_c = first_from(ts.classes, class_named(ts.typemap[i].cname@), 0);
    lemma_last_below_facts(ts.typemap, mapping_source(ts, module, t.name@), ts.typemap.len() as int);
    lemma_last_below_facts(ts.enums, enum_source(module, t.name@), ts.enums.len() as int);
    lemma_first_from(ts.classes, class_named(ts.typemap[i].cname@), 0);
    let c = ghost_c->0;
    let ci = t.details->Class_0;
    lemma_members_ordered(ts, c, ci);
    lemma_members_once(ts, c, ci);
    c
}

/// A resolved property whose declared type names no value type, no container,
/// and nothing registered, has the bare unknown reference as its type.
pub proof fn lemma_unregistered_property(ts: TypeSpecView, p: Property, o: outform::Property)
    requires
        property_ok(ts, p, o),
        !is_prefix(script_tag(), p.type_@),
        elem_text(p.type_@) is None,
        forall|g: int| 0 <= g < ts.gadgets.len() ==> !(#[trigger] gadget_named(p.type_@)(ts.gadgets[g])),
        forall|i: int| 0 <= i < ts.typemap.len() ==> !(#[trigger] by_cname_suffix(bare_text(p.type_@))(ts.typemap[i])),
        forall|j: int| 0 <= j < ts.enums.len() ==> !(#[trigger] enum_by_suffix(bare_text(p.type_@))(ts.enums[j])),
    ensures
        o.type_ matches PropertyType::Type(t) && t@ == unknown_ref(),
{
    lemma_first_from(ts.gadgets, gadget_named(p.type_@), 0);
    lemma_unregistered_is_unknown(ts, p.type_@);
}

} // verus!
