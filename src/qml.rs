//! Extraction of component properties from declarative UI files.
use vstd::prelude::*;
use crate::parse::{
    comment_of, compiled, make_comment, or_empty, or_empty_exec, ClassInfo, ClassInfoV, ClassType, ParseContext,
    ParseError, ParseErrorV, Property, PropertyV,
};
use crate::resolver::script_tag;
use crate::pattern::{group, group_at, match_view, names_view, opt_text, regex_captures, scan, Pattern};
use crate::resolver::{first_from, is_char, last_below};
use crate::text::{chars_of, string_of};

verus! {

pub const QML_CLASS_PATTERN: &'static str = r#"((?<aliases>(\s*\/\/\/ alias.+)+)[\s\S]*?)?(?<comment>(\s*\/\/\/.*\n)+)?\s*(?<super>[A-Z]\w*)\s+{(?<body>[\s\S]*)}"#;
pub const ALIAS_PATTERN: &'static str = r#"alias\s+(?<alias>\w+)\s+(?<definition>[\w.]+)"#;
pub const SAFE_BODY_PATTERN: &'static str = r#"((?<safebody1>^[\s\S]*?)(\n\s+[A-Z]\w* {[\s\S]*)|(?<safebody2>^[\s\S]*))"#;
pub const QML_PROPERTY_PATTERN: &'static str = r#"(?<comment>(\s*\/\/\/.*\n)+)?\s*(?<default>default\s+)?(?<required>required\s+)?(?<readonly>readonly\s+)?property\s+(\/\*(?<typeoverride>\w+)\*\/)?(?<type>\w+)\s+(?<name>\w+)\s*(:\s*(?<definition>(.*{\n[\s\S]*?\/\/ END-DEF|.*?(?!{)\n)))?"#;
pub const QML_FUNCTION_PATTERN: &'static str = r#"(?<comment>(\s*\/\/\/.*\n)+)?\s*function\s+(?<name>\w+)\s*\((?<params>.*)\)\s*:\s*(?<return>\w+)\s*{"#;

/// The patterns that make up the grammar of declarative UI files.
pub struct QmlParser {
    pub class_regex: Pattern,
    pub alias_regex: Pattern,
    pub safe_body_regex: Pattern,
    pub property_regex: Pattern,
    pub function_regex: Pattern,
}

pub open spec fn qml_class_groups() -> Seq<Seq<char>> {
    seq!["aliases"@, "comment"@, "super"@, "body"@]
}

pub open spec fn alias_groups() -> Seq<Seq<char>> {
    seq!["alias"@, "definition"@]
}

pub open spec fn safe_body_groups() -> Seq<Seq<char>> {
    seq!["safebody1"@, "safebody2"@]
}

pub open spec fn qml_property_groups() -> Seq<Seq<char>> {
    seq!["comment"@, "default"@, "readonly"@, "typeoverride"@, "type"@, "name"@]
}

fn group_list(which: u8) -> (r: Vec<&'static str>)
    requires
        which < 4,
    ensures
        names_view(r@) == if which == 0 {
            qml_class_groups()
        } else if which == 1 {
            alias_groups()
        } else if which == 2 {
            safe_body_groups()
        } else {
            qml_property_groups()
        },
{
    let r = if which == 0 {
        vec!["aliases", "comment", "super", "body"]
    } else if which == 1 {
        vec!["alias", "definition"]
    } else if which == 2 {
        vec!["safebody1", "safebody2"]
    } else {
        vec!["comment", "default", "readonly", "typeoverride", "type", "name"]
    };
    proof {
        if which == 0 {
            assert(names_view(r@) =~= qml_class_groups());
        } else if which == 1 {
            assert(names_view(r@) =~= alias_groups());
        } else if which == 2 {
            assert(names_view(r@) =~= safe_body_groups());
        } else {
            assert(names_view(r@) =~= qml_property_groups());
        }
    }
    r
}

pub open spec fn alias_named(n: Seq<char>) -> spec_fn(Seq<Option<Seq<char>>>) -> bool {
    |c: Seq<Option<Seq<char>>>| group(c, 0) == Some(n)
}

/// What the alias table of alias matches `als` makes of `n`: the target of the
/// last alias of that name, or `n` itself.
pub open spec fn alias_lookup(als: Seq<Seq<Option<Seq<char>>>>, n: Seq<char>) -> Seq<char> {
    match last_below(als, alias_named(n), als.len() as int) {
        Some(k) => or_empty(group(als[k], 1)),
        None => n,
    }
}

/// The property that a property match `c` declares.
pub open spec fn qml_property_of(c: Seq<Option<Seq<char>>>, als: Seq<Seq<Option<Seq<char>>>>, module: Seq<char>) -> PropertyV {
    let t = match group(c, 3) {
        Some(t) => t,
        None => or_empty(group(c, 4)),
    };
    PropertyV {
        type_: script_tag() + alias_lookup(als, t),
        name: or_empty(group(c, 5)),
        comment: comment_of(group(c, 0), module),
        readable: true,
        writable: group(c, 2) is None,
        default: group(c, 1) is Some,
    }
}

/// The component name a file name gives: the text before its first `.`.
pub open spec fn component_name(filename: Seq<char>) -> Seq<char> {
    match first_from(filename, is_char('.'), 0) {
        Some(k) => filename.subrange(0, k),
        None => filename,
    }
}

/// The direct body of a component: the body cut before the first nested
/// component block.
pub open spec fn safe_body(body: Seq<char>) -> Result<Seq<char>, ParseErrorV> {
    match regex_captures(SAFE_BODY_PATTERN@, safe_body_groups(), body) {
        None => Err(ParseErrorV::Pattern),
        Some(ms) => if ms.len() == 0 {
            Err(ParseErrorV::MalformedComponent)
        } else {
            match group(ms[0], 0) {
                Some(b) => Ok(b),
                None => match group(ms[0], 1) {
                    Some(b) => Ok(b),
                    None => Err(ParseErrorV::MalformedComponent),
                },
            }
        },
    }
}

/// The component that the class match `c` of file `filename` declares.
pub open spec fn component_of(c: Seq<Option<Seq<char>>>, filename: Seq<char>, module: Seq<char>) -> Result<ClassInfoV, ParseErrorV> {
    let als = match group(c, 0) {
        Some(a) => regex_captures(ALIAS_PATTERN@, alias_groups(), a),
        None => Some(Seq::empty()),
    };
    match als {
        None => Err(ParseErrorV::Pattern),
        Some(als) => match safe_body(or_empty(group(c, 3))) {
            Err(e) => Err(e),
            Ok(body) => match regex_captures(QML_PROPERTY_PATTERN@, qml_property_groups(), body) {
                None => Err(ParseErrorV::Pattern),
                Some(ps) => Ok(ClassInfoV {
                    type_: ClassType::Object,
                    name: component_name(filename),
                    qml_name: Some(component_name(filename)),
                    superclass: Some(script_tag() + or_empty(group(c, 2))),
                    singleton: false,
                    uncreatable: false,
                    comment: comment_of(group(c, 1), module),
                    properties: ps.map_values(|p: Seq<Option<Seq<char>>>| qml_property_of(p, als, module)),
                    invokables: Seq::empty(),
                    signals: Seq::empty(),
                    enums: Seq::empty(),
                }),
            },
        },
    }
}

pub open spec fn components_of(ms: Seq<Seq<Option<Seq<char>>>>, filename: Seq<char>, module: Seq<char>) -> Result<Seq<ClassInfoV>, ParseErrorV>
    decreases ms.len(),
{
    if ms.len() == 0 {
        Ok(Seq::empty())
    } else {
        match components_of(ms.drop_last(), filename, module) {
            Err(e) => Err(e),
            Ok(r) => match component_of(ms.last(), filename, module) {
                Err(e) => Err(e),
                Ok(x) => Ok(r.push(x)),
            },
        }
    }
}

/// The components that file `filename` with text `text` declares.
pub open spec fn components_in(filename: Seq<char>, text: Seq<char>, module: Seq<char>) -> Result<Seq<ClassInfoV>, ParseErrorV> {
    match regex_captures(QML_CLASS_PATTERN@, qml_class_groups(), text) {
        None => Err(ParseErrorV::Pattern),
        Some(ms) => components_of(ms, filename, module),
    }
}

proof fn lemma_components_err(ms: Seq<Seq<Option<Seq<char>>>>, filename: Seq<char>, module: Seq<char>, k: int, e: ParseErrorV)
    requires
        0 <= k <= ms.len(),
        components_of(ms.take(k), filename, module) == Err::<Seq<ClassInfoV>, ParseErrorV>(e),
    ensures
        components_of(ms, filename, module) == Err::<Seq<ClassInfoV>, ParseErrorV>(e),
    decreases ms.len() - k,
{
    if k < ms.len() {
        assert(ms.take(k + 1).drop_last() == ms.take(k));
        lemma_components_err(ms, filename, module, k + 1, e);
    } else {
        assert(ms.take(k) == ms);
    }
}

fn tagged(s: &String) -> (r: String)
    ensures
        r@ == script_tag() + s@,
{
    let mut r = String::new();
    crate::text::push_char(&mut r, 'Q');
    crate::text::push_char(&mut r, 'M');
    crate::text::push_char(&mut r, 'L');
    crate::text::push_char(&mut r, ':');
    r.append(s.as_str());
    assert(r@ =~= script_tag() + s@);
    r
}

/// The target of `n` in the alias matches `als`.
fn lookup(als: &Vec<Vec<Option<String>>>, n: String) -> (r: String)
    ensures
        r@ == alias_lookup(crate::pattern::captures_view(als@), n@),
{
    let ghost cv = crate::pattern::captures_view(als@);
    let mut j = als.len();
    while j > 0
        invariant
            j <= als.len(),
            cv == crate::pattern::captures_view(als@),
            last_below(cv, alias_named(n@), cv.len() as int) == last_below(cv, alias_named(n@), j as int),
        decreases j,
    {
        let a = group_at(&als[j - 1], 0);
        let hit = match &a {
            Some(x) => *x == n,
            None => false,
        };
        assert(cv[j - 1] == match_view(als@[j - 1]));
        if hit {
            return or_empty_exec(group_at(&als[j - 1], 1));
        }
        j = j - 1;
    }
    n
}

impl QmlParser {
    pub open spec fn wf(&self) -> bool {
        &&& self.class_regex.source() == QML_CLASS_PATTERN@
        &&& self.alias_regex.source() == ALIAS_PATTERN@
        &&& self.safe_body_regex.source() == SAFE_BODY_PATTERN@
        &&& self.property_regex.source() == QML_PROPERTY_PATTERN@
        &&& self.function_regex.source() == QML_FUNCTION_PATTERN@
    }

    pub fn new() -> (r: Result<QmlParser, ParseError>)
        ensures
            r matches Ok(p) ==> p.wf(),
    {
        Ok(QmlParser {
            class_regex: compiled(QML_CLASS_PATTERN)?,
            alias_regex: compiled(ALIAS_PATTERN)?,
            safe_body_regex: compiled(SAFE_BODY_PATTERN)?,
            property_regex: compiled(QML_PROPERTY_PATTERN)?,
            function_regex: compiled(QML_FUNCTION_PATTERN)?,
        })
    }

    fn direct_body(&self, body: &str) -> (r: Result<String, ParseError>)
        requires
            self.wf(),
        ensures
            match safe_body(body@) {
                Ok(b) => r matches Ok(x) && x@ == b,
                Err(e) => r matches Err(e2) && e2@ == e,
            },
    {
        let ms = match scan(&self.safe_body_regex, &group_list(2), body) {
            Ok(ms) => ms,
            Err(_) => return Err(ParseError::Pattern),
        };
        if ms.len() == 0 {
            return Err(ParseError::MalformedComponent);
        }
        match group_at(&ms[0], 0) {
            Some(b) => Ok(b),
            None => match group_at(&ms[0], 1) {
                Some(b) => Ok(b),
                None => Err(ParseError::MalformedComponent),
            },
        }
    }

    /// The component that the class match `c` of file `filename` declares.
    pub fn parse_component(&self, c: &Vec<Option<String>>, filename: &str, module: &str) -> (r: Result<ClassInfo, ParseError>)
        requires
            self.wf(),
        ensures
            match component_of(match_view(*c), filename@, module@) {
                Ok(x) => r matches Ok(y) && y@ == x,
                Err(e) => r matches Err(e2) && e2@ == e,
            },
    {
        let als: Vec<Vec<Option<String>>> = match group_at(c, 0) {
            Some(a) => match scan(&self.alias_regex, &group_list(1), a.as_str()) {
                Ok(v) => v,
                Err(_) => return Err(ParseError::Pattern),
            },
            None => Vec::new(),
        };
        proof {
            if group(match_view(*c), 0) is None {
                assert(crate::pattern::captures_view(als@) =~= Seq::<Seq<Option<Seq<char>>>>::empty());
            }
        }
        let ghost av = crate::pattern::captures_view(als@);
        let body = self.direct_body(or_empty_exec(group_at(c, 3)).as_str())?;
        let ps = match scan(&self.property_regex, &group_list(3), body.as_str()) {
            Ok(v) => v,
            Err(_) => return Err(ParseError::Pattern),
        };
        let ghost pv = crate::pattern::captures_view(ps@);
        let mut properties: Vec<Property> = Vec::new();
        let mut i: usize = 0;
        while i < ps.len()
            invariant
                i <= ps.len(),
                pv == crate::pattern::captures_view(ps@),
                av == crate::pattern::captures_view(als@),
                properties.len() == i,
                forall|k: int| 0 <= k < i ==> (#[trigger] properties@[k])@ == qml_property_of(pv[k], av, module@),
            decreases ps.len() - i,
        {
            let p = &ps[i];
            let t = match group_at(p, 3) {
                Some(t) => t,
                None => or_empty_exec(group_at(p, 4)),
            };
            let target = lookup(&als, t);
            properties.push(Property {
                type_: tagged(&target),
                name: or_empty_exec(group_at(p, 5)),
                comment: make_comment(&group_at(p, 0), module),
                readable: true,
                writable: group_at(p, 2).is_none(),
                default: group_at(p, 1).is_some(),
            });
            i = i + 1;
        }
        let v = chars_of(filename);
        let mut k: usize = 0;
        while k < v.len() && v[k] != '.'
            invariant
                k <= v.len(),
                v@ == filename@,
                first_from(v@, is_char('.'), 0) == first_from(v@, is_char('.'), k as int),
            decreases v.len() - k,
        {
            k = k + 1;
        }
        let name = string_of(&v, 0, k);
        assert(v@.subrange(0, v.len() as int) =~= v@);
        let superclass = tagged(&or_empty_exec(group_at(c, 2)));
        let r = ClassInfo {
            type_: ClassType::Object,
            name: name.clone(),
            qml_name: Some(name),
            superclass: Some(superclass),
            singleton: false,
            uncreatable: false,
            comment: make_comment(&group_at(c, 1), module),
            properties,
            invokables: Vec::new(),
            signals: Vec::new(),
            enums: Vec::new(),
        };
        assert(r@.properties =~= pv.map_values(|p: Seq<Option<Seq<char>>>| qml_property_of(p, av, module@)));
        assert(r@.invokables =~= Seq::empty());
        assert(r@.signals =~= Seq::empty());
        assert(r@.enums =~= Seq::empty());
        Ok(r)
    }

    /// Appends the components that file `filename` declares to `ctx`; on an
    /// error `ctx` is left as it was.
    pub fn parse(&self, filename: &str, text: &str, ctx: &mut ParseContext) -> (r: Result<(), ParseError>)
        requires
            self.wf(),
        ensures
            final(ctx).module == old(ctx).module,
            final(ctx).enums == old(ctx).enums,
            match components_in(filename@, text@, old(ctx).module@) {
                Ok(cs) => r is Ok && final(ctx).classes@.map_values(|c: ClassInfo| c@) == old(ctx).classes@.map_values(|c: ClassInfo| c@) + cs,
                Err(e) => r matches Err(e2) && e2@ == e && final(ctx).classes == old(ctx).classes,
            },
    {
        let ms = match scan(&self.class_regex, &group_list(0), text) {
            Ok(ms) => ms,
            Err(_) => return Err(ParseError::Pattern),
        };
        let ghost cv = crate::pattern::captures_view(ms@);
        let ghost module = ctx.module@;
        let mut found: Vec<ClassInfo> = Vec::new();
        assert(cv.take(0) =~= Seq::<Seq<Option<Seq<char>>>>::empty());
        assert(found@.map_values(|c: ClassInfo| c@) =~= Seq::<ClassInfoV>::empty());
        let mut i: usize = 0;
        while i < ms.len()
            invariant
                self.wf(),
                i <= ms.len(),
                module == ctx.module@,
                cv == crate::pattern::captures_view(ms@),
                regex_captures(QML_CLASS_PATTERN@, qml_class_groups(), text@) == Some(cv),
                components_of(cv.take(i as int), filename@, module) == Ok::<Seq<ClassInfoV>, ParseErrorV>(found@.map_values(|c: ClassInfo| c@)),
            decreases ms.len() - i,
        {
            let c = &ms[i];
            assert(cv.take(i + 1).drop_last() == cv.take(i as int));
            assert(cv.take(i + 1).last() == match_view(*c));
            match self.parse_component(c, filename, ctx.module.as_str()) {
                Ok(x) => {
                    let ghost before = found@;
                    found.push(x);
                    assert(found@.map_values(|c: ClassInfo| c@) =~= before.map_values(|c: ClassInfo| c@).push(x@));
                },
                Err(e) => {
                    proof {
                        lemma_components_err(cv, filename@, module, i + 1, e@);
                    }
                    return Err(e);
                },
            }
            i = i + 1;
        }
        assert(cv.take(i as int) == cv);
        let ghost before = ctx.classes@;
        let ghost fv = found@;
        ctx.classes.append(&mut found);
        assert(ctx.classes@.map_values(|c: ClassInfo| c@) =~= before.map_values(|c: ClassInfo| c@) + fv.map_values(|c: ClassInfo| c@));
        Ok(())
    }
}

} // verus!
