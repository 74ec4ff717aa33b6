//! Extraction of declarations from annotated sources and from declarative UI
//! component files.
use vstd::prelude::*;
use crate::pattern::{compile, group, group_at, match_view, names_view, opt_text, regex_captures, scan, Pattern};
use crate::resolver::first_from;
use crate::text::{chars_of, same_text, string_of, trim_bounds, trimmed};
use crate::resolver::is_char;

verus! {

/// A documentation comment as captured, with the module that owns it.
pub struct Comment {
    pub text: String,
    pub module: String,
}

impl Comment {
    pub fn new(text: &str, module: &str) -> (r: Comment)
        ensures
            r.text@ == text@,
            r.module@ == module@,
    {
        Comment { text: String::from_str(text), module: String::from_str(module) }
    }
}

#[derive(Clone, Copy, Debug, PartialEq, Eq, Structural)]
pub enum ClassType {
    Object,
    Gadget,
}

/// A class-like declaration as extracted.
pub struct ClassInfo {
    pub type_: ClassType,
    pub name: String,
    pub qml_name: Option<String>,
    pub superclass: Option<String>,
    pub singleton: bool,
    pub uncreatable: bool,
    pub comment: Option<Comment>,
    pub properties: Vec<Property>,
    pub invokables: Vec<Invokable>,
    pub signals: Vec<Signal>,
    pub enums: Vec<EnumInfo>,
}

pub struct Property {
    pub type_: String,
    pub name: String,
    pub comment: Option<Comment>,
    pub readable: bool,
    pub writable: bool,
    pub default: bool,
}

pub struct Invokable {
    pub name: String,
    pub ret: String,
    pub comment: Option<Comment>,
    pub params: Vec<InvokableParam>,
}

pub struct Signal {
    pub name: String,
    pub comment: Option<Comment>,
    pub params: Vec<InvokableParam>,
}

pub struct InvokableParam {
    pub name: String,
    pub type_: String,
}

pub struct EnumInfo {
    pub namespace: String,
    pub enum_name: String,
    pub qml_name: String,
    pub comment: Option<Comment>,
    pub variants: Vec<Variant>,
}

pub struct Variant {
    pub name: String,
    pub comment: Option<Comment>,
}

/// What one module's sources declare, accumulated file by file.
pub struct ParseContext {
    pub module: String,
    pub classes: Vec<ClassInfo>,
    pub enums: Vec<EnumInfo>,
}

impl ParseContext {
    pub fn new(module: &str) -> (r: ParseContext)
        ensures
            r.module@ == module@,
            r.classes@.len() == 0,
            r.enums@.len() == 0,
    {
        ParseContext { module: String::from_str(module), classes: Vec::new(), enums: Vec::new() }
    }
}

/// Why a source could not be parsed.
pub enum ParseError {
    /// A pattern failed to compile, or the matcher gave up.
    Pattern,
    /// A macro that needs an argument has none.
    MissingArgument { class: String, macro_name: String },
    /// The arguments of a property declaration do not decompose.
    MalformedProperty { class: String, args: String },
    /// The default property names no property of the class.
    UnknownDefaultProperty { class: String, property: String },
    /// A component block was found without a body to read.
    MalformedComponent,
    /// A module descriptor has no delimiter between header and details.
    MissingDelimiter,
}

// ---- views -------------------------------------------------------------

pub struct CommentV {
    pub text: Seq<char>,
    pub module: Seq<char>,
}

pub open spec fn comment_view(c: Option<Comment>) -> Option<CommentV> {
    match c {
        Some(c) => Some(CommentV { text: c.text@, module: c.module@ }),
        None => None,
    }
}

/// The comment `text`, if any, owned by `module`.
pub open spec fn comment_of(text: Option<Seq<char>>, module: Seq<char>) -> Option<CommentV> {
    match text {
        Some(t) => Some(CommentV { text: t, module }),
        None => None,
    }
}

pub struct PropertyV {
    pub type_: Seq<char>,
    pub name: Seq<char>,
    pub comment: Option<CommentV>,
    pub readable: bool,
    pub writable: bool,
    pub default: bool,
}

impl View for Property {
    type V = PropertyV;

    open spec fn view(&self) -> PropertyV {
        PropertyV {
            type_: self.type_@,
            name: self.name@,
            comment: comment_view(self.comment),
            readable: self.readable,
            writable: self.writable,
            default: self.default,
        }
    }
}

pub struct ParamV {
    pub name: Seq<char>,
    pub type_: Seq<char>,
}

impl View for InvokableParam {
    type V = ParamV;

    open spec fn view(&self) -> ParamV {
        ParamV { name: self.name@, type_: self.type_@ }
    }
}

pub open spec fn params_view(ps: Seq<InvokableParam>) -> Seq<ParamV> {
    ps.map_values(|p: InvokableParam| p@)
}

pub struct InvokableV {
    pub name: Seq<char>,
    pub ret: Seq<char>,
    pub comment: Option<CommentV>,
    pub params: Seq<ParamV>,
}

impl View for Invokable {
    type V = InvokableV;

    open spec fn view(&self) -> InvokableV {
        InvokableV { name: self.name@, ret: self.ret@, comment: comment_view(self.comment), params: params_view(self.params@) }
    }
}

pub struct SignalV {
    pub name: Seq<char>,
    pub comment: Option<CommentV>,
    pub params: Seq<ParamV>,
}

impl View for Signal {
    type V = SignalV;

    open spec fn view(&self) -> SignalV {
        SignalV { name: self.name@, comment: comment_view(self.comment), params: params_view(self.params@) }
    }
}

pub struct VariantV {
    pub name: Seq<char>,
    pub comment: Option<CommentV>,
}

impl View for Variant {
    type V = VariantV;

    open spec fn view(&self) -> VariantV {
        VariantV { name: self.name@, comment: comment_view(self.comment) }
    }
}

pub struct EnumInfoV {
    pub namespace: Seq<char>,
    pub enum_name: Seq<char>,
    pub qml_name: Seq<char>,
    pub comment: Option<CommentV>,
    pub variants: Seq<VariantV>,
}

impl View for EnumInfo {
    type V = EnumInfoV;

    open spec fn view(&self) -> EnumInfoV {
        EnumInfoV {
            namespace: self.namespace@,
            enum_name: self.enum_name@,
            qml_name: self.qml_name@,
            comment: comment_view(self.comment),
            variants: self.variants@.map_values(|v: Variant| v@),
        }
    }
}

pub struct ClassInfoV {
    pub type_: ClassType,
    pub name: Seq<char>,
    pub qml_name: Option<Seq<char>>,
    pub superclass: Option<Seq<char>>,
    pub singleton: bool,
    pub uncreatable: bool,
    pub comment: Option<CommentV>,
    pub properties: Seq<PropertyV>,
    pub invokables: Seq<InvokableV>,
    pub signals: Seq<SignalV>,
    pub enums: Seq<EnumInfoV>,
}

impl View for ClassInfo {
    type V = ClassInfoV;

    open spec fn view(&self) -> ClassInfoV {
        ClassInfoV {
            type_: self.type_,
            name: self.name@,
            qml_name: opt_text(self.qml_name),
            superclass: opt_text(self.superclass),
            singleton: self.singleton,
            uncreatable: self.uncreatable,
            comment: comment_view(self.comment),
            properties: self.properties@.map_values(|p: Property| p@),
            invokables: self.invokables@.map_values(|f: Invokable| f@),
            signals: self.signals@.map_values(|s: Signal| s@),
            enums: self.enums@.map_values(|e: EnumInfo| e@),
        }
    }
}

fn copy_text(o: &Option<String>) -> (r: Option<String>)
    ensures
        opt_text(r) == opt_text(*o),
{
    match o {
        Some(s) => Some(s.clone()),
        None => None,
    }
}

pub(crate) fn make_comment(text: &Option<String>, module: &str) -> (r: Option<Comment>)
    ensures
        comment_view(r) == comment_of(opt_text(*text), module@),
{
    match text {
        Some(t) => Some(Comment::new(t.as_str(), module)),
        None => None,
    }
}

pub enum ParseErrorV {
    Pattern,
    MissingArgument { class: Seq<char>, macro_name: Seq<char> },
    MalformedProperty { class: Seq<char>, args: Seq<char> },
    UnknownDefaultProperty { class: Seq<char>, property: Seq<char> },
    MalformedComponent,
    MissingDelimiter,
}

impl View for ParseError {
    type V = ParseErrorV;

    open spec fn view(&self) -> ParseErrorV {
        match self {
            ParseError::Pattern => ParseErrorV::Pattern,
            ParseError::MissingArgument { class, macro_name } => ParseErrorV::MissingArgument { class: class@, macro_name: macro_name@ },
            ParseError::MalformedProperty { class, args } => ParseErrorV::MalformedProperty { class: class@, args: args@ },
            ParseError::UnknownDefaultProperty { class, property } => ParseErrorV::UnknownDefaultProperty { class: class@, property: property@ },
            ParseError::MalformedComponent => ParseErrorV::MalformedComponent,
            ParseError::MissingDelimiter => ParseErrorV::MissingDelimiter,
        }
    }
}

/// One annotation macro found in a class body.
pub struct MacroCall {
    pub comment: Option<String>,
    pub hidden: bool,
    pub kind: String,
    pub args: Option<String>,
}

pub struct MacroCallV {
    pub comment: Option<Seq<char>>,
    pub hidden: bool,
    pub kind: Seq<char>,
    pub args: Option<Seq<char>>,
}

impl View for MacroCall {
    type V = MacroCallV;

    open spec fn view(&self) -> MacroCallV {
        MacroCallV { comment: opt_text(self.comment), hidden: self.hidden, kind: self.kind@, args: opt_text(self.args) }
    }
}

/// The parts of a property declaration's arguments.
pub struct PropertyDecl {
    pub type_: String,
    pub name: String,
    pub member: bool,
    pub read: bool,
    pub write: bool,
    pub constant: bool,
    pub notify: Option<String>,
}

pub struct PropertyDeclV {
    pub type_: Seq<char>,
    pub name: Seq<char>,
    pub member: bool,
    pub read: bool,
    pub write: bool,
    pub constant: bool,
    pub notify: Option<Seq<char>>,
}

impl View for PropertyDecl {
    type V = PropertyDeclV;

    open spec fn view(&self) -> PropertyDeclV {
        PropertyDeclV {
            type_: self.type_@,
            name: self.name@,
            member: self.member,
            read: self.read,
            write: self.write,
            constant: self.constant,
            notify: opt_text(self.notify),
        }
    }
}

pub open spec fn decl_view(d: Option<PropertyDecl>) -> Option<PropertyDeclV> {
    match d {
        Some(d) => Some(d@),
        None => None,
    }
}

/// An annotation that applies to the next declaration: a type override, and the
/// comment that came with it.
pub struct Carryover {
    pub type_override: Option<String>,
    pub comment: Option<String>,
}

pub struct CarryoverV {
    pub type_override: Option<Seq<char>>,
    pub comment: Option<Seq<char>>,
}

/// The state of the macro scan of one class body.
pub struct ClassScan {
    pub name: String,
    pub superclass: Option<String>,
    pub classtype: Option<ClassType>,
    pub qml_name: Option<String>,
    pub singleton: bool,
    pub uncreatable: bool,
    pub force_creatable: bool,
    pub properties: Vec<Property>,
    pub default_property: Option<String>,
    pub notify_signals: Vec<String>,
    pub carryover: Option<Carryover>,
}

pub struct ClassScanV {
    pub name: Seq<char>,
    pub superclass: Option<Seq<char>>,
    pub classtype: Option<ClassType>,
    pub qml_name: Option<Seq<char>>,
    pub singleton: bool,
    pub uncreatable: bool,
    pub force_creatable: bool,
    pub properties: Seq<PropertyV>,
    pub default_property: Option<Seq<char>>,
    pub notify_signals: Seq<Seq<char>>,
    pub carryover: Option<CarryoverV>,
}

impl View for ClassScan {
    type V = ClassScanV;

    open spec fn view(&self) -> ClassScanV {
        ClassScanV {
            name: self.name@,
            superclass: opt_text(self.superclass),
            classtype: self.classtype,
            qml_name: opt_text(self.qml_name),
            singleton: self.singleton,
            uncreatable: self.uncreatable,
            force_creatable: self.force_creatable,
            properties: self.properties@.map_values(|p: Property| p@),
            default_property: opt_text(self.default_property),
            notify_signals: self.notify_signals@.map_values(|n: String| n@),
            carryover: match self.carryover {
                Some(c) => Some(CarryoverV { type_override: opt_text(c.type_override), comment: opt_text(c.comment) }),
                None => None,
            },
        }
    }
}

/// The scan state at the start of a class body.
pub open spec fn scan_start(name: Seq<char>, superclass: Option<Seq<char>>) -> ClassScanV {
    ClassScanV {
        name,
        superclass,
        classtype: None,
        qml_name: None,
        singleton: false,
        uncreatable: false,
        force_creatable: false,
        properties: Seq::empty(),
        default_property: None,
        notify_signals: Seq::empty(),
        carryover: None,
    }
}

pub open spec fn missing(s: ClassScanV, m: MacroCallV) -> ParseErrorV {
    ParseErrorV::MissingArgument { class: s.name, macro_name: m.kind }
}

pub open spec fn is_property_kind(k: Seq<char>) -> bool {
    k == "Q_PROPERTY"@ || k == "QSDOC_PROPERTY_OVERRIDE"@
}

/// The property that a decomposed declaration gives, under a type override
/// carried from an earlier annotation.
pub open spec fn declared_property(d: PropertyDeclV, over: Option<Seq<char>>, comment: Option<Seq<char>>, module: Seq<char>) -> PropertyV {
    PropertyV {
        type_: match over {
            Some(t) => t,
            None => d.type_,
        },
        name: d.name,
        comment: comment_of(comment, module),
        readable: d.read || d.member,
        writable: !d.constant && (d.write || d.member),
        default: false,
    }
}

/// One step of the macro scan. A hidden macro changes nothing. Any other takes
/// the pending carryover; its comment is its own or else the carried one.
/// `decl` is what the property pattern makes of a property macro's arguments,
/// `info` the default-property name that a class-info macro's arguments give.
pub open spec fn macro_step(
    s: ClassScanV,
    m: MacroCallV,
    decl: Option<PropertyDeclV>,
    info: Option<Seq<char>>,
    module: Seq<char>,
) -> Result<ClassScanV, ParseErrorV> {
    if m.hidden {
        Ok(s)
    } else {
        let comment = match m.comment {
            Some(c) => Some(c),
            None => match s.carryover {
                Some(c) => c.comment,
                None => None,
            },
        };
        let over = match s.carryover {
            Some(c) => c.type_override,
            None => None,
        };
        let t = ClassScanV { carryover: None, ..s };
        let k = m.kind;
        if k == "QSDOC_BASECLASS"@ {
            match m.args {
                Some(a) => Ok(ClassScanV { superclass: Some(a), ..t }),
                None => Err(missing(s, m)),
            }
        } else if k == "QSDOC_CNAME"@ {
            match m.args {
                Some(a) => Ok(ClassScanV { name: a, ..t }),
                None => Err(missing(s, m)),
            }
        } else if k == "Q_OBJECT"@ {
            Ok(ClassScanV { classtype: Some(ClassType::Object), ..t })
        } else if k == "Q_GADGET"@ {
            Ok(ClassScanV { classtype: Some(ClassType::Gadget), ..t })
        } else if k == "QML_ELEMENT"@ || k == "QSDOC_ELEMENT"@ {
            Ok(ClassScanV { qml_name: Some(s.name), ..t })
        } else if k == "QML_NAMED_ELEMENT"@ || k == "QSDOC_NAMED_ELEMENT"@ {
            match m.args {
                Some(a) => Ok(ClassScanV { qml_name: Some(a), ..t }),
                None => Err(missing(s, m)),
            }
        } else if k == "QML_SINGLETON"@ {
            Ok(ClassScanV { singleton: true, ..t })
        } else if k == "QML_UNCREATABLE"@ {
            Ok(ClassScanV { uncreatable: true, ..t })
        } else if k == "QSDOC_CREATABLE"@ {
            Ok(ClassScanV { force_creatable: true, ..t })
        } else if k == "QSDOC_TYPE_OVERRIDE"@ {
            match m.args {
                Some(a) => Ok(ClassScanV { carryover: Some(CarryoverV { type_override: Some(a), comment }), ..t }),
                None => Err(missing(s, m)),
            }
        } else if is_property_kind(k) {
            match m.args {
                Some(a) => match decl {
                    Some(d) => Ok(ClassScanV {
                        properties: s.properties.push(declared_property(d, over, comment, module)),
                        notify_signals: match d.notify {
                            Some(n) => s.notify_signals.push(n),
                            None => s.notify_signals,
                        },
                        ..t
                    }),
                    None => Err(ParseErrorV::MalformedProperty { class: s.name, args: a }),
                },
                None => Err(missing(s, m)),
            }
        } else if k == "Q_CLASSINFO"@ {
            match m.args {
                Some(_) => match info {
                    Some(p) => Ok(ClassScanV { default_property: Some(p), ..t }),
                    None => Ok(t),
                },
                None => Err(missing(s, m)),
            }
        } else {
            Ok(t)
        }
    }
}

fn missing_arg(s: &ClassScan, m: &MacroCall) -> (r: ParseError)
    ensures
        r@ == missing(s@, m@),
{
    ParseError::MissingArgument { class: s.name.clone(), macro_name: m.kind.clone() }
}

impl ClassScan {
    /// The scan state at the start of a class body.
    pub fn start(name: String, superclass: Option<String>) -> (r: ClassScan)
        ensures
            r@ == scan_start(name@, opt_text(superclass)),
    {
        let r = ClassScan {
            name,
            superclass,
            classtype: None,
            qml_name: None,
            singleton: false,
            uncreatable: false,
            force_creatable: false,
            properties: Vec::new(),
            default_property: None,
            notify_signals: Vec::new(),
            carryover: None,
        };
        assert(r@.properties =~= Seq::<PropertyV>::empty());
        assert(r@.notify_signals =~= Seq::<Seq<char>>::empty());
        r
    }

    /// Applies one macro, as `macro_step` says.
    pub fn apply_macro(
        &mut self,
        m: &MacroCall,
        decl: &Option<PropertyDecl>,
        info: &Option<String>,
        module: &str,
    ) -> (r: Result<(), ParseError>)
        ensures
            match macro_step(old(self)@, m@, decl_view(*decl), opt_text(*info), module@) {
                Ok(s) => r is Ok && final(self)@ == s,
                Err(e) => r matches Err(e2) && e2@ == e,
            },
    {
        if m.hidden {
            return Ok(());
        }
        let comment = match &m.comment {
            Some(c) => Some(c.clone()),
            None => match &self.carryover {
                Some(c) => copy_text(&c.comment),
                None => None,
            },
        };
        let over = match &self.carryover {
            Some(c) => copy_text(&c.type_override),
            None => None,
        };
        let k = m.kind.as_str();
        if same_text(k, "QSDOC_BASECLASS") {
            match &m.args {
                Some(a) => {
                    self.carryover = None;
                    self.superclass = Some(a.clone());
                },
                None => return Err(missing_arg(self, m)),
            }
        } else if same_text(k, "QSDOC_CNAME") {
            match &m.args {
                Some(a) => {
                    self.carryover = None;
                    self.name = a.clone();
                },
                None => return Err(missing_arg(self, m)),
            }
        } else if same_text(k, "Q_OBJECT") {
            self.carryover = None;
            self.classtype = Some(ClassType::Object);
        } else if same_text(k, "Q_GADGET") {
            self.carryover = None;
            self.classtype = Some(ClassType::Gadget);
        } else if same_text(k, "QML_ELEMENT") || same_text(k, "QSDOC_ELEMENT") {
            self.carryover = None;
            self.qml_name = Some(self.name.clone());
        } else if same_text(k, "QML_NAMED_ELEMENT") || same_text(k, "QSDOC_NAMED_ELEMENT") {
            match &m.args {
                Some(a) => {
                    self.carryover = None;
                    self.qml_name = Some(a.clone());
                },
                None => return Err(missing_arg(self, m)),
            }
        } else if same_text(k, "QML_SINGLETON") {
            self.carryover = None;
            self.singleton = true;
        } else if same_text(k, "QML_UNCREATABLE") {
            self.carryover = None;
            self.uncreatable = true;
        } else if same_text(k, "QSDOC_CREATABLE") {
            self.carryover = None;
            self.force_creatable = true;
        } else if same_text(k, "QSDOC_TYPE_OVERRIDE") {
            match &m.args {
                Some(a) => {
                    self.carryover = Some(Carryover { type_override: Some(a.clone()), comment });
                },
                None => return Err(missing_arg(self, m)),
            }
        } else if same_text(k, "Q_PROPERTY") || same_text(k, "QSDOC_PROPERTY_OVERRIDE") {
            match &m.args {
                Some(a) => match decl {
                    Some(d) => {
                        let type_ = match over {
                            Some(t) => t,
                            None => d.type_.clone(),
                        };
                        let p = Property {
                            type_,
                            name: d.name.clone(),
                            comment: make_comment(&comment, module),
                            readable: d.read || d.member,
                            writable: !d.constant && (d.write || d.member),
                            default: false,
                        };
                        self.carryover = None;
                        self.properties.push(p);
                        match &d.notify {
                            Some(n) => self.notify_signals.push(n.clone()),
                            None => {},
                        }
                    },
                    None => return Err(ParseError::MalformedProperty { class: self.name.clone(), args: a.clone() }),
                },
                None => return Err(missing_arg(self, m)),
            }
        } else if same_text(k, "Q_CLASSINFO") {
            match &m.args {
                Some(_) => {
                    self.carryover = None;
                    match info {
                        Some(p) => self.default_property = Some(p.clone()),
                        None => {},
                    }
                },
                None => return Err(missing_arg(self, m)),
            }
        } else {
            self.carryover = None;
        }
        proof {
            assert(self@.properties =~= match macro_step(old(self)@, m@, decl_view(*decl), opt_text(*info), module@) {
                Ok(s) => s.properties,
                Err(_) => self@.properties,
            });
            assert(self@.notify_signals =~= match macro_step(old(self)@, m@, decl_view(*decl), opt_text(*info), module@) {
                Ok(s) => s.notify_signals,
                Err(_) => self@.notify_signals,
            });
        }
        Ok(())
    }
}

pub const CLASS_PATTERN: &'static str = r#"(?<comment>(\s*\/\/\/.*\n)+)?\s*class\s+(?<name>\w+)(?:\s*:\s*public\s+((?<super>\w+)(<.+>)?)(\s*,(\s*\w+)*)*)?\s*\{(?<body>[\s\S]*?)(?!};\s*Q_ENUM)};"#;
pub const MACRO_PATTERN: &'static str = r#"(?<comment>(\s*\/\/\/.*\n)+)?\s*(?<hide>QSDOC_HIDE\s)?(?<type>(Q|QML|QSDOC)_\w+)\s*(\(\s*(?<args>.*)\s*\))?;"#;
pub const PROPERTY_PATTERN: &'static str = r#"^\s*(?<type>(\w|::|, |<|>|\*)+)\*?\s+(?<name>\w+)(\s+(MEMBER\s+(?<member>\w+)|READ\s+(?<read>\w+)|WRITE\s+(?<write>\w+)|RESET\s+(?<reset>\w+)|NOTIFY\s+(?<notify>\w+)|BINDABLE\s+(?<bindable>\w+)|(?<const>CONSTANT)|(?<final>FINAL)))+\s*$"#;
pub const FN_PATTERN: &'static str = r#"(?<comment>(\s*\/\/\/.*\n)+)?\s*(?<hide>QSDOC_HIDE\s)?(\/\/@\s+)?Q_INVOKABLE\s+(\[\[.*\]\]\s+)?(static\s+)?(?<type>(\w|::|<|>)+\*?)\s+(?<name>\w+)\((?<params>[\s\S]*?)\)(\s*const)?;"#;
pub const SIGNAL_PATTERN: &'static str = r#"(?<comment>(\s*\/\/\/.*\n)+)?\s*void\s+(?<name>\w+)\((?<params>[\s\S]*?)\);"#;
pub const PARAM_PATTERN: &'static str = r#"(const\s+)?(?<type>(\w|::|<|>)+\*?)&?\s+(?<name>\w+)(,|$)"#;
pub const SIGNALS_PATTERN: &'static str = r#"signals:(?<signals>(\s*(\s*///.*\s*)*void .*;)*)"#;
pub const CLASSINFO_PATTERN: &'static str = r#"^\s*"DefaultProperty", "(?<prop>.+)"\s*$"#;
pub const ENUM_NS_PATTERN: &'static str = r#"(?<comment>(\s*\/\/\/.*\n)+)?\s*namespace (?<namespace>\w+)\s*\{(?<nsbody>[\s\S]*?(QML_ELEMENT|QML_NAMED_ELEMENT\((?<qml_name>\w+)\));[\s\S]*?enum\s*(?<enum_name>\w+)\s*(:\s*\w+\s*)?\{(?<body>[\s\S]*?)\};[\s\S]*?)\}"#;
pub const ENUM_CLASS_PATTERN: &'static str = r#"(?<comment>(\s*\/\/\/.*\n)+)?\s*enum\s*(?<enum_name>\w+)\s*(:\s*\w+\s*)?\{(?<body>[\s\S]*?)\};\s+Q_ENUM\(.+\);"#;
pub const VARIANT_PATTERN: &'static str = r#"(?<comment>(\s*\/\/\/.*\n)+)?\s*(?<name>\w+)\s*=\s*.+,"#;

/// The patterns that make up the grammar of annotated sources.
pub struct CppParser {
    pub class_regex: Pattern,
    pub macro_regex: Pattern,
    pub property_regex: Pattern,
    pub signals_regex: Pattern,
    pub fn_regex: Pattern,
    pub signal_regex: Pattern,
    pub fn_param_regex: Pattern,
    pub defaultprop_classinfo_regex: Pattern,
    pub enum_ns_regex: Pattern,
    pub enum_class_regex: Pattern,
    pub enum_variant_regex: Pattern,
}

pub(crate) fn compiled(source: &str) -> (r: Result<Pattern, ParseError>)
    ensures
        r matches Ok(p) ==> p.source() == source@,
{
    match compile(source) {
        Ok(p) => Ok(p),
        Err(_) => Err(ParseError::Pattern),
    }
}

impl CppParser {
    /// Every pattern is the one of the grammar.
    pub open spec fn wf(&self) -> bool {
        &&& self.class_regex.source() == CLASS_PATTERN@
        &&& self.macro_regex.source() == MACRO_PATTERN@
        &&& self.property_regex.source() == PROPERTY_PATTERN@
        &&& self.signals_regex.source() == SIGNALS_PATTERN@
        &&& self.fn_regex.source() == FN_PATTERN@
        &&& self.signal_regex.source() == SIGNAL_PATTERN@
        &&& self.fn_param_regex.source() == PARAM_PATTERN@
        &&& self.defaultprop_classinfo_regex.source() == CLASSINFO_PATTERN@
        &&& self.enum_ns_regex.source() == ENUM_NS_PATTERN@
        &&& self.enum_class_regex.source() == ENUM_CLASS_PATTERN@
        &&& self.enum_variant_regex.source() == VARIANT_PATTERN@
    }

    pub fn new() -> (r: Result<CppParser, ParseError>)
        ensures
            r matches Ok(p) ==> p.wf(),
    {
        Ok(CppParser {
            class_regex: compiled(CLASS_PATTERN)?,
            macro_regex: compiled(MACRO_PATTERN)?,
            property_regex: compiled(PROPERTY_PATTERN)?,
            signals_regex: compiled(SIGNALS_PATTERN)?,
            fn_regex: compiled(FN_PATTERN)?,
            signal_regex: compiled(SIGNAL_PATTERN)?,
            fn_param_regex: compiled(PARAM_PATTERN)?,
            defaultprop_classinfo_regex: compiled(CLASSINFO_PATTERN)?,
            enum_ns_regex: compiled(ENUM_NS_PATTERN)?,
            enum_class_regex: compiled(ENUM_CLASS_PATTERN)?,
            enum_variant_regex: compiled(VARIANT_PATTERN)?,
        })
    }
}

pub open spec fn or_empty(o: Option<Seq<char>>) -> Seq<char> {
    match o {
        Some(s) => s,
        None => Seq::empty(),
    }
}

pub(crate) fn or_empty_exec(o: Option<String>) -> (r: String)
    ensures
        r@ == or_empty(opt_text(o)),
{
    match o {
        Some(s) => s,
        None => String::new(),
    }
}

pub open spec fn macro_groups() -> Seq<Seq<char>> {
    seq!["comment"@, "hide"@, "type"@, "args"@]
}

pub open spec fn property_groups() -> Seq<Seq<char>> {
    seq!["type"@, "name"@, "member"@, "read"@, "write"@, "const"@, "notify"@]
}

pub open spec fn info_groups() -> Seq<Seq<char>> {
    seq!["prop"@]
}

fn macro_group_list() -> (r: Vec<&'static str>)
    ensures
        names_view(r@) == macro_groups(),
{
    let r = vec!["comment", "hide", "type", "args"];
    assert(names_view(r@) =~= macro_groups());
    r
}

fn property_group_list() -> (r: Vec<&'static str>)
    ensures
        names_view(r@) == property_groups(),
{
    let r = vec!["type", "name", "member", "read", "write", "const", "notify"];
    assert(names_view(r@) =~= property_groups());
    r
}

fn info_group_list() -> (r: Vec<&'static str>)
    ensures
        names_view(r@) == info_groups(),
{
    let r = vec!["prop"];
    assert(names_view(r@) =~= info_groups());
    r
}

/// The macro that a match of the macro pattern captures.
pub open spec fn macro_view_of(c: Seq<Option<Seq<char>>>) -> Option<MacroCallV> {
    match group(c, 2) {
        Some(k) => Some(MacroCallV { comment: group(c, 0), hidden: group(c, 1) is Some, kind: k, args: group(c, 3) }),
        None => None,
    }
}

/// The declaration that a match of the property pattern captures.
pub open spec fn decl_of(c: Seq<Option<Seq<char>>>) -> Option<PropertyDeclV> {
    match (group(c, 0), group(c, 1)) {
        (Some(t), Some(n)) => Some(PropertyDeclV {
            type_: t,
            name: n,
            member: group(c, 2) is Some,
            read: group(c, 3) is Some,
            write: group(c, 4) is Some,
            constant: group(c, 5) is Some,
            notify: group(c, 6),
        }),
        _ => None,
    }
}

pub open spec fn first_decl(ms: Seq<Seq<Option<Seq<char>>>>) -> Option<PropertyDeclV> {
    if ms.len() > 0 {
        decl_of(ms[0])
    } else {
        None
    }
}

pub open spec fn first_info(ms: Seq<Seq<Option<Seq<char>>>>) -> Option<Seq<char>> {
    if ms.len() > 0 {
        group(ms[0], 0)
    } else {
        None
    }
}

/// The macro captured by `c`.
pub fn macro_call_of(c: &Vec<Option<String>>) -> (r: Option<MacroCall>)
    ensures
        match r {
            Some(m) => macro_view_of(match_view(*c)) == Some(m@),
            None => macro_view_of(match_view(*c)) is None,
        },
{
    match group_at(c, 2) {
        Some(kind) => Some(MacroCall {
            comment: group_at(c, 0),
            hidden: group_at(c, 1).is_some(),
            kind,
            args: group_at(c, 3),
        }),
        None => None,
    }
}

/// The property declaration captured by `c`.
pub fn property_decl_of(c: &Vec<Option<String>>) -> (r: Option<PropertyDecl>)
    ensures
        decl_view(r) == decl_of(match_view(*c)),
{
    match (group_at(c, 0), group_at(c, 1)) {
        (Some(type_), Some(name)) => Some(PropertyDecl {
            type_,
            name,
            member: group_at(c, 2).is_some(),
            read: group_at(c, 3).is_some(),
            write: group_at(c, 4).is_some(),
            constant: group_at(c, 5).is_some(),
            notify: group_at(c, 6),
        }),
        _ => None,
    }
}

/// The effect of the macro match `c` on the scan: a property macro's arguments
/// are decomposed by the property pattern, a class-info macro's by the
/// default-property pattern.
pub open spec fn macro_effect(s: ClassScanV, c: Seq<Option<Seq<char>>>, module: Seq<char>) -> Result<ClassScanV, ParseErrorV> {
    match macro_view_of(c) {
        None => Ok(s),
        Some(m) => if !m.hidden && is_property_kind(m.kind) && m.args is Some {
            match regex_captures(PROPERTY_PATTERN@, property_groups(), m.args->0) {
                None => Err(ParseErrorV::Pattern),
                Some(ps) => macro_step(s, m, first_decl(ps), None, module),
            }
        } else if !m.hidden && m.kind == "Q_CLASSINFO"@ && m.args is Some {
            match regex_captures(CLASSINFO_PATTERN@, info_groups(), m.args->0) {
                None => Err(ParseErrorV::Pattern),
                Some(cs) => macro_step(s, m, None, first_info(cs), module),
            }
        } else {
            macro_step(s, m, None, None, module)
        },
    }
}

/// The scan over the macro matches `ms`, in order, stopping at the first error.
pub open spec fn fold_macros(s: ClassScanV, ms: Seq<Seq<Option<Seq<char>>>>, module: Seq<char>) -> Result<ClassScanV, ParseErrorV>
    decreases ms.len(),
{
    if ms.len() == 0 {
        Ok(s)
    } else {
        match macro_effect(s, ms[0], module) {
            Ok(s2) => fold_macros(s2, ms.drop_first(), module),
            Err(e) => Err(e),
        }
    }
}

/// The scan over every macro in `body`.
pub open spec fn macros_result(s: ClassScanV, body: Seq<char>, module: Seq<char>) -> Result<ClassScanV, ParseErrorV> {
    match regex_captures(MACRO_PATTERN@, macro_groups(), body) {
        None => Err(ParseErrorV::Pattern),
        Some(ms) => fold_macros(s, ms, module),
    }
}

impl CppParser {
    fn apply_effect(&self, state: &mut ClassScan, c: &Vec<Option<String>>, module: &str) -> (r: Result<(), ParseError>)
        requires
            self.wf(),
        ensures
            match macro_effect(old(state)@, match_view(*c), module@) {
                Ok(s) => r is Ok && final(state)@ == s,
                Err(e) => r matches Err(e2) && e2@ == e,
            },
    {
        let m = match macro_call_of(c) {
            Some(m) => m,
            None => return Ok(()),
        };
        let k = m.kind.as_str();
        let property = same_text(k, "Q_PROPERTY") || same_text(k, "QSDOC_PROPERTY_OVERRIDE");
        let classinfo = same_text(k, "Q_CLASSINFO");
        match &m.args {
            Some(a) => {
                if !m.hidden && property {
                    let ps = match scan(&self.property_regex, &property_group_list(), a.as_str()) {
                        Ok(ps) => ps,
                        Err(_) => return Err(ParseError::Pattern),
                    };
                    let decl = if ps.len() > 0 {
                        property_decl_of(&ps[0])
                    } else {
                        None
                    };
                    return state.apply_macro(&m, &decl, &None, module);
                } else if !m.hidden && classinfo {
                    let cs = match scan(&self.defaultprop_classinfo_regex, &info_group_list(), a.as_str()) {
                        Ok(cs) => cs,
                        Err(_) => return Err(ParseError::Pattern),
                    };
                    let info = if cs.len() > 0 {
                        group_at(&cs[0], 0)
                    } else {
                        None
                    };
                    return state.apply_macro(&m, &None, &info, module);
                }
            },
            None => {},
        }
        state.apply_macro(&m, &None, &None, module)
    }

    /// Runs the macro scan over `body`, as `macros_result` says.
    pub fn scan_macros(&self, state: &mut ClassScan, body: &str, module: &str) -> (r: Result<(), ParseError>)
        requires
            self.wf(),
        ensures
            match macros_result(old(state)@, body@, module@) {
                Ok(s) => r is Ok && final(state)@ == s,
                Err(e) => r matches Err(e2) && e2@ == e,
            },
    {
        let ms = match scan(&self.macro_regex, &macro_group_list(), body) {
            Ok(ms) => ms,
            Err(_) => return Err(ParseError::Pattern),
        };
        let ghost cv = crate::pattern::captures_view(ms@);
        let ghost total = macros_result(old(state)@, body@, module@);
        assert(total == fold_macros(state@, cv.subrange(0, cv.len() as int), module@)) by {
            assert(cv.subrange(0, cv.len() as int) == cv);
        }
        let mut i: usize = 0;
        while i < ms.len()
            invariant
                self.wf(),
                i <= ms.len(),
                cv == crate::pattern::captures_view(ms@),
                total == macros_result(old(state)@, body@, module@),
                total == fold_macros(state@, cv.subrange(i as int, cv.len() as int), module@),
            decreases ms.len() - i,
        {
            let ghost rest = cv.subrange(i as int, cv.len() as int);
            assert(rest[0] == match_view(ms@[i as int]));
            assert(rest.drop_first() == cv.subrange(i + 1, cv.len() as int));
            assert(total == match macro_effect(state@, rest[0], module@) {
                Ok(s2) => fold_macros(s2, rest.drop_first(), module@),
                Err(e) => Err(e),
            });
            match self.apply_effect(state, &ms[i], module) {
                Ok(()) => {},
                Err(e) => return Err(e),
            }
            i = i + 1;
        }
        Ok(())
    }
}

pub open spec fn fn_groups() -> Seq<Seq<char>> {
    seq!["comment"@, "hide"@, "type"@, "name"@, "params"@]
}

pub open spec fn param_groups() -> Seq<Seq<char>> {
    seq!["type"@, "name"@]
}

pub open spec fn signals_groups() -> Seq<Seq<char>> {
    seq!["signals"@]
}

pub open spec fn signal_groups() -> Seq<Seq<char>> {
    seq!["comment"@, "name"@, "params"@]
}

pub open spec fn enum_groups() -> Seq<Seq<char>> {
    seq!["comment"@, "enum_name"@, "body"@]
}

pub open spec fn variant_groups() -> Seq<Seq<char>> {
    seq!["comment"@, "name"@]
}

pub open spec fn class_groups() -> Seq<Seq<char>> {
    seq!["comment"@, "name"@, "super"@, "body"@]
}

fn group_list(which: u8) -> (r: Vec<&'static str>)
    requires
        which < 7,
    ensures
        names_view(r@) == if which == 0 {
            fn_groups()
        } else if which == 1 {
            param_groups()
        } else if which == 2 {
            signals_groups()
        } else if which == 3 {
            signal_groups()
        } else if which == 4 {
            enum_groups()
        } else if which == 5 {
            variant_groups()
        } else {
            class_groups()
        },
{
    let r = if which == 0 {
        vec!["comment", "hide", "type", "name", "params"]
    } else if which == 1 {
        vec!["type", "name"]
    } else if which == 2 {
        vec!["signals"]
    } else if which == 3 {
        vec!["comment", "name", "params"]
    } else if which == 4 {
        vec!["comment", "enum_name", "body"]
    } else if which == 5 {
        vec!["comment", "name"]
    } else {
        vec!["comment", "name", "super", "body"]
    };
    proof {
        if which == 0 {
            assert(names_view(r@) =~= fn_groups());
        } else if which == 1 {
            assert(names_view(r@) =~= param_groups());
        } else if which == 2 {
            assert(names_view(r@) =~= signals_groups());
        } else if which == 3 {
            assert(names_view(r@) =~= signal_groups());
        } else if which == 4 {
            assert(names_view(r@) =~= enum_groups());
        } else if which == 5 {
            assert(names_view(r@) =~= variant_groups());
        } else {
            assert(names_view(r@) =~= class_groups());
        }
    }
    r
}

pub open spec fn param_of(c: Seq<Option<Seq<char>>>) -> ParamV {
    ParamV { name: or_empty(group(c, 1)), type_: or_empty(group(c, 0)) }
}

/// The parameters that the parameter pattern finds in `text`, in order.
pub open spec fn params_in(text: Seq<char>) -> Option<Seq<ParamV>> {
    match regex_captures(PARAM_PATTERN@, param_groups(), text) {
        Some(ms) => Some(ms.map_values(|c: Seq<Option<Seq<char>>>| param_of(c))),
        None => None,
    }
}

/// The invokable methods of the matches `ms` that are not hidden.
pub open spec fn invokables_of(ms: Seq<Seq<Option<Seq<char>>>>, module: Seq<char>) -> Option<Seq<InvokableV>>
    decreases ms.len(),
{
    if ms.len() == 0 {
        Some(Seq::empty())
    } else {
        let c = ms.last();
        match invokables_of(ms.drop_last(), module) {
            None => None,
            Some(r) => if group(c, 1) is Some {
                Some(r)
            } else {
                match params_in(or_empty(group(c, 4))) {
                    None => None,
                    Some(ps) => Some(r.push(InvokableV {
                        name: or_empty(group(c, 3)),
                        ret: or_empty(group(c, 2)),
                        comment: comment_of(group(c, 0), module),
                        params: ps,
                    })),
                }
            },
        }
    }
}

/// The signals of the matches `ms` whose names are not notify signals.
pub open spec fn signals_of(ms: Seq<Seq<Option<Seq<char>>>>, notify: Seq<Seq<char>>, module: Seq<char>) -> Option<Seq<SignalV>>
    decreases ms.len(),
{
    if ms.len() == 0 {
        Some(Seq::empty())
    } else {
        let c = ms.last();
        match signals_of(ms.drop_last(), notify, module) {
            None => None,
            Some(r) => if notify.contains(or_empty(group(c, 1))) {
                Some(r)
            } else {
                match params_in(or_empty(group(c, 2))) {
                    None => None,
                    Some(ps) => Some(r.push(SignalV { name: or_empty(group(c, 1)), comment: comment_of(group(c, 0), module), params: ps })),
                }
            },
        }
    }
}

/// The signals declared in every signal section matched by `ms`.
pub open spec fn signal_sections(ms: Seq<Seq<Option<Seq<char>>>>, notify: Seq<Seq<char>>, module: Seq<char>) -> Option<Seq<SignalV>>
    decreases ms.len(),
{
    if ms.len() == 0 {
        Some(Seq::empty())
    } else {
        match signal_sections(ms.drop_last(), notify, module) {
            None => None,
            Some(r) => match regex_captures(SIGNAL_PATTERN@, signal_groups(), or_empty(group(ms.last(), 0))) {
                None => None,
                Some(ss) => match signals_of(ss, notify, module) {
                    None => None,
                    Some(more) => Some(r + more),
                },
            },
        }
    }
}

pub open spec fn variant_of(c: Seq<Option<Seq<char>>>, module: Seq<char>) -> VariantV {
    VariantV { name: or_empty(group(c, 1)), comment: comment_of(group(c, 0), module) }
}

/// The variants that the variant pattern finds in an enum body, in order.
pub open spec fn variants_in(body: Seq<char>, module: Seq<char>) -> Option<Seq<VariantV>> {
    match regex_captures(VARIANT_PATTERN@, variant_groups(), body) {
        Some(ms) => Some(ms.map_values(|c: Seq<Option<Seq<char>>>| variant_of(c, module))),
        None => None,
    }
}

/// The enums registered inside class `owner`, matched by `ms`.
pub open spec fn class_enums_of(ms: Seq<Seq<Option<Seq<char>>>>, owner: Seq<char>, module: Seq<char>) -> Option<Seq<EnumInfoV>>
    decreases ms.len(),
{
    if ms.len() == 0 {
        Some(Seq::empty())
    } else {
        let c = ms.last();
        match class_enums_of(ms.drop_last(), owner, module) {
            None => None,
            Some(r) => match variants_in(or_empty(group(c, 2)), module) {
                None => None,
                Some(vs) => Some(r.push(EnumInfoV {
                    namespace: owner,
                    enum_name: or_empty(group(c, 1)),
                    qml_name: or_empty(group(c, 1)),
                    comment: comment_of(group(c, 0), module),
                    variants: vs,
                })),
            },
        }
    }
}

pub open spec fn prop_v_named(n: Seq<char>) -> spec_fn(PropertyV) -> bool {
    |p: PropertyV| p.name == n
}

/// The properties with the first one named `default` flagged as the default
/// property; an error where none is named so.
pub open spec fn default_marked(props: Seq<PropertyV>, default: Option<Seq<char>>, class: Seq<char>) -> Result<Seq<PropertyV>, ParseErrorV> {
    match default {
        None => Ok(props),
        Some(p) => match first_from(props, prop_v_named(p), 0) {
            Some(i) => Ok(props.update(i, PropertyV { default: true, ..props[i] })),
            None => Err(ParseErrorV::UnknownDefaultProperty { class, property: p }),
        },
    }
}

pub open spec fn with_default(s: ClassScanV) -> Result<Seq<PropertyV>, ParseErrorV> {
    default_marked(s.properties, s.default_property, s.name)
}

/// What the class block with the given name, superclass, comment and body
/// declares: nothing where no classification macro marks it reflectable.
pub open spec fn class_of(
    name: Seq<char>,
    superclass: Option<Seq<char>>,
    comment: Option<Seq<char>>,
    body: Seq<char>,
    module: Seq<char>,
) -> Result<Option<ClassInfoV>, ParseErrorV> {
    match macros_result(scan_start(name, superclass), body, module) {
        Err(e) => Err(e),
        Ok(s) => match with_default(s) {
            Err(e) => Err(e),
            Ok(props) => {
                let fns = match regex_captures(FN_PATTERN@, fn_groups(), body) {
                    Some(ms) => invokables_of(ms, module),
                    None => None,
                };
                let sigs = match regex_captures(SIGNALS_PATTERN@, signals_groups(), body) {
                    Some(ms) => signal_sections(ms, s.notify_signals, module),
                    None => None,
                };
                let enums = match regex_captures(ENUM_CLASS_PATTERN@, enum_groups(), body) {
                    Some(ms) => class_enums_of(ms, s.name, module),
                    None => None,
                };
                if fns is None || sigs is None || enums is None {
                    Err(ParseErrorV::Pattern)
                } else {
                    match s.classtype {
                        None => Ok(None),
                        Some(t) => Ok(Some(ClassInfoV {
                            type_: t,
                            name: s.name,
                            qml_name: s.qml_name,
                            superclass: s.superclass,
                            singleton: s.singleton,
                            uncreatable: s.uncreatable && !s.force_creatable,
                            comment: comment_of(comment, module),
                            properties: props,
                            invokables: fns->0,
                            signals: sigs->0,
                            enums: enums->0,
                        })),
                    }
                }
            },
        },
    }
}

proof fn lemma_invokables_none(ms: Seq<Seq<Option<Seq<char>>>>, module: Seq<char>, k: int)
    requires
        0 <= k <= ms.len(),
        invokables_of(ms.take(k), module) is None,
    ensures
        invokables_of(ms, module) is None,
    decreases ms.len() - k,
{
    if k < ms.len() {
        assert(ms.take(k + 1).drop_last() == ms.take(k));
        lemma_invokables_none(ms, module, k + 1);
    } else {
        assert(ms.take(k) == ms);
    }
}

proof fn lemma_signals_none(ms: Seq<Seq<Option<Seq<char>>>>, notify: Seq<Seq<char>>, module: Seq<char>, k: int)
    requires
        0 <= k <= ms.len(),
        signals_of(ms.take(k), notify, module) is None,
    ensures
        signals_of(ms, notify, module) is None,
    decreases ms.len() - k,
{
    if k < ms.len() {
        assert(ms.take(k + 1).drop_last() == ms.take(k));
        lemma_signals_none(ms, notify, module, k + 1);
    } else {
        assert(ms.take(k) == ms);
    }
}

proof fn lemma_sections_none(ms: Seq<Seq<Option<Seq<char>>>>, notify: Seq<Seq<char>>, module: Seq<char>, k: int)
    requires
        0 <= k <= ms.len(),
        signal_sections(ms.take(k), notify, module) is None,
    ensures
        signal_sections(ms, notify, module) is None,
    decreases ms.len() - k,
{
    if k < ms.len() {
        assert(ms.take(k + 1).drop_last() == ms.take(k));
        lemma_sections_none(ms, notify, module, k + 1);
    } else {
        assert(ms.take(k) == ms);
    }
}

proof fn lemma_enums_none(ms: Seq<Seq<Option<Seq<char>>>>, owner: Seq<char>, module: Seq<char>, k: int)
    requires
        0 <= k <= ms.len(),
        class_enums_of(ms.take(k), owner, module) is None,
    ensures
        class_enums_of(ms, owner, module) is None,
    decreases ms.len() - k,
{
    if k < ms.len() {
        assert(ms.take(k + 1).drop_last() == ms.take(k));
        lemma_enums_none(ms, owner, module, k + 1);
    } else {
        assert(ms.take(k) == ms);
    }
}

fn contains_text(v: &Vec<String>, s: &String) -> (r: bool)
    ensures
        r == v@.map_values(|n: String| n@).contains(s@),
{
    let ghost vv = v@.map_values(|n: String| n@);
    let mut i: usize = 0;
    while i < v.len()
        invariant
            i <= v.len(),
            vv == v@.map_values(|n: String| n@),
            forall|k: int| 0 <= k < i ==> vv[k] != s@,
        decreases v.len() - i,
    {
        if v[i] == *s {
            assert(vv[i as int] == s@);
            return true;
        }
        i = i + 1;
    }
    false
}

impl CppParser {
    /// The parameters that the parameter pattern finds in `text`.
    pub fn params(&self, text: &str) -> (r: Result<Vec<InvokableParam>, ParseError>)
        requires
            self.wf(),
        ensures
            match params_in(text@) {
                Some(ps) => r matches Ok(v) && params_view(v@) == ps,
                None => r matches Err(e) && e@ == ParseErrorV::Pattern,
            },
    {
        let ms = match scan(&self.fn_param_regex, &group_list(1), text) {
            Ok(ms) => ms,
            Err(_) => return Err(ParseError::Pattern),
        };
        let ghost cv = crate::pattern::captures_view(ms@);
        let mut out: Vec<InvokableParam> = Vec::new();
        let mut i: usize = 0;
        while i < ms.len()
            invariant
                i <= ms.len(),
                cv == crate::pattern::captures_view(ms@),
                out.len() == i,
                forall|k: int| 0 <= k < i ==> (#[trigger] out@[k])@ == param_of(cv[k]),
            decreases ms.len() - i,
        {
            let type_ = or_empty_exec(group_at(&ms[i], 0));
            let name = or_empty_exec(group_at(&ms[i], 1));
            out.push(InvokableParam { name, type_ });
            i = i + 1;
        }
        assert(params_view(out@) =~= cv.map_values(|c: Seq<Option<Seq<char>>>| param_of(c)));
        Ok(out)
    }

    fn invokables(&self, body: &str, module: &str) -> (r: Result<Vec<Invokable>, ParseError>)
        requires
            self.wf(),
        ensures
            match regex_captures(FN_PATTERN@, fn_groups(), body@) {
                Some(ms) => match invokables_of(ms, module@) {
                    Some(fs) => r matches Ok(v) && v@.map_values(|f: Invokable| f@) == fs,
                    None => r matches Err(e) && e@ == ParseErrorV::Pattern,
                },
                None => r matches Err(e) && e@ == ParseErrorV::Pattern,
            },
    {
        let ms = match scan(&self.fn_regex, &group_list(0), body) {
            Ok(ms) => ms,
            Err(_) => return Err(ParseError::Pattern),
        };
        let ghost cv = crate::pattern::captures_view(ms@);
        let mut out: Vec<Invokable> = Vec::new();
        let mut i: usize = 0;
        while i < ms.len()
            invariant
                self.wf(),
                i <= ms.len(),
                cv == crate::pattern::captures_view(ms@),
                regex_captures(FN_PATTERN@, fn_groups(), body@) == Some(cv),
                invokables_of(cv.take(i as int), module@) == Some(out@.map_values(|f: Invokable| f@)),
            decreases ms.len() - i,
        {
            let c = &ms[i];
            assert(cv.take(i + 1).drop_last() == cv.take(i as int));
            assert(cv.take(i + 1).last() == match_view(*c));
            if group_at(c, 1).is_none() {
                let params = match self.params(or_empty_exec(group_at(c, 4)).as_str()) {
                    Ok(ps) => ps,
                    Err(e) => {
                        proof {
                            lemma_invokables_none(cv, module@, i + 1);
                        }
                        return Err(e);
                    },
                };
                let f = Invokable {
                    name: or_empty_exec(group_at(c, 3)),
                    ret: or_empty_exec(group_at(c, 2)),
                    comment: make_comment(&group_at(c, 0), module),
                    params,
                };
                let ghost before = out@;
                out.push(f);
                assert(out@.map_values(|f: Invokable| f@) =~= before.map_values(|f: Invokable| f@).push(f@));
            }
            i = i + 1;
        }
        assert(cv.take(i as int) == cv);
        Ok(out)
    }

    fn signals_in(&self, text: &str, notify: &Vec<String>, module: &str) -> (r: Result<Vec<Signal>, ParseError>)
        requires
            self.wf(),
        ensures
            match regex_captures(SIGNAL_PATTERN@, signal_groups(), text@) {
                Some(ss) => match signals_of(ss, notify@.map_values(|n: String| n@), module@) {
                    Some(v) => r matches Ok(out) && out@.map_values(|s: Signal| s@) == v,
                    None => r matches Err(e) && e@ == ParseErrorV::Pattern,
                },
                None => r matches Err(e) && e@ == ParseErrorV::Pattern,
            },
    {
        let ghost nv = notify@.map_values(|n: String| n@);
        let ms = match scan(&self.signal_regex, &group_list(3), text) {
            Ok(ms) => ms,
            Err(_) => return Err(ParseError::Pattern),
        };
        let ghost cv = crate::pattern::captures_view(ms@);
        let mut out: Vec<Signal> = Vec::new();
        let mut i: usize = 0;
        while i < ms.len()
            invariant
                self.wf(),
                i <= ms.len(),
                nv == notify@.map_values(|n: String| n@),
                cv == crate::pattern::captures_view(ms@),
                regex_captures(SIGNAL_PATTERN@, signal_groups(), text@) == Some(cv),
                signals_of(cv.take(i as int), nv, module@) == Some(out@.map_values(|s: Signal| s@)),
            decreases ms.len() - i,
        {
            let c = &ms[i];
            assert(cv.take(i + 1).drop_last() == cv.take(i as int));
            assert(cv.take(i + 1).last() == match_view(*c));
            let name = or_empty_exec(group_at(c, 1));
            if !contains_text(notify, &name) {
                let params = match self.params(or_empty_exec(group_at(c, 2)).as_str()) {
                    Ok(ps) => ps,
                    Err(e) => {
                        proof {
                            lemma_signals_none(cv, nv, module@, i + 1);
                        }
                        return Err(e);
                    },
                };
                let sg = Signal { name, comment: make_comment(&group_at(c, 0), module), params };
                let ghost before = out@;
                out.push(sg);
                assert(out@.map_values(|s: Signal| s@) =~= before.map_values(|s: Signal| s@).push(sg@));
            }
            i = i + 1;
        }
        assert(cv.take(i as int) == cv);
        Ok(out)
    }

    fn signals(&self, body: &str, notify: &Vec<String>, module: &str) -> (r: Result<Vec<Signal>, ParseError>)
        requires
            self.wf(),
        ensures
            match regex_captures(SIGNALS_PATTERN@, signals_groups(), body@) {
                Some(ms) => match signal_sections(ms, notify@.map_values(|n: String| n@), module@) {
                    Some(v) => r matches Ok(out) && out@.map_values(|s: Signal| s@) == v,
                    None => r matches Err(e) && e@ == ParseErrorV::Pattern,
                },
                None => r matches Err(e) && e@ == ParseErrorV::Pattern,
            },
    {
        let ghost nv = notify@.map_values(|n: String| n@);
        let ms = match scan(&self.signals_regex, &group_list(2), body) {
            Ok(ms) => ms,
            Err(_) => return Err(ParseError::Pattern),
        };
        let ghost cv = crate::pattern::captures_view(ms@);
        let mut out: Vec<Signal> = Vec::new();
        let mut i: usize = 0;
        while i < ms.len()
            invariant
                self.wf(),
                i <= ms.len(),
                nv == notify@.map_values(|n: String| n@),
                cv == crate::pattern::captures_view(ms@),
                regex_captures(SIGNALS_PATTERN@, signals_groups(), body@) == Some(cv),
                signal_sections(cv.take(i as int), nv, module@) == Some(out@.map_values(|s: Signal| s@)),
            decreases ms.len() - i,
        {
            let c = &ms[i];
            assert(cv.take(i + 1).drop_last() == cv.take(i as int));
            assert(cv.take(i + 1).last() == match_view(*c));
            let more = match self.signals_in(or_empty_exec(group_at(c, 0)).as_str(), notify, module) {
                Ok(v) => v,
                Err(e) => {
                    proof {
                        lemma_sections_none(cv, nv, module@, i + 1);
                    }
                    return Err(e);
                },
            };
            let ghost before = out@;
            let mut more = more;
            let ghost mv = more@;
            out.append(&mut more);
            assert(out@.map_values(|s: Signal| s@) =~= before.map_values(|s: Signal| s@) + mv.map_values(|s: Signal| s@));
            i = i + 1;
        }
        assert(cv.take(i as int) == cv);
        Ok(out)
    }

    /// The variants that the variant pattern finds in an enum body.
    pub fn parse_enum_variants(&self, body: &str, module: &str) -> (r: Result<Vec<Variant>, ParseError>)
        requires
            self.wf(),
        ensures
            match variants_in(body@, module@) {
                Some(vs) => r matches Ok(v) && v@.map_values(|x: Variant| x@) == vs,
                None => r matches Err(e) && e@ == ParseErrorV::Pattern,
            },
    {
        let ms = match scan(&self.enum_variant_regex, &group_list(5), body) {
            Ok(ms) => ms,
            Err(_) => return Err(ParseError::Pattern),
        };
        let ghost cv = crate::pattern::captures_view(ms@);
        let mut out: Vec<Variant> = Vec::new();
        let mut i: usize = 0;
        while i < ms.len()
            invariant
                i <= ms.len(),
                cv == crate::pattern::captures_view(ms@),
                out.len() == i,
                forall|k: int| 0 <= k < i ==> (#[trigger] out@[k])@ == variant_of(cv[k], module@),
            decreases ms.len() - i,
        {
            let name = or_empty_exec(group_at(&ms[i], 1));
            out.push(Variant { name, comment: make_comment(&group_at(&ms[i], 0), module) });
            i = i + 1;
        }
        assert(out@.map_values(|x: Variant| x@) =~= cv.map_values(|c: Seq<Option<Seq<char>>>| variant_of(c, module@)));
        Ok(out)
    }

    fn class_enums(&self, body: &str, owner: &String, module: &str) -> (r: Result<Vec<EnumInfo>, ParseError>)
        requires
            self.wf(),
        ensures
            match regex_captures(ENUM_CLASS_PATTERN@, enum_groups(), body@) {
                Some(ms) => match class_enums_of(ms, owner@, module@) {
                    Some(v) => r matches Ok(out) && out@.map_values(|e: EnumInfo| e@) == v,
                    None => r matches Err(e) && e@ == ParseErrorV::Pattern,
                },
                None => r matches Err(e) && e@ == ParseErrorV::Pattern,
            },
    {
        let ms = match scan(&self.enum_class_regex, &group_list(4), body) {
            Ok(ms) => ms,
            Err(_) => return Err(ParseError::Pattern),
        };
        let ghost cv = crate::pattern::captures_view(ms@);
        let mut out: Vec<EnumInfo> = Vec::new();
        let mut i: usize = 0;
        while i < ms.len()
            invariant
                self.wf(),
                i <= ms.len(),
                cv == crate::pattern::captures_view(ms@),
                regex_captures(ENUM_CLASS_PATTERN@, enum_groups(), body@) == Some(cv),
                class_enums_of(cv.take(i as int), owner@, module@) == Some(out@.map_values(|e: EnumInfo| e@)),
            decreases ms.len() - i,
        {
            let c = &ms[i];
            assert(cv.take(i + 1).drop_last() == cv.take(i as int));
            assert(cv.take(i + 1).last() == match_view(*c));
            let variants = match self.parse_enum_variants(or_empty_exec(group_at(c, 2)).as_str(), module) {
                Ok(v) => v,
                Err(e) => {
                    proof {
                        lemma_enums_none(cv, owner@, module@, i + 1);
                    }
                    return Err(e);
                },
            };
            let enum_name = or_empty_exec(group_at(c, 1));
            let e = EnumInfo {
                namespace: owner.clone(),
                qml_name: enum_name.clone(),
                enum_name,
                comment: make_comment(&group_at(c, 0), module),
                variants,
            };
            let ghost before = out@;
            out.push(e);
            assert(out@.map_values(|e: EnumInfo| e@) =~= before.map_values(|e: EnumInfo| e@).push(e@));
            i = i + 1;
        }
        assert(cv.take(i as int) == cv);
        Ok(out)
    }
}

/// Flags the default property among `props`.
pub fn mark_default(props: &mut Vec<Property>, default: &Option<String>, class: &String) -> (r: Result<(), ParseError>)
    ensures
        match default_marked(old(props)@.map_values(|p: Property| p@), opt_text(*default), class@) {
            Ok(ps) => r is Ok && final(props)@.map_values(|p: Property| p@) == ps,
            Err(e) => r matches Err(e2) && e2@ == e,
        },
{
    let d = match default {
        Some(d) => d,
        None => return Ok(()),
    };
    let ghost pv = props@.map_values(|p: Property| p@);
    let ghost pr = prop_v_named(d@);
    let mut i: usize = 0;
    while i < props.len()
        invariant
            i <= props.len(),
            pv == props@.map_values(|p: Property| p@),
            pr == prop_v_named(d@),
            opt_text(*default) == Some(d@),
            props@ == old(props)@,
            first_from(pv, pr, 0) == first_from(pv, pr, i as int),
        decreases props.len() - i,
    {
        if props[i].name == *d {
            let mut p = props.remove(i);
            p.default = true;
            props.insert(i, p);
            assert(props@.map_values(|p: Property| p@) =~= pv.update(i as int, PropertyV { default: true, ..pv[i as int] }));
            return Ok(());
        }
        i = i + 1;
    }
    Err(ParseError::UnknownDefaultProperty { class: class.clone(), property: d.clone() })
}

/// The classes of the class matches `ms`, stopping at the first error.
pub open spec fn classes_of(ms: Seq<Seq<Option<Seq<char>>>>, module: Seq<char>) -> Result<Seq<ClassInfoV>, ParseErrorV>
    decreases ms.len(),
{
    if ms.len() == 0 {
        Ok(Seq::empty())
    } else {
        let c = ms.last();
        match classes_of(ms.drop_last(), module) {
            Err(e) => Err(e),
            Ok(r) => match class_of(or_empty(group(c, 1)), group(c, 2), group(c, 0), or_empty(group(c, 3)), module) {
                Err(e) => Err(e),
                Ok(None) => Ok(r),
                Ok(Some(ci)) => Ok(r.push(ci)),
            },
        }
    }
}

/// The classes that `text` declares.
pub open spec fn classes_in(text: Seq<char>, module: Seq<char>) -> Result<Seq<ClassInfoV>, ParseErrorV> {
    match regex_captures(CLASS_PATTERN@, class_groups(), text) {
        None => Err(ParseErrorV::Pattern),
        Some(ms) => classes_of(ms, module),
    }
}

proof fn lemma_classes_err(ms: Seq<Seq<Option<Seq<char>>>>, module: Seq<char>, k: int, e: ParseErrorV)
    requires
        0 <= k <= ms.len(),
        classes_of(ms.take(k), module) == Err::<Seq<ClassInfoV>, ParseErrorV>(e),
    ensures
        classes_of(ms, module) == Err::<Seq<ClassInfoV>, ParseErrorV>(e),
    decreases ms.len() - k,
{
    if k < ms.len() {
        assert(ms.take(k + 1).drop_last() == ms.take(k));
        lemma_classes_err(ms, module, k + 1, e);
    } else {
        assert(ms.take(k) == ms);
    }
}

/// The enum name after the flag-set declarations among the macro matches `ms`:
/// each renames the enum to the first of its arguments.
pub open spec fn flags_name(ms: Seq<Seq<Option<Seq<char>>>>, name: Seq<char>, ns: Seq<char>) -> Result<Seq<char>, ParseErrorV>
    decreases ms.len(),
{
    if ms.len() == 0 {
        Ok(name)
    } else {
        match flags_name(ms.drop_last(), name, ns) {
            Err(e) => Err(e),
            Ok(n) => match macro_view_of(ms.last()) {
                Some(m) => if m.kind == "Q_DECLARE_FLAGS"@ {
                    match m.args {
                        None => Err(ParseErrorV::MissingArgument { class: ns, macro_name: m.kind }),
                        Some(a) => match first_from(a, is_char(','), 0) {
                            None => Err(ParseErrorV::MissingArgument { class: ns, macro_name: m.kind }),
                            Some(k) => Ok(trimmed(a.subrange(0, k))),
                        },
                    }
                } else {
                    Ok(n)
                },
                None => Ok(n),
            },
        }
    }
}

pub open spec fn ns_enum_groups() -> Seq<Seq<char>> {
    seq!["comment"@, "namespace"@, "enum_name"@, "qml_name"@, "nsbody"@, "body"@]
}

/// The enum that a namespace match `c` declares.
pub open spec fn ns_enum_of(c: Seq<Option<Seq<char>>>, module: Seq<char>) -> Result<EnumInfoV, ParseErrorV> {
    let ns = or_empty(group(c, 1));
    match variants_in(or_empty(group(c, 5)), module) {
        None => Err(ParseErrorV::Pattern),
        Some(vs) => match regex_captures(MACRO_PATTERN@, macro_groups(), or_empty(group(c, 4))) {
            None => Err(ParseErrorV::Pattern),
            Some(ms) => match flags_name(ms, or_empty(group(c, 2)), ns) {
                Err(e) => Err(e),
                Ok(n) => Ok(EnumInfoV {
                    namespace: ns,
                    enum_name: n,
                    qml_name: match group(c, 3) {
                        Some(q) => q,
                        None => ns,
                    },
                    comment: comment_of(group(c, 0), module),
                    variants: vs,
                }),
            },
        },
    }
}

pub open spec fn ns_enums_of(ms: Seq<Seq<Option<Seq<char>>>>, module: Seq<char>) -> Result<Seq<EnumInfoV>, ParseErrorV>
    decreases ms.len(),
{
    if ms.len() == 0 {
        Ok(Seq::empty())
    } else {
        match ns_enums_of(ms.drop_last(), module) {
            Err(e) => Err(e),
            Ok(r) => match ns_enum_of(ms.last(), module) {
                Err(e) => Err(e),
                Ok(x) => Ok(r.push(x)),
            },
        }
    }
}

/// The namespace-scoped enums that `text` declares.
pub open spec fn ns_enums_in(text: Seq<char>, module: Seq<char>) -> Result<Seq<EnumInfoV>, ParseErrorV> {
    match regex_captures(ENUM_NS_PATTERN@, ns_enum_groups(), text) {
        None => Err(ParseErrorV::Pattern),
        Some(ms) => ns_enums_of(ms, module),
    }
}

proof fn lemma_ns_enums_err(ms: Seq<Seq<Option<Seq<char>>>>, module: Seq<char>, k: int, e: ParseErrorV)
    requires
        0 <= k <= ms.len(),
        ns_enums_of(ms.take(k), module) == Err::<Seq<EnumInfoV>, ParseErrorV>(e),
    ensures
        ns_enums_of(ms, module) == Err::<Seq<EnumInfoV>, ParseErrorV>(e),
    decreases ms.len() - k,
{
    if k < ms.len() {
        assert(ms.take(k + 1).drop_last() == ms.take(k));
        lemma_ns_enums_err(ms, module, k + 1, e);
    } else {
        assert(ms.take(k) == ms);
    }
}

proof fn lemma_flags_err(ms: Seq<Seq<Option<Seq<char>>>>, name: Seq<char>, ns: Seq<char>, k: int, e: ParseErrorV)
    requires
        0 <= k <= ms.len(),
        flags_name(ms.take(k), name, ns) == Err::<Seq<char>, ParseErrorV>(e),
    ensures
        flags_name(ms, name, ns) == Err::<Seq<char>, ParseErrorV>(e),
    decreases ms.len() - k,
{
    if k < ms.len() {
        assert(ms.take(k + 1).drop_last() == ms.take(k));
        lemma_flags_err(ms, name, ns, k + 1, e);
    } else {
        assert(ms.take(k) == ms);
    }
}

fn ns_group_list() -> (r: Vec<&'static str>)
    ensures
        names_view(r@) == ns_enum_groups(),
{
    let r = vec!["comment", "namespace", "enum_name", "qml_name", "nsbody", "body"];
    assert(names_view(r@) =~= ns_enum_groups());
    r
}

fn find_comma(v: &Vec<char>) -> (r: Option<usize>)
    ensures
        match r {
            Some(k) => first_from(v@, is_char(','), 0) == Some(k as int) && k < v.len(),
            None => first_from(v@, is_char(','), 0) is None,
        },
{
    let mut i: usize = 0;
    while i < v.len()
        invariant
            i <= v.len(),
            first_from(v@, is_char(','), 0) == first_from(v@, is_char(','), i as int),
        decreases v.len() - i,
    {
        if v[i] == ',' {
            return Some(i);
        }
        i = i + 1;
    }
    None
}

impl CppParser {
    /// What the class match `c` declares.
    pub fn parse_class(&self, c: &Vec<Option<String>>, module: &str) -> (r: Result<Option<ClassInfo>, ParseError>)
        requires
            self.wf(),
        ensures
            match class_of(
                or_empty(group(match_view(*c), 1)),
                group(match_view(*c), 2),
                group(match_view(*c), 0),
                or_empty(group(match_view(*c), 3)),
                module@,
            ) {
                Ok(Some(ci)) => r matches Ok(Some(x)) && x@ == ci,
                Ok(None) => r matches Ok(None),
                Err(e) => r matches Err(e2) && e2@ == e,
            },
    {
        let comment = group_at(c, 0);
        let name = or_empty_exec(group_at(c, 1));
        let superclass = group_at(c, 2);
        let body = or_empty_exec(group_at(c, 3));
        let mut state = ClassScan::start(name, superclass);
        self.scan_macros(&mut state, body.as_str(), module)?;
        mark_default(&mut state.properties, &state.default_property, &state.name)?;
        let invokables = self.invokables(body.as_str(), module)?;
        let signals = self.signals(body.as_str(), &state.notify_signals, module)?;
        let enums = self.class_enums(body.as_str(), &state.name, module)?;
        match state.classtype {
            None => Ok(None),
            Some(t) => Ok(Some(ClassInfo {
                type_: t,
                name: state.name,
                qml_name: state.qml_name,
                superclass: state.superclass,
                singleton: state.singleton,
                uncreatable: state.uncreatable && !state.force_creatable,
                comment: make_comment(&comment, module),
                properties: state.properties,
                invokables,
                signals,
                enums,
            })),
        }
    }

    /// Appends every reflectable class that `text` declares to `ctx`; on an
    /// error `ctx` is left as it was.
    pub fn parse_classes(&self, text: &str, ctx: &mut ParseContext) -> (r: Result<(), ParseError>)
        requires
            self.wf(),
        ensures
            final(ctx).module == old(ctx).module,
            final(ctx).enums == old(ctx).enums,
            match classes_in(text@, old(ctx).module@) {
                Ok(cs) => r is Ok && final(ctx).classes@.map_values(|c: ClassInfo| c@) == old(ctx).classes@.map_values(|c: ClassInfo| c@) + cs,
                Err(e) => r matches Err(e2) && e2@ == e && final(ctx).classes == old(ctx).classes,
            },
    {
        let ms = match scan(&self.class_regex, &group_list(6), text) {
            Ok(ms) => ms,
            Err(_) => return Err(ParseError::Pattern),
        };
        let ghost cv = crate::pattern::captures_view(ms@);
        let ghost module = ctx.module@;
        let mut found: Vec<ClassInfo> = Vec::new();
        assert(cv.take(0) =~= Seq::<Seq<Option<Seq<char>>>>::empty());
        assert(found@.map_values(|c: ClassInfo| c@) =~= Seq::<ClassInfoV>::empty());
        let mut i: usize = 0;
        while i < ms.len()
            invariant
                self.wf(),
                i <= ms.len(),
                module == ctx.module@,
                cv == crate::pattern::captures_view(ms@),
                regex_captures(CLASS_PATTERN@, class_groups(), text@) == Some(cv),
                classes_of(cv.take(i as int), module) == Ok::<Seq<ClassInfoV>, ParseErrorV>(found@.map_values(|c: ClassInfo| c@)),
            decreases ms.len() - i,
        {
            let c = &ms[i];
            assert(cv.take(i + 1).drop_last() == cv.take(i as int));
            assert(cv.take(i + 1).last() == match_view(*c));
            match self.parse_class(c, ctx.module.as_str()) {
                Ok(Some(ci)) => {
                    let ghost before = found@;
                    found.push(ci);
                    assert(found@.map_values(|c: ClassInfo| c@) =~= before.map_values(|c: ClassInfo| c@).push(ci@));
                },
                Ok(None) => {},
                Err(e) => {
                    proof {
                        lemma_classes_err(cv, module, i + 1, e@);
                    }
                    return Err(e);
                },
            }
            i = i + 1;
        }
        assert(cv.take(i as int) == cv);
        let ghost before = ctx.classes@;
        let ghost fv = found@;
        ctx.classes.append(&mut found);
        assert(ctx.classes@.map_values(|c: ClassInfo| c@) =~= before.map_values(|c: ClassInfo| c@) + fv.map_values(|c: ClassInfo| c@));
        Ok(())
    }

    fn flags_rename(&self, nsbody: &str, start: &String, ns: &String) -> (r: Result<String, ParseError>)
        requires
            self.wf(),
        ensures
            match regex_captures(MACRO_PATTERN@, macro_groups(), nsbody@) {
                None => r matches Err(e) && e@ == ParseErrorV::Pattern,
                Some(ms) => match flags_name(ms, start@, ns@) {
                    Ok(n) => r matches Ok(x) && x@ == n,
                    Err(e) => r matches Err(e2) && e2@ == e,
                },
            },
    {
        let ms = match scan(&self.macro_regex, &macro_group_list(), nsbody) {
            Ok(ms) => ms,
            Err(_) => return Err(ParseError::Pattern),
        };
        let ghost cv = crate::pattern::captures_view(ms@);
        let ghost name0 = start@;
        let mut name = start.clone();
        let mut i: usize = 0;
        while i < ms.len()
            invariant
                i <= ms.len(),
                cv == crate::pattern::captures_view(ms@),
                regex_captures(MACRO_PATTERN@, macro_groups(), nsbody@) == Some(cv),
                name0 == start@,
                flags_name(cv.take(i as int), name0, ns@) == Ok::<Seq<char>, ParseErrorV>(name@),
            decreases ms.len() - i,
        {
            let c = &ms[i];
            assert(cv.take(i + 1).drop_last() == cv.take(i as int));
            assert(cv.take(i + 1).last() == match_view(*c));
            match macro_call_of(c) {
                Some(m) => {
                    if same_text(m.kind.as_str(), "Q_DECLARE_FLAGS") {
                        let err = ParseError::MissingArgument { class: ns.clone(), macro_name: m.kind.clone() };
                        match &m.args {
                            None => {
                                proof {
                                    lemma_flags_err(cv, name0, ns@, i + 1, err@);
                                }
                                return Err(err);
                            },
                            Some(a) => {
                                let v = chars_of(a.as_str());
                                match find_comma(&v) {
                                    None => {
                                        proof {
                                            lemma_flags_err(cv, name0, ns@, i + 1, err@);
                                        }
                                        return Err(err);
                                    },
                                    Some(k) => {
                                        let (x, y) = trim_bounds(&v, 0, k);
                                        name = string_of(&v, x, y);
                                    },
                                }
                            },
                        }
                    }
                },
                None => {},
            }
            i = i + 1;
        }
        assert(cv.take(i as int) == cv);
        Ok(name)
    }

    /// The enum that the namespace match `c` declares.
    pub fn parse_ns_enum(&self, c: &Vec<Option<String>>, module: &str) -> (r: Result<EnumInfo, ParseError>)
        requires
            self.wf(),
        ensures
            match ns_enum_of(match_view(*c), module@) {
                Ok(e) => r matches Ok(x) && x@ == e,
                Err(e) => r matches Err(e2) && e2@ == e,
            },
    {
        let ns = or_empty_exec(group_at(c, 1));
        let variants = self.parse_enum_variants(or_empty_exec(group_at(c, 5)).as_str(), module)?;
        let enum_name = self.flags_rename(or_empty_exec(group_at(c, 4)).as_str(), &or_empty_exec(group_at(c, 2)), &ns)?;
        let qml_name = match group_at(c, 3) {
            Some(q) => q,
            None => ns.clone(),
        };
        Ok(EnumInfo { namespace: ns, enum_name, qml_name, comment: make_comment(&group_at(c, 0), module), variants })
    }

    /// Appends every namespace-scoped enum that `text` declares to `ctx`; on an
    /// error `ctx` is left as it was.
    pub fn parse_enums(&self, text: &str, ctx: &mut ParseContext) -> (r: Result<(), ParseError>)
        requires
            self.wf(),
        ensures
            final(ctx).module == old(ctx).module,
            final(ctx).classes == old(ctx).classes,
            match ns_enums_in(text@, old(ctx).module@) {
                Ok(es) => r is Ok && final(ctx).enums@.map_values(|e: EnumInfo| e@) == old(ctx).enums@.map_values(|e: EnumInfo| e@) + es,
                Err(e) => r matches Err(e2) && e2@ == e && final(ctx).enums == old(ctx).enums,
            },
    {
        let ms = match scan(&self.enum_ns_regex, &ns_group_list(), text) {
            Ok(ms) => ms,
            Err(_) => return Err(ParseError::Pattern),
        };
        let ghost cv = crate::pattern::captures_view(ms@);
        let ghost module = ctx.module@;
        let mut found: Vec<EnumInfo> = Vec::new();
        assert(cv.take(0) =~= Seq::<Seq<Option<Seq<char>>>>::empty());
        assert(found@.map_values(|e: EnumInfo| e@) =~= Seq::<EnumInfoV>::empty());
        let mut i: usize = 0;
        while i < ms.len()
            invariant
                self.wf(),
                i <= ms.len(),
                module == ctx.module@,
                cv == crate::pattern::captures_view(ms@),
                regex_captures(ENUM_NS_PATTERN@, ns_enum_groups(), text@) == Some(cv),
                ns_enums_of(cv.take(i as int), module) == Ok::<Seq<EnumInfoV>, ParseErrorV>(found@.map_values(|e: EnumInfo| e@)),
            decreases ms.len() - i,
        {
            let c = &ms[i];
            assert(cv.take(i + 1).drop_last() == cv.take(i as int));
            assert(cv.take(i + 1).last() == match_view(*c));
            match self.parse_ns_enum(c, ctx.module.as_str()) {
                Ok(e) => {
                    let ghost before = found@;
                    found.push(e);
                    assert(found@.map_values(|e: EnumInfo| e@) =~= before.map_values(|e: EnumInfo| e@).push(e@));
                },
                Err(e) => {
                    proof {
                        lemma_ns_enums_err(cv, module, i + 1, e@);
                    }
                    return Err(e);
                },
            }
            i = i + 1;
        }
        assert(cv.take(i as int) == cv);
        let ghost before = ctx.enums@;
        let ghost fv = found@;
        ctx.enums.append(&mut found);
        assert(ctx.enums@.map_values(|e: EnumInfo| e@) =~= before.map_values(|e: EnumInfo| e@) + fv.map_values(|e: EnumInfo| e@));
        Ok(())
    }

    /// Appends the classes, then the namespace-scoped enums, that `text` declares.
    pub fn parse(&self, text: &str, ctx: &mut ParseContext) -> (r: Result<(), ParseError>)
        requires
            self.wf(),
        ensures
            final(ctx).module == old(ctx).module,
            match classes_in(text@, old(ctx).module@) {
                Err(e) => r matches Err(e2) && e2@ == e && *final(ctx) == *old(ctx),
                Ok(cs) => {
                    &&& final(ctx).classes@.map_values(|c: ClassInfo| c@) == old(ctx).classes@.map_values(|c: ClassInfo| c@) + cs
                    &&& match ns_enums_in(text@, old(ctx).module@) {
                        Ok(es) => r is Ok && final(ctx).enums@.map_values(|e: EnumInfo| e@) == old(ctx).enums@.map_values(|e: EnumInfo| e@) + es,
                        Err(e) => r matches Err(e2) && e2@ == e && final(ctx).enums == old(ctx).enums,
                    }
                },
            },
    {
        self.parse_classes(text, ctx)?;
        self.parse_enums(text, ctx)
    }
}

} // verus!
