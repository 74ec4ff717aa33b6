use typegen::comment::GfmQuoteBlocks;
use typegen::module::split_module;
use typegen::outform::{Flag, PropertyType, TypeDetails, TypeInfo, TypeSource};
use typegen::parse::{CppParser, ParseContext, ParseError};
use typegen::qml::QmlParser;
use typegen::resolver::resolve_types;
use typegen::typespec::{QmlTypeMapping, TypeSpec};

fn spec_of(module: &str, header: &str) -> TypeSpec {
    let parser = CppParser::new().ok().expect("patterns compile");
    let quotes = GfmQuoteBlocks::new().expect("pattern compiles");
    let mut ctx = ParseContext::new(module);
    assert!(parser.parse(header, &mut ctx).is_ok());
    ctx.gen_typespec(module, &quotes)
}

fn builtin_types() -> TypeSpec {
    let mut ts = TypeSpec::new();
    for (name, cname) in [("int", "int"), ("string", "QString"), ("list", "QList"), ("QtObject", "QObject")] {
        ts.typemap.push(QmlTypeMapping {
            name: name.to_string(),
            cname: cname.to_string(),
            module: Some("qml.QtQml".to_string()),
        });
    }
    ts
}

fn find<'a>(types: &'a [TypeInfo], name: &str) -> &'a TypeInfo {
    types.iter().find(|t| t.name == name).expect("type present")
}

const HEADER: &str = "/// A thing.
class Foo : public QObject {
	Q_OBJECT;
	QML_ELEMENT;
	/// The value.
	Q_PROPERTY(int value READ value WRITE setValue NOTIFY valueChanged);

public:
	/// Does a thing.
	Q_INVOKABLE void doThing(int count, const QString& label);

signals:
	void valueChanged();
	/// Emitted when done.
	void finished(int code);
};
";

#[test]
fn element_class_end_to_end() {
    let descriptor = "name = \"Demo\"\ndescription = \"Demo module\"\nheaders = [\"foo.hpp\"]\n-----\nSome details.\n";
    let (header, details) = split_module(descriptor).ok().expect("delimiter present");
    assert_eq!(header, "name = \"Demo\"\ndescription = \"Demo module\"\nheaders = [\"foo.hpp\"]");
    assert_eq!(details, "Some details.");

    let ts = spec_of("Demo", HEADER);
    assert_eq!(ts.typemap.len(), 1);
    assert_eq!(ts.typemap[0].name, "Foo");
    assert_eq!(ts.typemap[0].cname, "Foo");
    assert_eq!(ts.typemap[0].module.as_deref(), Some("Demo"));

    let mut all = builtin_types();
    all.merge(ts);
    let types = resolve_types("Demo", all);
    assert_eq!(types.len(), 1);
    let foo = find(&types, "Foo");
    let TypeDetails::Class(c) = &foo.details else { panic!("class record") };
    assert_eq!(c.properties.len(), 1);
    assert_eq!(c.properties[0].0, "value");
    assert!(c.properties[0].1.flags.is_empty());
    assert_eq!(c.functions.len(), 1);
    assert_eq!(c.functions[0].name, "doThing");
    assert_eq!(c.functions[0].id, "doThingintstring");
    assert_eq!(c.functions[0].params.len(), 2);
    assert_eq!(c.functions[0].params[1].name, "label");
    assert_eq!(c.functions[0].params[1].type_.name, "string");
    // the notify signal is documented with its property, not as a signal
    assert_eq!(c.signals.len(), 1);
    assert_eq!(c.signals[0].0, "finished");
    assert!(c.signals.iter().all(|s| s.0 != "valueChanged"));
    assert_eq!(c.description.as_deref(), None);
    assert_eq!(c.details.as_deref(), Some("A thing.\n"));
    assert_eq!(c.superclass.type_, TypeSource::Qt);
    assert_eq!(c.superclass.name, "QtObject");
}

#[test]
fn creatable_override_clears_uncreatable() {
    let header = "class Bar : public QObject {
	Q_OBJECT;
	QML_ELEMENT;
	QML_UNCREATABLE(\"\");
	QSDOC_CREATABLE;
};
";
    let ts = spec_of("Demo", header);
    assert_eq!(ts.classes.len(), 1);
    assert!(!ts.classes[0].uncreatable);
    let types = resolve_types("Demo", ts);
    let TypeDetails::Class(c) = &find(&types, "Bar").details else { panic!("class record") };
    assert!(c.flags.is_empty());
}

#[test]
fn uncreatable_without_override_is_flagged() {
    let header = "class Bar : public QObject {
	Q_OBJECT;
	QML_ELEMENT;
	QML_UNCREATABLE(\"\");
};
";
    let types = resolve_types("Demo", spec_of("Demo", header));
    let TypeDetails::Class(c) = &find(&types, "Bar").details else { panic!("class record") };
    assert_eq!(c.flags, vec![Flag::Uncreatable]);
}

#[test]
fn container_of_local_type_keeps_element() {
    let header = "class Inner : public QObject {
	Q_OBJECT;
	QML_ELEMENT;
};

class Outer : public QObject {
	Q_OBJECT;
	QML_ELEMENT;
	Q_PROPERTY(QList<Inner*> items READ items CONSTANT);
};
";
    let mut all = builtin_types();
    all.merge(spec_of("Demo", header));
    let types = resolve_types("Demo", all);
    let TypeDetails::Class(c) = &find(&types, "Outer").details else { panic!("class record") };
    assert_eq!(c.properties.len(), 1);
    assert_eq!(c.properties[0].1.flags, vec![Flag::Readonly]);
    let PropertyType::Type(t) = &c.properties[0].1.type_ else { panic!("plain type") };
    assert_eq!(t.type_, TypeSource::Qt);
    assert_eq!(t.name, "list");
    let of = t.of.as_ref().expect("element type");
    assert_eq!(of.type_, TypeSource::Local);
    assert_eq!(of.module, "Demo");
    assert_eq!(of.name, "Inner");
}

#[test]
fn unregistered_property_type_is_unknown() {
    let header = "class Baz : public QObject {
	Q_OBJECT;
	QML_ELEMENT;
	Q_PROPERTY(Mystery thing READ thing);
};
";
    let types = resolve_types("Demo", spec_of("Demo", header));
    let TypeDetails::Class(c) = &find(&types, "Baz").details else { panic!("class record") };
    let PropertyType::Type(t) = &c.properties[0].1.type_ else { panic!("plain type") };
    assert_eq!(t.type_, TypeSource::Unknown);
    assert_eq!(t.name, "");
    assert_eq!(t.module, "");
    assert!(t.of.is_none());
    assert_eq!(c.superclass.type_, TypeSource::Unknown);
}

#[test]
fn reserved_enum_marks_class() {
    let header = "class Mode : public QObject {
	Q_OBJECT;
	QML_ELEMENT;
public:
	enum Enum : quint8 {
		/// First.
		First = 0,
		Second = 1,
	}; Q_ENUM(Enum);
};

class Plain : public QObject {
	Q_OBJECT;
	QML_ELEMENT;
	QML_SINGLETON;
public:
	enum Kind : quint8 {
		A = 0,
	}; Q_ENUM(Kind);
};
";
    let ts = spec_of("Demo", header);
    assert_eq!(ts.typemap.len(), 3);
    assert_eq!(ts.typemap[1].cname, "Mode::Enum");
    let types = resolve_types("Demo", ts);
    let TypeDetails::Class(m) = &find(&types, "Mode").details else { panic!("class record") };
    assert_eq!(m.flags, vec![Flag::Enum]);
    assert_eq!(m.variants.len(), 2);
    assert_eq!(m.variants[0].0, "First");
    assert_eq!(m.variants[0].1.details.as_deref(), Some("First.\n"));
    let TypeDetails::Class(p) = &find(&types, "Plain").details else { panic!("class record") };
    assert_eq!(p.flags, vec![Flag::Singleton]);
    assert!(p.variants.is_empty());
}

#[test]
fn inherited_members_once_closest_wins() {
    let header = "class Base : public QObject {
	Q_OBJECT;
	/// From base.
	Q_PROPERTY(int shared READ shared);
	Q_PROPERTY(int zeta READ zeta);
};

class Middle : public Base {
	Q_OBJECT;
	/// From middle.
	Q_PROPERTY(int shared READ shared WRITE setShared);
	Q_PROPERTY(int alpha READ alpha);
};

class Top : public Middle {
	Q_OBJECT;
	QML_ELEMENT;
	Q_PROPERTY(int mid READ mid);
};
";
    let types = resolve_types("Demo", spec_of("Demo", header));
    assert_eq!(types.len(), 1);
    let TypeDetails::Class(c) = &find(&types, "Top").details else { panic!("class record") };
    let names: Vec<&str> = c.properties.iter().map(|p| p.0.as_str()).collect();
    assert_eq!(names, vec!["alpha", "mid", "shared", "zeta"]);
    let shared = &c.properties[2].1;
    assert_eq!(shared.details.as_deref(), Some("From middle.\n"));
    assert!(shared.flags.is_empty());
    assert_eq!(c.superclass.type_, TypeSource::Unknown);
}

const ALPHA: &str = "class Alpha : public QObject {
	Q_OBJECT;
	QML_ELEMENT;
	Q_PROPERTY(Beta* other READ other);
};
";

const BETA: &str = "class Beta : public QObject {
	Q_OBJECT;
	QML_ELEMENT;
	Q_PROPERTY(Alpha* other READ other);
};
";

fn merged_specs(alpha_first: bool) -> TypeSpec {
    let mut ts = TypeSpec::new();
    if alpha_first {
        ts.merge(spec_of("A", ALPHA));
        ts.merge(spec_of("B", BETA));
    } else {
        ts.merge(spec_of("B", BETA));
        ts.merge(spec_of("A", ALPHA));
    }
    ts
}

#[test]
fn merge_order_does_not_change_records() {
    for (module, own, other) in [("A", "Alpha", "Beta"), ("B", "Beta", "Alpha")] {
        let x = resolve_types(module, merged_specs(true));
        let y = resolve_types(module, merged_specs(false));
        assert_eq!(x.len(), 1);
        assert_eq!(y.len(), 1);
        assert_eq!(x[0].name, own);
        assert_eq!(y[0].name, own);
        let (TypeDetails::Class(cx), TypeDetails::Class(cy)) = (&x[0].details, &y[0].details) else { panic!("class records") };
        let PropertyType::Type(tx) = &cx.properties[0].1.type_ else { panic!("plain type") };
        let PropertyType::Type(ty) = &cy.properties[0].1.type_ else { panic!("plain type") };
        assert_eq!(tx.type_, TypeSource::Local);
        assert_eq!(ty.type_, TypeSource::Local);
        assert_eq!(tx.name, other);
        assert_eq!(ty.name, other);
        assert_eq!(tx.module, ty.module);
    }
}

#[test]
fn cyclic_inheritance_ends_unknown() {
    let header = "class Loop : public Knot {
	Q_OBJECT;
	QML_ELEMENT;
	Q_PROPERTY(int a READ a);
};

class Knot : public Tangle {
	Q_OBJECT;
	Q_PROPERTY(int b READ b);
};

class Tangle : public Knot {
	Q_OBJECT;
	Q_PROPERTY(int c READ c);
};
";
    let types = resolve_types("Demo", spec_of("Demo", header));
    let TypeDetails::Class(c) = &find(&types, "Loop").details else { panic!("class record") };
    assert_eq!(c.superclass.type_, TypeSource::Unknown);
    let names: Vec<&str> = c.properties.iter().map(|p| p.0.as_str()).collect();
    assert_eq!(names, vec!["a", "b", "c"]);
}

#[test]
fn descriptor_without_delimiter_fails() {
    assert!(matches!(split_module("name = \"x\"\n"), Err(ParseError::MissingDelimiter)));
}

#[test]
fn flags_without_second_argument_fails() {
    let header = "namespace Odd {
QML_ELEMENT;
enum Enum : quint8 {
	A = 0,
};
Q_DECLARE_FLAGS(Flags);
}
";
    let parser = CppParser::new().ok().expect("patterns compile");
    let mut ctx = ParseContext::new("Demo");
    match parser.parse(header, &mut ctx) {
        Err(ParseError::MissingArgument { class, macro_name }) => {
            assert_eq!(class, "Odd");
            assert_eq!(macro_name, "Q_DECLARE_FLAGS");
        },
        _ => panic!("expected a missing argument"),
    }
    assert!(ctx.enums.is_empty());
}

#[test]
fn overloads_are_kept_apart() {
    let header = "class Over : public QObject {
	Q_OBJECT;
	QML_ELEMENT;
public:
	Q_INVOKABLE void set(int value);
	Q_INVOKABLE void set(QString value);
	Q_INVOKABLE void apply();
};
";
    let mut all = builtin_types();
    all.merge(spec_of("Demo", header));
    let types = resolve_types("Demo", all);
    let TypeDetails::Class(c) = &find(&types, "Over").details else { panic!("class record") };
    let ids: Vec<&str> = c.functions.iter().map(|f| f.id.as_str()).collect();
    assert_eq!(ids, vec!["apply", "setint", "setstring"]);
}

#[test]
fn default_property_is_flagged() {
    let header = "class Holder : public QObject {
	Q_OBJECT;
	QML_ELEMENT;
	Q_CLASSINFO(\"DefaultProperty\", \"children\");
	Q_PROPERTY(QList<QObject*> children READ children);
};
";
    let ts = spec_of("Demo", header);
    assert!(ts.classes[0].properties[0].default);
    let types = resolve_types("Demo", ts);
    let TypeDetails::Class(c) = &find(&types, "Holder").details else { panic!("class record") };
    assert_eq!(c.properties[0].1.flags, vec![Flag::Default, Flag::Readonly]);
}

#[test]
fn missing_default_property_fails() {
    let header = "class Holder : public QObject {
	Q_OBJECT;
	Q_CLASSINFO(\"DefaultProperty\", \"nothing\");
};
";
    let parser = CppParser::new().ok().expect("patterns compile");
    let mut ctx = ParseContext::new("Demo");
    match parser.parse(header, &mut ctx) {
        Err(ParseError::UnknownDefaultProperty { class, property }) => {
            assert_eq!(class, "Holder");
            assert_eq!(property, "nothing");
        },
        _ => panic!("expected an unknown default property"),
    }
    assert!(ctx.classes.is_empty());
}

#[test]
fn malformed_property_fails() {
    let header = "class Broken : public QObject {
	Q_OBJECT;
	Q_PROPERTY(nonsense);
};
";
    let parser = CppParser::new().ok().expect("patterns compile");
    let mut ctx = ParseContext::new("Demo");
    match parser.parse(header, &mut ctx) {
        Err(ParseError::MalformedProperty { class, args }) => {
            assert_eq!(class, "Broken");
            assert_eq!(args, "nonsense");
        },
        _ => panic!("expected a malformed property"),
    }
}

#[test]
fn named_element_without_name_fails() {
    let header = "class Nameless : public QObject {
	Q_OBJECT;
	QML_NAMED_ELEMENT;
};
";
    let parser = CppParser::new().ok().expect("patterns compile");
    let mut ctx = ParseContext::new("Demo");
    match parser.parse(header, &mut ctx) {
        Err(ParseError::MissingArgument { class, macro_name }) => {
            assert_eq!(class, "Nameless");
            assert_eq!(macro_name, "QML_NAMED_ELEMENT");
        },
        _ => panic!("expected a missing argument"),
    }
}

#[test]
fn type_override_applies_to_next_property() {
    let header = "class Over : public QObject {
	Q_OBJECT;
	QML_ELEMENT;
	/// Overridden.
	QSDOC_TYPE_OVERRIDE(QString);
	Q_PROPERTY(QVariant value READ value);
	Q_PROPERTY(QVariant other MEMBER mOther);
};
";
    let ts = spec_of("Demo", header);
    let props = &ts.classes[0].properties;
    assert_eq!(props[0].type_, "QString");
    assert_eq!(props[0].details.as_deref(), Some("Overridden.\n"));
    assert_eq!(props[1].type_, "QVariant");
    assert!(props[1].readable && props[1].writable);
}

#[test]
fn plain_class_is_dropped_and_gadget_kept() {
    let header = "class Helper {
	int x;
};

class Point {
	Q_GADGET;
	Q_PROPERTY(int x MEMBER x);
	Q_PROPERTY(int y MEMBER y);
};

class Shape : public QObject {
	Q_OBJECT;
	QML_ELEMENT;
	Q_PROPERTY(Point origin READ origin);
};
";
    let ts = spec_of("Demo", header);
    assert_eq!(ts.gadgets.len(), 1);
    assert_eq!(ts.gadgets[0].cname, "Point");
    let mut all = builtin_types();
    all.merge(ts);
    let types = resolve_types("Demo", all);
    let TypeDetails::Class(c) = &find(&types, "Shape").details else { panic!("class record") };
    let PropertyType::Gadget(members) = &c.properties[0].1.type_ else { panic!("inlined value type") };
    assert_eq!(members.len(), 2);
    assert_eq!(members[0].0, "x");
    let PropertyType::Type(x) = &members[0].1 else { panic!("plain member type") };
    assert_eq!(x.name, "int");
    assert_eq!(members[1].0, "y");
}

#[test]
fn nested_value_types_are_inlined() {
    let header = "class Point {
	Q_GADGET;
	Q_PROPERTY(int x MEMBER x);
};

class Segment {
	Q_GADGET;
	Q_PROPERTY(Point start MEMBER start);
	Q_PROPERTY(Point end MEMBER end);
};

class Path : public QObject {
	Q_OBJECT;
	QML_ELEMENT;
	Q_PROPERTY(Segment first READ first);
};
";
    let mut all = builtin_types();
    all.merge(spec_of("Demo", header));
    let types = resolve_types("Demo", all);
    let TypeDetails::Class(c) = &find(&types, "Path").details else { panic!("class record") };
    let PropertyType::Gadget(segment) = &c.properties[0].1.type_ else { panic!("inlined value type") };
    assert_eq!(segment.len(), 2);
    assert_eq!(segment[1].0, "end");
    let PropertyType::Gadget(point) = &segment[1].1 else { panic!("nested value type inlined") };
    assert_eq!(point.len(), 1);
    assert_eq!(point[0].0, "x");
    let PropertyType::Type(x) = &point[0].1 else { panic!("plain member type") };
    assert_eq!(x.name, "int");
}

#[test]
fn self_nested_value_type_stops() {
    let header = "class Node {
	Q_GADGET;
	Q_PROPERTY(Node next MEMBER next);
};

class Holder : public QObject {
	Q_OBJECT;
	QML_ELEMENT;
	Q_PROPERTY(Node head READ head);
};
";
    let types = resolve_types("Demo", spec_of("Demo", header));
    let TypeDetails::Class(c) = &find(&types, "Holder").details else { panic!("class record") };
    let PropertyType::Gadget(node) = &c.properties[0].1.type_ else { panic!("inlined value type") };
    let PropertyType::Type(next) = &node[0].1 else { panic!("depth bound reached") };
    assert_eq!(next.type_, TypeSource::Unknown);
}

#[test]
fn unregistered_container_keeps_element() {
    let header = "class Inner : public QObject {
	Q_OBJECT;
	QML_ELEMENT;
};

class Outer : public QObject {
	Q_OBJECT;
	QML_ELEMENT;
	Q_PROPERTY(Mystery<Inner> items READ items);
};
";
    let types = resolve_types("Demo", spec_of("Demo", header));
    let TypeDetails::Class(c) = &find(&types, "Outer").details else { panic!("class record") };
    let PropertyType::Type(t) = &c.properties[0].1.type_ else { panic!("plain type") };
    assert_eq!(t.type_, TypeSource::Unknown);
    let of = t.of.as_ref().expect("element type kept");
    assert_eq!(of.type_, TypeSource::Local);
    assert_eq!(of.module, "Demo");
    assert_eq!(of.name, "Inner");
}

#[test]
fn namespace_enum_with_flags() {
    let header = "/// Some flags.
namespace Edges { // NOLINT
Q_NAMESPACE;
QML_ELEMENT;

enum Enum : quint8 {
	None = 0,
	Top = 1,
};
Q_ENUM_NS(Enum);
Q_DECLARE_FLAGS(Flags, Enum);
}
";
    let ts = spec_of("Demo", header);
    assert_eq!(ts.enums.len(), 1);
    assert_eq!(ts.enums[0].name, "Edges");
    assert_eq!(ts.enums[0].cname.as_deref(), Some("Edges::Flags"));
    assert_eq!(ts.enums[0].variants.len(), 2);
    assert_eq!(ts.enums[0].variants[1].name, "Top");
    assert_eq!(ts.enums[0].details.as_deref(), Some("Some flags.\n"));
    let types = resolve_types("Demo", ts);
    let TypeDetails::Enum(e) = &find(&types, "Edges").details else { panic!("enum record") };
    assert_eq!(e.variants.len(), 2);
}

#[test]
fn component_file_properties() {
    let text = "/// alias Thing Some.Module.Thing
import QtQuick

/// A component.
Item {
	/// The thing.
	required property Thing thing
	readonly property int count: 3
	default property /*Item*/var content

	Rectangle {
		property int hidden: 1
	}
}
";
    let parser = QmlParser::new().ok().expect("patterns compile");
    let mut ctx = ParseContext::new("Demo");
    assert!(parser.parse("Widget.qml", text, &mut ctx).is_ok());
    assert_eq!(ctx.classes.len(), 1);
    let c = &ctx.classes[0];
    assert_eq!(c.name, "Widget");
    assert_eq!(c.superclass.as_deref(), Some("QML:Item"));
    assert_eq!(c.properties.len(), 3);
    assert_eq!(c.properties[0].type_, "QML:Some.Module.Thing");
    assert!(c.properties[0].writable);
    assert_eq!(c.properties[1].type_, "QML:int");
    assert!(!c.properties[1].writable);
    assert_eq!(c.properties[2].type_, "QML:Item");
    assert!(c.properties[2].default);
}
