use typegen::comment::{normalize, Context, ReformatPass, TypeLinks, parse_details, parse_details_desc, replace_links, replace_text, summary_and_details, GfmQuoteBlocks};
use typegen::outform::{Type, TypeSource};
use typegen::parse::Comment;
use typegen::typespec::TypeSpec;

#[test]
fn normalize_strips_leaders_and_leading_blanks() {
    let text = "\t///\n\t/// First line.\n\t///  Indented.\n\t///\n\t/// Last.\n";
    assert_eq!(normalize(text), "First line.\n Indented.\n\nLast.\n");
}

#[test]
fn normalize_keeps_lines_without_leader() {
    assert_eq!(normalize("plain\r\n/// x"), "plain\nx\n");
    assert_eq!(normalize(""), "");
}

#[test]
fn summary_split_with_marker() {
    let (s, d) = summary_and_details("! Short.\nLonger text.\n");
    assert_eq!(s.as_deref(), Some("Short."));
    assert_eq!(d.as_deref(), Some("Longer text.\n"));
    let (s, d) = summary_and_details("!Only");
    assert_eq!(s.as_deref(), Some("Only"));
    assert_eq!(d, None);
}

#[test]
fn summary_split_without_marker() {
    let (s, d) = summary_and_details("Just details.\n");
    assert_eq!(s, None);
    assert_eq!(d.as_deref(), Some("Just details.\n"));
}

#[test]
fn comment_with_marker_end_to_end() {
    let quotes = GfmQuoteBlocks::new().expect("pattern compiles");
    let c = Comment::new("/// ! Summary here.\n/// Details here.\n", "Demo");
    let (s, d) = parse_details_desc(&c, &quotes);
    assert_eq!(s.as_deref(), Some("Summary here."));
    assert_eq!(d.as_deref(), Some("Details here.\n"));
}

#[test]
fn admonitions_rewritten() {
    let quotes = GfmQuoteBlocks::new().expect("pattern compiles");
    let c = Comment::new("/// > [!INFO] Be careful.\n", "Demo");
    assert_eq!(parse_details(&c, &quotes), "> [!NOTE]\n> Be careful.\n");
}

#[test]
fn literal_replacement() {
    assert_eq!(replace_text("a--b--c", "--", "+"), "a+b+c");
    assert_eq!(replace_text("aaa", "aa", "b"), "ba");
    assert_eq!(replace_text("abc", "", "x"), "abc");
}

#[test]
fn links_to_local_type_member() {
    assert_eq!(
        replace_links("See @@Foo.bar() now", "Quickshell.Io"),
        "See TYPE99MQS_Quickshell_Io99NFoo99Vbar99Tfunc99TYPE now\n"
    );
}

#[test]
fn links_to_foreign_type_and_signal() {
    assert_eq!(
        replace_links("@@QtQuick.Item.visibleChanged(s).", "Demo"),
        "TYPE99MQT_qml_QtQuick99NItem99VvisibleChanged99Tsignal99TYPE.\n"
    );
}

#[test]
fn links_to_member_of_current_type() {
    assert_eq!(replace_links("uses @@value, then", "Demo"), "uses TYPE99VvalueT99Tprop99TYPE, then\n".replace("valueT", "value"));
    assert_eq!(replace_links("@@Thing$s", "Demo"), "TYPE99MQT_qml_Demo99NThing99TYPEs\n");
}

#[test]
fn type_resolve_origins() {
    let t = Type::resolve(None, "int");
    assert_eq!(t.type_, TypeSource::Qt);
    assert_eq!(t.module, "qml");
    let t = Type::resolve(Some("qml.QtQuick"), "Item");
    assert_eq!(t.type_, TypeSource::Qt);
    assert_eq!(t.module, "qml.QtQuick");
    let t = Type::resolve(Some("Quickshell"), "Foo");
    assert_eq!(t.type_, TypeSource::Local);
    assert_eq!(t.name, "Foo");
    let u = Type::unknown();
    assert_eq!(u.type_, TypeSource::Unknown);
}

#[test]
fn empty_typespec() {
    let ts = TypeSpec::default();
    assert!(ts.typemap.is_empty() && ts.classes.is_empty() && ts.gadgets.is_empty() && ts.enums.is_empty());
}

#[test]
fn reformat_passes_through_trait() {
    let quotes = GfmQuoteBlocks::new().expect("pattern compiles");
    let ctx = Context { module: "Demo".to_string() };
    let mut text = "> [!INFO] Careful with @@Foo.\nplain".to_string();
    quotes.reformat(&ctx, &mut text);
    assert_eq!(text, "> [!NOTE]\n> Careful with @@Foo.\nplain");
    TypeLinks.reformat(&ctx, &mut text);
    assert_eq!(text, "> [!NOTE]\n> Careful with TYPE99MQT_qml_Demo99NFoo99TYPE.\nplain\n");
}
