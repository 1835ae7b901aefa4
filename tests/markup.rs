use umya_spreadsheet::defined_name::DefinedName;
use umya_spreadsheet::markup::{
    bind, write_end_tag, write_start_tag, write_text_node, AttrSpec, BindError, ElementSchema,
    XmlEvent,
};
use umya_spreadsheet::smooth::Smooth;
use umya_spreadsheet::value::{BooleanValue, ParseError, UInt32Value};

fn text(v: &[char]) -> String {
    v.iter().collect()
}

fn start(name: &str, attrs: &[(&str, &str)]) -> XmlEvent {
    XmlEvent::Start(
        name.to_string(),
        attrs.iter().map(|(k, v)| (k.to_string(), v.to_string())).collect(),
    )
}

fn end(name: &str) -> XmlEvent {
    XmlEvent::End(name.to_string())
}

fn schema(name: &str, attrs: &[(&str, bool)], text: bool, children: Vec<ElementSchema>) -> ElementSchema {
    ElementSchema {
        name: name.to_string(),
        attrs: attrs.iter().map(|(n, r)| AttrSpec { name: n.to_string(), required: *r }).collect(),
        text,
        children,
    }
}

#[test]
fn binder_skips_unknown_child() {
    let ev = vec![
        start("root", &[("x", "1"), ("extra", "2")]),
        start("known", &[("a", "v")]),
        XmlEvent::Text("hello".to_string()),
        end("known"),
        start("unknown", &[]),
        start("deep", &[]),
        XmlEvent::Text("t".to_string()),
        end("deep"),
        XmlEvent::Empty("leaf".to_string(), vec![]),
        end("unknown"),
        end("root"),
        start("after", &[]),
    ];
    let known = schema("known", &[("a", false)], true, vec![]);
    let root = schema("root", &[("x", true), ("y", false)], false, vec![known]);
    let (e, next) = bind(&root, &ev, 0).unwrap();
    assert_eq!(next, 11);
    assert_eq!(e.name, "root");
    assert_eq!(e.attrs, vec![Some("1".to_string()), None]);
    assert_eq!(e.children.len(), 1);
    assert_eq!(e.children[0].name, "known");
    assert_eq!(e.children[0].attrs, vec![Some("v".to_string())]);
    assert_eq!(e.children[0].text, "hello");
    assert_eq!(e.text, "");
}

#[test]
fn binder_fails_on_unclosed_tag() {
    let root = schema("root", &[], true, vec![]);
    let ev = vec![start("root", &[]), XmlEvent::Text("x".to_string()), XmlEvent::Eof];
    assert_eq!(bind(&root, &ev, 0).err(), Some(BindError::UnexpectedEndOfInput));
    let ev = vec![start("root", &[])];
    assert_eq!(bind(&root, &ev, 0).err(), Some(BindError::UnexpectedEndOfInput));
    let ev = vec![start("root", &[]), start("other", &[]), end("other")];
    assert_eq!(bind(&root, &ev, 0).err(), Some(BindError::UnexpectedEndOfInput));
}

#[test]
fn binder_reports_missing_required_attribute() {
    let root = schema("root", &[("id", true)], false, vec![]);
    let ev = vec![start("root", &[("other", "1")]), end("root")];
    assert_eq!(bind(&root, &ev, 0).err(), Some(BindError::MissingRequiredAttribute));
}

#[test]
fn binder_self_closing_element() {
    let root = schema("root", &[("a", false)], true, vec![]);
    let ev = vec![XmlEvent::Empty("root".to_string(), vec![("a".to_string(), "1".to_string())])];
    let (e, next) = bind(&root, &ev, 0).unwrap();
    assert_eq!(next, 1);
    assert_eq!(e.attrs, vec![Some("1".to_string())]);
}

#[test]
fn unset_attribute_is_not_written() {
    let mut out = Vec::new();
    Smooth::new().write_to(&mut out);
    assert_eq!(text(&out), "<c:smooth/>");
    let mut s = Smooth::new();
    s.set_val(false);
    let mut out = Vec::new();
    s.write_to(&mut out);
    assert_eq!(text(&out), "<c:smooth val=\"0\"/>");
    assert!(!s.get_val());
    s.set_val(true);
    assert!(s.get_val());
}

#[test]
fn smooth_reads_val() {
    let ev = vec![XmlEvent::Empty("c:smooth".to_string(), vec![("val".to_string(), "1".to_string())])];
    let mut s = Smooth::new();
    assert_eq!(s.set_attributes(&ev, 0), Ok(1));
    assert!(s.get_val());
    let ev = vec![XmlEvent::Empty("c:smooth".to_string(), vec![("val".to_string(), "maybe".to_string())])];
    let mut s = Smooth::new();
    assert_eq!(s.set_attributes(&ev, 0), Ok(1));
    let mut out = Vec::new();
    s.write_to(&mut out);
    assert_eq!(text(&out), "<c:smooth/>");
}

#[test]
fn defined_name_reads_and_writes() {
    let ev = vec![
        start("definedName", &[("name", "Print_Area"), ("localSheetId", "0")]),
        XmlEvent::Text("Sheet1!$A$1:$B$2".to_string()),
        end("definedName"),
    ];
    let mut d = DefinedName::new();
    assert_eq!(d.set_attributes(&ev, 0), Ok(3));
    assert_eq!(d.get_name(), "Print_Area");
    assert_eq!(d.get_local_sheet_id(), 0);
    assert_eq!(d.get_address(), "Sheet1!$A$1:$B$2");
    let mut out = Vec::new();
    d.write_to(&mut out);
    assert_eq!(
        text(&out),
        "<definedName name=\"Print_Area\" localSheetId=\"0\">Sheet1!$A$1:$B$2</definedName>"
    );
}

#[test]
fn defined_name_without_local_sheet_escapes_text() {
    let mut d = DefinedName::new();
    d.set_name("N".to_string());
    d.set_address("'A&B'!C3");
    let mut out = Vec::new();
    d.write_to(&mut out);
    assert_eq!(text(&out), "<definedName name=\"N\">&apos;A&amp;B&apos;!C3</definedName>");
}

#[test]
fn defined_name_bad_local_sheet_stays_unset() {
    let ev = vec![
        start("definedName", &[("name", "X"), ("localSheetId", "-1")]),
        XmlEvent::Text("A1".to_string()),
        end("definedName"),
    ];
    let mut d = DefinedName::new();
    assert_eq!(d.set_attributes(&ev, 0), Ok(3));
    let mut out = Vec::new();
    d.write_to(&mut out);
    assert_eq!(text(&out), "<definedName name=\"X\">A1</definedName>");
}

#[test]
fn writer_escapes_reserved_characters() {
    let mut out = Vec::new();
    write_start_tag(&mut out, "t", &vec![("k".to_string(), "a\"b".to_string())], false);
    write_text_node(&mut out, "<a&b>'");
    write_end_tag(&mut out, "t");
    assert_eq!(text(&out), "<t k=\"a&quot;b\">&lt;a&amp;b&gt;&apos;</t>");
}

#[test]
fn typed_values_parse_raw_text() {
    let mut b = BooleanValue::new();
    assert!(!b.has_value());
    assert_eq!(b.set_value_string("true"), Ok(()));
    assert!(b.get_value());
    assert_eq!(b.set_value_string("0"), Ok(()));
    assert!(!b.get_value());
    assert!(b.has_value());
    assert_eq!(b.get_value_string(), "0");
    assert_eq!(b.set_value_string("yes"), Err(ParseError::InvalidBoolean));
    assert!(!b.has_value());

    let mut u = UInt32Value::new();
    assert_eq!(u.get_value(), 0);
    assert_eq!(u.set_value_string("42"), Ok(()));
    assert_eq!(u.get_value(), 42);
    assert_eq!(u.get_value_string(), "42");
    assert_eq!(u.set_value_string("-1"), Err(ParseError::InvalidInteger));
    assert!(!u.has_value());
    assert_eq!(u.set_value_string("4294967296"), Err(ParseError::InvalidInteger));
    assert_eq!(u.set_value_string("4294967295"), Ok(()));
    assert_eq!(u.get_value(), 4294967295);
}

#[test]
fn binder_rejects_mismatched_end_tag() {
    let root = schema("root", &[], true, vec![]);
    let ev = vec![start("root", &[]), XmlEvent::Text("x".to_string()), end("other")];
    assert_eq!(bind(&root, &ev, 0).err(), Some(BindError::MismatchedEndTag));
    let mut d = DefinedName::new();
    let ev = vec![start("definedName", &[("name", "N")]), end("definedNames")];
    assert_eq!(d.set_attributes(&ev, 0), Err(BindError::MismatchedEndTag));
    assert_eq!(d.get_name(), "");
}

#[test]
fn smooth_without_val_is_an_error_and_unchanged() {
    let ev = vec![XmlEvent::Empty("c:smooth".to_string(), vec![])];
    let mut s = Smooth::new();
    assert_eq!(s.set_attributes(&ev, 0), Err(BindError::MissingRequiredAttribute));
    let mut out = Vec::new();
    s.write_to(&mut out);
    assert_eq!(text(&out), "<c:smooth/>");
}

#[test]
fn unset_name_is_not_written() {
    let mut d = DefinedName::new();
    d.set_address("A1");
    let mut out = Vec::new();
    d.write_to(&mut out);
    assert_eq!(text(&out), "<definedName>A1</definedName>");
}

#[test]
fn defined_name_skips_unknown_attribute_and_child() {
    let ev = vec![
        start("definedName", &[("name", "N"), ("foo", "bar")]),
        XmlEvent::Text("Sheet1!$A$1".to_string()),
        start("ext", &[("uri", "u")]),
        start("a", &[]),
        XmlEvent::Text("1".to_string()),
        end("a"),
        end("ext"),
        end("definedName"),
        XmlEvent::Empty("next".to_string(), vec![]),
    ];
    let mut d = DefinedName::new();
    assert_eq!(d.set_attributes(&ev, 0), Ok(8));
    assert_eq!(d.get_name(), "N");
    assert_eq!(d.get_address(), "Sheet1!$A$1");
}

#[test]
fn defined_name_unclosed_is_structural_error() {
    let ev = vec![start("definedName", &[("name", "N")]), XmlEvent::Text("Sheet1!$A$1".to_string()), XmlEvent::Eof];
    let mut d = DefinedName::new();
    assert_eq!(d.set_attributes(&ev, 0), Err(BindError::UnexpectedEndOfInput));
    assert_eq!(d.get_address(), "");
}
