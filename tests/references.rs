use umya_spreadsheet::address::{col_to_letters, Address, Axis, Coordinate, EditMode};
use umya_spreadsheet::defined_name::{adjust_defined_names, split_str, DefinedName};

fn text(v: Vec<char>) -> String {
    v.into_iter().collect()
}

fn cell(col: u32, row: u32) -> Coordinate {
    Coordinate { col, row, col_abs: false, row_abs: false }
}

#[test]
fn split_keeps_comma_inside_quoted_sheet() {
    let toks = split_str("A1,'My, Sheet'!B2:C3");
    assert_eq!(toks, vec!["A1".to_string(), "'My, Sheet'!B2:C3".to_string()]);
}

#[test]
fn split_keeps_comma_inside_parentheses() {
    let toks = split_str("SUM(A1,B2),C3");
    assert_eq!(toks, vec!["SUM(A1,B2)".to_string(), "C3".to_string()]);
}

#[test]
fn split_drops_double_quotes_outside_context() {
    let toks = split_str("\"a,b\",C1");
    assert_eq!(toks, vec!["a,b".to_string(), "C1".to_string()]);
    let toks = split_str("F(\"x\")");
    assert_eq!(toks, vec!["F(\"x\")".to_string()]);
}

#[test]
fn split_leaves_out_trailing_empty_token() {
    assert_eq!(split_str("A1,"), vec!["A1".to_string()]);
    assert!(split_str("").is_empty());
}

#[test]
fn canonical_references_round_trip() {
    for s in [
        "A1",
        "$B$2",
        "B$2",
        "Sheet1!A1:$C$3",
        "'My Sheet'!AA10",
        "'O''Brien'!A1",
        "XFD1048576",
        "S_1!Z9:AB12",
    ] {
        let a = Address::parse(s).expect(s);
        assert_eq!(a.get_address(), s);
    }
}

#[test]
fn quote_is_doubled_and_read_back() {
    let a = Address { sheet_name: "O'Brien".to_string(), start: cell(1, 1), end: None };
    assert_eq!(a.get_address(), "'O''Brien'!A1");
    let b = Address::parse("'O''Brien'!A1").unwrap();
    assert_eq!(b.sheet_name, "O'Brien");
    assert_eq!(b.start, cell(1, 1));
}

#[test]
fn parse_reads_fields() {
    let a = Address::parse("Data!$C5:D$10").unwrap();
    assert_eq!(a.sheet_name, "Data");
    assert_eq!(a.start, Coordinate { col: 3, row: 5, col_abs: true, row_abs: false });
    assert_eq!(a.end, Some(Coordinate { col: 4, row: 10, col_abs: false, row_abs: true }));
}

#[test]
fn parse_rejects_non_references() {
    for s in [
        "", "A0", "1A", "a1", "Sheet 1!A1", "!A1", "A1:", "A", "12", "AAAAAAAA1", "A4294967296",
        "'open!A1", "SUM(A1)",
    ] {
        assert!(Address::parse(s).is_none(), "{}", s);
    }
}

#[test]
fn column_letters() {
    assert_eq!(text(col_to_letters(1)), "A");
    assert_eq!(text(col_to_letters(26)), "Z");
    assert_eq!(text(col_to_letters(27)), "AA");
    assert_eq!(text(col_to_letters(702)), "ZZ");
    assert_eq!(text(col_to_letters(703)), "AAA");
    assert_eq!(text(col_to_letters(16384)), "XFD");
}

#[test]
fn insert_rows_shifts_rows_at_or_after() {
    let mut d = DefinedName::new();
    d.set_address("S!B5,S!B2");
    let empty = d.adjust("S", Axis::Row, 3, 2, EditMode::Insert);
    assert!(!empty);
    assert_eq!(d.get_address(), "S!B7,S!B2");
}

#[test]
fn insert_columns_shifts_columns() {
    let mut a = Address::parse("S!B2:D4").unwrap();
    assert!(a.adjust("S", Axis::Column, 3, 1, EditMode::Insert));
    assert_eq!(a.get_address(), "S!B2:E4");
}

#[test]
fn remove_row_drops_reference_and_owner() {
    let mut d = DefinedName::new();
    d.set_address("S!C4");
    assert!(d.adjust("S", Axis::Row, 4, 1, EditMode::Remove));
    assert_eq!(d.get_address(), "");

    let mut keep = DefinedName::new();
    keep.set_name("keep".to_string());
    keep.set_address("S!C9");
    let mut gone = DefinedName::new();
    gone.set_name("gone".to_string());
    gone.set_address("S!C4");
    let mut names = vec![gone, keep];
    adjust_defined_names(&mut names, "S", Axis::Row, 4, 1, EditMode::Remove);
    assert_eq!(names.len(), 1);
    assert_eq!(names[0].get_name(), "keep");
    assert_eq!(names[0].get_address(), "S!C8");
}

#[test]
fn other_sheet_is_untouched() {
    let mut d = DefinedName::new();
    d.set_address("Other!B5,S!B5");
    d.adjust("S", Axis::Row, 1, 3, EditMode::Remove);
    assert_eq!(d.get_address(), "Other!B5,S!B2");
    let mut a = Address::parse("Other!B5").unwrap();
    assert!(a.adjust("S", Axis::Row, 5, 1, EditMode::Remove));
    assert_eq!(a.get_address(), "Other!B5");
}

#[test]
fn reference_without_sheet_is_untouched() {
    let mut a = Address::parse("B5").unwrap();
    assert!(a.adjust("S", Axis::Row, 1, 2, EditMode::Insert));
    assert_eq!(a.get_address(), "B5");
}

#[test]
fn remove_cuts_range_with_one_corner_removed() {
    let mut a = Address::parse("S!A2:A6").unwrap();
    assert!(a.adjust("S", Axis::Row, 2, 2, EditMode::Remove));
    assert_eq!(a.get_address(), "S!A2:A4");
    let mut b = Address::parse("S!A1:A3").unwrap();
    assert!(b.adjust("S", Axis::Row, 3, 2, EditMode::Remove));
    assert_eq!(b.get_address(), "S!A1:A2");
    let mut c = Address::parse("S!A3:A4").unwrap();
    assert!(!c.adjust("S", Axis::Row, 2, 5, EditMode::Remove));
}

#[test]
fn insert_past_largest_row_drops_reference() {
    let mut a = Address::parse("S!A4294967295").unwrap();
    assert!(!a.adjust("S", Axis::Row, 1, 1, EditMode::Insert));
}

#[test]
fn literal_value_is_kept_and_never_adjusted() {
    let mut d = DefinedName::new();
    d.set_address("SUM(A1,B2)");
    assert!(d.has_string_value());
    assert_eq!(d.get_address(), "SUM(A1,B2)");
    assert!(!d.adjust("S", Axis::Row, 1, 5, EditMode::Remove));
    assert_eq!(d.get_address(), "SUM(A1,B2)");
}

#[test]
fn non_reference_token_makes_literal() {
    let mut d = DefinedName::new();
    d.set_address("A1,foo,B2");
    assert!(d.has_string_value());
    assert_eq!(d.get_address(), "foo");
    assert_eq!(d.get_sheet_name(), "");
}

#[test]
fn add_address_clears_literal() {
    let mut d = DefinedName::new();
    d.set_string_value("x".to_string());
    assert!(d.add_address("Sheet1!A1"));
    assert!(!d.has_string_value());
    assert!(d.add_address("B2"));
    assert_eq!(d.get_address(), "Sheet1!A1,B2");
    assert_eq!(d.get_sheet_name(), "Sheet1");
    assert!(!d.add_address("not a ref"));
    assert_eq!(d.get_address(), "Sheet1!A1,B2");
}

#[test]
fn name_and_local_sheet() {
    let mut d = DefinedName::new();
    assert_eq!(d.get_local_sheet_id(), 0);
    d.set_local_sheet_id(3);
    assert_eq!(d.get_local_sheet_id(), 3);
    d.set_name("Area".to_string());
    assert_eq!(d.get_name(), "Area");
}

#[test]
fn reference_list_round_trips_through_owner() {
    for s in ["Sheet1!$A$1:$B$2,'My, Sheet'!C3,D4", "A1", "'O''Brien'!A1:B2,Z9"] {
        let mut d = DefinedName::new();
        d.set_address(s);
        assert!(!d.has_string_value());
        assert_eq!(d.get_address(), s);
    }
}

#[test]
fn set_sheet_name_rebinds_references() {
    let mut d = DefinedName::new();
    d.set_address("A1,Old!B2:C3");
    d.set_sheet_name("My Sheet");
    assert_eq!(d.get_address(), "'My Sheet'!A1,'My Sheet'!B2:C3");
    assert_eq!(d.get_sheet_name(), "My Sheet");
    let mut lit = DefinedName::new();
    lit.set_address("#REF!");
    lit.set_sheet_name("S");
    assert_eq!(lit.get_address(), "#REF!");
}

#[test]
fn set_address_appends_to_held_references() {
    let mut d = DefinedName::new();
    d.set_address("S!A1");
    d.set_address("S!B2,C3");
    assert_eq!(d.get_address(), "S!A1,S!B2,C3");
    d.set_address("junk");
    assert_eq!(d.get_address(), "junk");
    d.set_address("D4");
    assert!(!d.has_string_value());
    assert_eq!(d.get_address(), "D4");
}

#[test]
fn default_named_range_is_empty() {
    let d = DefinedName::default();
    assert_eq!(d.get_name(), "");
    assert_eq!(d.get_address(), "");
    assert_eq!(d.get_local_sheet_id(), 0);
}

#[test]
fn remove_cuts_inverted_range_by_corner_order() {
    let mut a = Address::parse("S!A10:A3").unwrap();
    assert!(a.adjust("S", Axis::Row, 1, 5, EditMode::Remove));
    assert_eq!(a.get_address(), "S!A5:A1");
    let mut b = Address::parse("S!A10:A3").unwrap();
    assert!(b.adjust("S", Axis::Row, 2, 4, EditMode::Remove));
    assert_eq!(b.get_address(), "S!A6:A2");
    let mut c = Address::parse("S!A4:A1").unwrap();
    assert!(c.adjust("S", Axis::Row, 3, 3, EditMode::Remove));
    assert_eq!(c.get_address(), "S!A2:A1");
    let mut d = DefinedName::new();
    d.set_address("S!A10:A3");
    assert!(!d.adjust("S", Axis::Row, 1, 5, EditMode::Remove));
    assert_eq!(d.get_address(), "S!A5:A1");
}
