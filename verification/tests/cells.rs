//! Tests of cells, raw-text parsing, display rendering and the entry
//! buffer.
use sheetcalc::calc::{ExecutionError, Lexer, Node};
use sheetcalc::entry::Entry;
use sheetcalc::num_to_row;
use sheetcalc::parser::parse;
use sheetcalc::sheet::{Cell, Expression, Sheet};

#[test]
fn raw_integer_becomes_value_cell() {
    match parse("12") {
        Cell::Val(v) => assert_eq!(v, 12),
        _ => panic!("expected a value cell"),
    }
}

#[test]
fn signed_integers_parse() {
    match parse("-5") {
        Cell::Val(v) => assert_eq!(v, -5),
        _ => panic!("expected a value cell"),
    }
    match parse("+7") {
        Cell::Val(v) => assert_eq!(v, 7),
        _ => panic!("expected a value cell"),
    }
    match parse("-9223372036854775808") {
        Cell::Val(v) => assert_eq!(v, i64::MIN),
        _ => panic!("expected a value cell"),
    }
}

#[test]
fn non_numeric_text_becomes_text_cell() {
    match parse("12a") {
        Cell::Text(t) => assert_eq!(t, "12a"),
        _ => panic!("expected a text cell"),
    }
    match parse("9223372036854775808") {
        Cell::Text(t) => assert_eq!(t, "9223372036854775808"),
        _ => panic!("out-of-range numbers stay text"),
    }
}

#[test]
fn empty_text_becomes_empty_cell() {
    match parse("") {
        Cell::Empty => {}
        _ => panic!("expected the empty cell"),
    }
}

#[test]
fn formula_cell_starts_not_executed() {
    match parse("=1+2") {
        Cell::Expression(_, Err(ExecutionError::NotExecuted)) => {}
        _ => panic!("expected a not-yet-executed formula cell"),
    }
}

#[test]
fn entry_text_round_trips() {
    assert_eq!(parse("12").entry(), "12");
    assert_eq!(parse("-5").entry(), "-5");
    assert_eq!(parse("hello").entry(), "hello");
    assert_eq!(parse("").entry(), "");
    assert_eq!(parse("=A1+1").entry(), "=A1+1");
}

#[test]
fn display_renders_each_variant() {
    assert_eq!(parse("").display(), "---");
    assert_eq!(parse("12").display(), "12");
    assert_eq!(parse("note").display(), "note");
    let mut sheet = Sheet::new();
    sheet.insert_cell(parse("=2+2"), (0, 0));
    assert_eq!(sheet.cell_at(0, 0).unwrap().display(), "4");
    sheet.insert_cell(parse("=1/0"), (1, 0));
    assert_eq!(sheet.cell_at(1, 0).unwrap().display(), "#Error");
}

#[test]
fn display_of_extreme_values() {
    assert_eq!(parse("-9223372036854775808").display(), "-9223372036854775808");
    assert_eq!(parse("9223372036854775807").display(), "9223372036854775807");
    assert_eq!(parse("0").display(), "0");
}

#[test]
fn justification_follows_variant() {
    assert!(parse("").justify_right());
    assert!(parse("12").justify_right());
    assert!(!parse("note").justify_right());
    assert!(parse("=1+2").justify_right());
}

#[test]
fn val_is_only_numeric() {
    assert_eq!(parse("").val(), None);
    assert_eq!(parse("12").val(), Some(12));
    assert_eq!(parse("note").val(), None);
    // a formula's value is its cached outcome, absent before insertion
    assert_eq!(parse("=1+2").val(), None);
}

#[test]
fn insert_stores_non_formula_cells() {
    let mut sheet = Sheet::new();
    sheet.insert_cell(parse("41"), (3, 4));
    assert_eq!(sheet.val_at(3, 4), Some(41));
    sheet.insert_cell(parse("note"), (3, 4));
    assert_eq!(sheet.val_at(3, 4), None);
    match sheet.cell_at(3, 4) {
        Some(Cell::Text(t)) => assert_eq!(t, "note"),
        _ => panic!("expected the replacing text cell"),
    }
}

#[test]
fn expression_reports_referenced_positions() {
    let ex = Expression::new(String::from("=A1+B2"));
    assert_eq!(ex.deps((5, 5)), vec![(0, 0), (1, 1)]);
}

#[test]
fn failed_compilation_has_no_referenced_positions() {
    let ex = Expression::new(String::from("=A1+@"));
    assert_eq!(ex.deps((5, 5)), vec![]);
}

#[test]
fn lexer_hands_out_tokens_in_order() {
    let mut lx = Lexer::new(" 12+A3*4");
    assert_eq!(lx.next(), Some(Node::Val(12)));
    assert_eq!(lx.next(), Some(Node::Add));
    assert_eq!(lx.next(), Some(Node::Cell(0, 2)));
    assert_eq!(lx.next(), Some(Node::Mul));
    assert_eq!(lx.next(), Some(Node::Val(4)));
    assert_eq!(lx.next(), None);
}

#[test]
fn lexer_marks_unrecognized_characters() {
    let mut lx = Lexer::new("1+~");
    assert_eq!(lx.next(), Some(Node::Val(1)));
    assert_eq!(lx.next(), Some(Node::Add));
    assert_eq!(lx.next(), Some(Node::Invalid));
}

#[test]
fn column_labels() {
    assert_eq!(num_to_row(0), "A");
    assert_eq!(num_to_row(25), "Z");
}

#[test]
fn entry_buffer_edits() {
    let mut e = Entry::new();
    assert_eq!(e.text().as_str(), "");
    assert_eq!(e.input('4'), 1);
    assert_eq!(e.input('2'), 2);
    assert_eq!(e.text().as_str(), "42");
    assert_eq!(e.backspace(), 1);
    assert_eq!(e.text().as_str(), "4");
    assert_eq!(e.backspace(), 0);
    assert_eq!(e.backspace(), 0);
    assert_eq!(e.text().as_str(), "");
}
