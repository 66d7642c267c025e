//! End-to-end tests of the formula engine through the grid's insertion
//! protocol.
use sheetcalc::calc::ExecutionError;
use sheetcalc::parser::parse;
use sheetcalc::sheet::{Cell, Sheet};

fn insert_text(sheet: &mut Sheet, text: &str, pos: (usize, usize)) {
    // insert_cell expects an in-bounds position and a well-formed cell;
    // parse only produces well-formed cells, and the grid is 10 x 30.
    assert!(pos.0 < 10 && pos.1 < 30);
    sheet.insert_cell(parse(text), pos);
}

fn cached_error(sheet: &Sheet, pos: (usize, usize)) -> Option<ExecutionError> {
    match sheet.cell_at(pos.0, pos.1) {
        Some(Cell::Expression(_, Err(e))) => Some(*e),
        _ => None,
    }
}

#[test]
fn round_trip_addition() {
    let mut sheet = Sheet::new();
    insert_text(&mut sheet, "=3+4", (0, 0));
    assert_eq!(sheet.val_at(0, 0), Some(7));
}

#[test]
fn left_to_right_subtraction() {
    let mut sheet = Sheet::new();
    insert_text(&mut sheet, "=10-2-3", (0, 0));
    assert_eq!(sheet.val_at(0, 0), Some(5));
}

#[test]
fn precedence_multiplication_binds_tighter() {
    let mut sheet = Sheet::new();
    insert_text(&mut sheet, "=2+3*4", (0, 0));
    assert_eq!(sheet.val_at(0, 0), Some(14));
}

#[test]
fn cell_reference_resolves_through_grid() {
    let mut sheet = Sheet::new();
    insert_text(&mut sheet, "5", (0, 0));
    insert_text(&mut sheet, "=A1+1", (1, 0));
    assert_eq!(sheet.val_at(1, 0), Some(6));
}

#[test]
fn unresolved_reference_is_cell_not_found() {
    let mut sheet = Sheet::new();
    insert_text(&mut sheet, "=A1+1", (1, 0));
    assert_eq!(cached_error(&sheet, (1, 0)), Some(ExecutionError::CellNotFound));
    assert_eq!(sheet.val_at(1, 0), None);
}

#[test]
fn direct_cycle_is_rejected() {
    let mut sheet = Sheet::new();
    // A1 references B1; then B1 referencing A1 would close the cycle.
    insert_text(&mut sheet, "=B1", (0, 0));
    insert_text(&mut sheet, "=A1", (1, 0));
    assert_eq!(cached_error(&sheet, (1, 0)), Some(ExecutionError::Cyclic));
}

#[test]
fn transitive_cycle_is_rejected() {
    let mut sheet = Sheet::new();
    insert_text(&mut sheet, "=B1", (0, 0));
    insert_text(&mut sheet, "=C1", (1, 0));
    insert_text(&mut sheet, "=A1", (2, 0));
    assert_eq!(cached_error(&sheet, (2, 0)), Some(ExecutionError::Cyclic));
}

#[test]
fn self_reference_is_rejected() {
    let mut sheet = Sheet::new();
    insert_text(&mut sheet, "=A1", (0, 0));
    assert_eq!(cached_error(&sheet, (0, 0)), Some(ExecutionError::Cyclic));
}

#[test]
fn rejection_adds_no_edge() {
    let mut sheet = Sheet::new();
    insert_text(&mut sheet, "=B1", (0, 0));
    // rejected: would close the cycle, so it must add no edge ...
    insert_text(&mut sheet, "=A1", (1, 0));
    assert_eq!(cached_error(&sheet, (1, 0)), Some(ExecutionError::Cyclic));
    // ... and a later formula on C1 reading B1 is therefore untroubled.
    insert_text(&mut sheet, "7", (1, 0));
    insert_text(&mut sheet, "=B1+1", (2, 0));
    assert_eq!(sheet.val_at(2, 0), Some(8));
}

#[test]
fn compilation_is_idempotent() {
    let sheet = Sheet::new();
    let b1 = sheetcalc::calc::parse("3+4*2");
    let b2 = sheetcalc::calc::parse("3+4*2");
    assert_eq!(b1.execute(&sheet), b2.execute(&sheet));
    assert_eq!(b1.execute(&sheet), Ok(11));
}

#[test]
fn invalid_character_fails_compilation() {
    let mut sheet = Sheet::new();
    insert_text(&mut sheet, "=A1+@", (0, 0));
    assert_eq!(cached_error(&sheet, (0, 0)), Some(ExecutionError::CompilationError));
}

#[test]
fn constant_formula_ignores_grid_contents() {
    let mut empty = Sheet::new();
    insert_text(&mut empty, "=2*3+1", (0, 0));
    let mut full = Sheet::new();
    insert_text(&mut full, "42", (0, 1));
    insert_text(&mut full, "99", (1, 0));
    insert_text(&mut full, "=2*3+1", (0, 0));
    assert_eq!(empty.val_at(0, 0), full.val_at(0, 0));
    assert_eq!(empty.val_at(0, 0), Some(7));
}

#[test]
fn division_truncates() {
    let mut sheet = Sheet::new();
    insert_text(&mut sheet, "=7/2", (0, 0));
    assert_eq!(sheet.val_at(0, 0), Some(3));
}

#[test]
fn division_by_zero_is_dedicated_error() {
    let mut sheet = Sheet::new();
    insert_text(&mut sheet, "=1/0", (0, 0));
    assert_eq!(cached_error(&sheet, (0, 0)), Some(ExecutionError::DivByZero));
}

#[test]
fn empty_formula_is_out_of_stack() {
    let mut sheet = Sheet::new();
    insert_text(&mut sheet, "=", (0, 0));
    assert_eq!(cached_error(&sheet, (0, 0)), Some(ExecutionError::OutOfStack));
}

#[test]
fn lone_operator_is_out_of_stack() {
    let mut sheet = Sheet::new();
    insert_text(&mut sheet, "=+", (0, 0));
    assert_eq!(cached_error(&sheet, (0, 0)), Some(ExecutionError::OutOfStack));
}

#[test]
fn whitespace_between_tokens_is_skipped() {
    let mut sheet = Sheet::new();
    insert_text(&mut sheet, "= 1 +  2", (0, 0));
    assert_eq!(sheet.val_at(0, 0), Some(3));
}

#[test]
fn overlarge_number_fails_compilation() {
    let mut sheet = Sheet::new();
    insert_text(&mut sheet, "=99999999999999999999", (0, 0));
    assert_eq!(cached_error(&sheet, (0, 0)), Some(ExecutionError::CompilationError));
}

#[test]
fn row_digit_zero_fails_compilation() {
    let mut sheet = Sheet::new();
    insert_text(&mut sheet, "=A0", (0, 0));
    assert_eq!(cached_error(&sheet, (0, 0)), Some(ExecutionError::CompilationError));
}

#[test]
fn reference_outside_grid_is_cell_not_found() {
    let mut sheet = Sheet::new();
    // Z9 tokenizes as column 25, but the grid has only ten columns.
    insert_text(&mut sheet, "=Z9", (0, 0));
    assert_eq!(cached_error(&sheet, (0, 0)), Some(ExecutionError::CellNotFound));
}

#[test]
fn letter_at_end_of_input_fails_compilation() {
    let mut sheet = Sheet::new();
    insert_text(&mut sheet, "=A", (0, 0));
    assert_eq!(cached_error(&sheet, (0, 0)), Some(ExecutionError::CompilationError));
}

#[test]
fn largest_and_smallest_literals() {
    let mut sheet = Sheet::new();
    insert_text(&mut sheet, "=9223372036854775807", (0, 0));
    assert_eq!(sheet.val_at(0, 0), Some(i64::MAX));
    insert_text(&mut sheet, "=0-9223372036854775807", (1, 0));
    assert_eq!(sheet.val_at(1, 0), Some(-i64::MAX));
}

#[test]
fn addition_wraps_on_overflow() {
    let mut sheet = Sheet::new();
    insert_text(&mut sheet, "9223372036854775807", (0, 0));
    insert_text(&mut sheet, "=A1+1", (1, 0));
    assert_eq!(sheet.val_at(1, 0), Some(i64::MIN));
}

#[test]
fn smallest_quotient_wraps() {
    let mut sheet = Sheet::new();
    insert_text(&mut sheet, "-9223372036854775808", (0, 0));
    insert_text(&mut sheet, "=0-1", (1, 0));
    insert_text(&mut sheet, "=A1/B1", (2, 0));
    assert_eq!(sheet.val_at(2, 0), Some(i64::MIN));
}

#[test]
fn removing_an_edge_unblocks_insertion() {
    let mut sheet = Sheet::new();
    // A1 references B1, so B1 referencing A1 back would be cyclic ...
    insert_text(&mut sheet, "=B1", (0, 0));
    // ... but once A1's reverse edge is unregistered, it no longer is:
    // the insertion is accepted and fails only on the unreadable cell.
    sheet.remove_dependency((1, 0), (0, 0));
    insert_text(&mut sheet, "=A1", (1, 0));
    assert_eq!(cached_error(&sheet, (1, 0)), Some(ExecutionError::CellNotFound));
}
