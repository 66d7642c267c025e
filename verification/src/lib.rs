//! A verified spreadsheet formula engine: a tokenizer, an
//! operator-precedence compiler from infix formula text to postfix
//! programs, a stack evaluator that resolves cell references against a grid
//! snapshot, and a dependency graph that rejects circular references before
//! they are committed to the grid.
use vstd::prelude::*;

pub mod calc;
pub mod entry;
pub mod parser;
pub mod sheet;
pub mod text;

verus! {

/// Column label for a zero-based column index: `A` for 0 through `Z` for 25.
pub fn num_to_row(row: usize) -> (r: String)
    requires
        row < 26,
    ensures
        r@ =~= seq![(('A' as u8) + row as u8) as char],
{
    let c: char = (('A' as u8) + row as u8) as char;
    let mut s = String::new();
    crate::text::push_char(&mut s, c);
    s
}

} // verus!
