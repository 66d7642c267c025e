//! Turning committed raw text into a cell: formulas are compiled, plain
//! integers become values, anything else stays text.
use vstd::prelude::*;
use vstd::string::StringExecFns;
use std::rc::Rc;

use crate::calc::{spec_parse, ExecutionError};
use crate::sheet::{Cell, Expression};
use crate::text::{chars_of, digit_of, digits_val, is_digit, is_digit_char};

verus! {

/// The 64-bit signed integer a text denotes, if any: an optional single
/// `+` or `-` sign, then one or more decimal digits and nothing else, with
/// the signed value in the 64-bit range.
pub open spec fn int_text_val(s: Seq<char>) -> Option<i64> {
    let start: int = if s.len() >= 1 && (s[0] == '+' || s[0] == '-') {
        1
    } else {
        0
    };
    if s.len() > start && (forall|i: int| start <= i < s.len() ==> is_digit_char(#[trigger] s[i])) {
        let mag = digits_val(s, start, s.len() as int);
        if s[0] == '-' {
            if mag <= 9223372036854775808 {
                Some((-mag) as i64)
            } else {
                None
            }
        } else {
            if mag <= 9223372036854775807 {
                Some(mag as i64)
            } else {
                None
            }
        }
    } else {
        None
    }
}

/// Parses a full text as a 64-bit signed decimal integer.
fn parse_int(cs: &Vec<char>) -> (r: Option<i64>)
    ensures
        r == int_text_val(cs@),
{
    let n: usize = cs.len();
    if n == 0 {
        return None;
    }
    let c0: char = cs[0];
    let neg: bool = c0 == '-';
    let start: usize = if c0 == '-' || c0 == '+' {
        1
    } else {
        0
    };
    if start == n {
        return None;
    }
    let mut acc: u64 = 0;
    let mut of: bool = false;
    let mut i: usize = start;
    while i < n
        invariant
            start <= i <= n,
            start < n,
            n == cs@.len(),
            start == 0 || start == 1,
            start == (if cs@[0] == '+' || cs@[0] == '-' {
                1int
            } else {
                0int
            }),
            neg == (cs@[0] == '-'),
            forall|j: int| start <= j < i ==> is_digit_char(#[trigger] cs@[j]),
            !of ==> acc as int == digits_val(cs@, start as int, i as int) && acc
                <= 9223372036854775808,
            of ==> digits_val(cs@, start as int, i as int) > 9223372036854775808,
        decreases n - i,
    {
        let c: char = cs[i];
        if !is_digit(c) {
            return None;
        }
        let d: u8 = digit_of(c);
        if !of {
            if acc > 922337203685477580u64 || (acc == 922337203685477580u64 && d > 8) {
                of = true;
            } else {
                acc = acc * 10 + (d as u64);
            }
        }
        i = i + 1;
    }
    if of {
        return None;
    }
    if neg {
        if acc == 9223372036854775808u64 {
            Some(i64::MIN)
        } else {
            Some(-(acc as i64))
        }
    } else {
        if acc > 9223372036854775807u64 {
            None
        } else {
            Some(acc as i64)
        }
    }
}

/// How committed raw text becomes a cell: empty text is the empty cell;
/// text beginning with the `=` marker becomes a formula cell, compiled at
/// once but carrying the "not yet executed" placeholder outcome (the grid
/// writes the real one on insertion); text denoting a 64-bit signed integer
/// becomes an integer cell; anything else is kept as a text cell.
pub open spec fn cell_for_text(s: Seq<char>, r: Cell) -> bool {
    if s.len() == 0 {
        r == Cell::Empty
    } else if s[0] == '=' {
        match r {
            Cell::Expression(e, res) => e.text_spec() == s && e.code_spec() == spec_parse(
                s.subrange(1, s.len() as int),
            ) && e.wf() && res == Err::<i64, ExecutionError>(ExecutionError::NotExecuted),
            _ => false,
        }
    } else {
        match int_text_val(s) {
            Some(v) => r == Cell::Val(v),
            None => match r {
                Cell::Text(t) => t@ == s,
                _ => false,
            },
        }
    }
}

/// Turns committed raw text into the cell [`cell_for_text`] describes.
pub fn parse(s: &str) -> (r: Cell)
    ensures
        cell_for_text(s@, r),
{
    let cs: Vec<char> = chars_of(s);
    if cs.len() == 0 {
        return Cell::Empty;
    }
    let c0: char = cs[0];
    if c0 == '=' {
        let owned: String = String::from_str(s);
        let ex: Expression = Expression::new(owned);
        Cell::Expression(Rc::new(ex), Err(ExecutionError::NotExecuted))
    } else {
        match parse_int(&cs) {
            Some(v) => Cell::Val(v),
            None => Cell::Text(String::from_str(s)),
        }
    }
}

} // verus!
