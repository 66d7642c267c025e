//! The formula engine: tokenizer, infix-to-postfix compiler and stack
//! evaluator.  A formula is compiled once into a postfix program
//! ([`ByteCode`]) and can then be executed any number of times against a
//! grid snapshot.
use vstd::prelude::*;

use crate::text::{digits_val, digit_val, is_digit_char, is_upper_char, is_ws_char};

verus! {

/// A lexical token and, equally, one instruction of the compiled postfix
/// program: a number literal, an arithmetic operator, a cell reference
/// (column, row), or the marker for a lexical error.
#[derive(Debug, Clone, Copy, PartialEq, Eq, Structural)]
pub enum Node {
    Invalid,
    Add,
    Sub,
    Mul,
    Div,
    Cell(usize, usize),
    Val(i64),
}

/// Why an evaluation (or the compilation it rests on) failed.  Every failure
/// is cached in the affected cell; none aborts the grid.
#[derive(Debug, Clone, Copy, PartialEq, Eq, Structural)]
pub enum ExecutionError {
    CompilationError,
    NotImpemented,
    SyntaxError,
    OutOfStack,
    DivByZero,
    NotExecuted,
    Cyclic,
    CellNotFound,
}

impl Node {
    /// Operator precedence: a numerically lower value binds tighter.
    /// Multiplication and division (3) bind tighter than addition and
    /// subtraction (4); operands carry no precedence.
    pub open spec fn precedence_spec(self) -> int {
        match self {
            Node::Add => 4,
            Node::Sub => 4,
            Node::Mul => 3,
            Node::Div => 3,
            _ => 0,
        }
    }

    fn precedence(&self) -> (r: u8)
        ensures
            r == self.precedence_spec(),
    {
        match self {
            Node::Invalid => 0,
            Node::Add => 4,
            Node::Sub => 4,
            Node::Mul => 3,
            Node::Div => 3,
            Node::Cell(_, _) => 0,
            Node::Val(_) => 0,
        }
    }

    /// True for the four arithmetic operators.
    pub open spec fn is_op_spec(self) -> bool {
        match self {
            Node::Add | Node::Sub | Node::Mul | Node::Div => true,
            _ => false,
        }
    }

    fn is_op(&self) -> (r: bool)
        ensures
            r == self.is_op_spec(),
    {
        match self {
            Node::Invalid => false,
            Node::Cell(_, _) => false,
            Node::Val(_) => false,
            _ => true,
        }
    }

    /// What a node evaluates to on its own: only a number literal has a
    /// value.  A cell reference must resolve through the grid, so asking it
    /// to self-evaluate is the "not implemented" failure.
    pub open spec fn eval_spec(self) -> Result<i64, ExecutionError> {
        match self {
            Node::Val(v) => Ok(v),
            _ => Err(ExecutionError::NotImpemented),
        }
    }

    fn eval(&self) -> (r: Result<i64, ExecutionError>)
        ensures
            r == self.eval_spec(),
    {
        match self {
            Node::Val(v) => Ok(*v),
            _ => Err(ExecutionError::NotImpemented),
        }
    }

    /// Applies an operator node to two operands, `a` the earlier (deeper)
    /// stack entry and `b` the top.  Addition, subtraction and
    /// multiplication wrap on two's-complement overflow; division by zero is
    /// the dedicated `DivByZero` failure, and the one overflowing quotient
    /// (`i64::MIN / -1`) wraps to `i64::MIN`.
    pub open spec fn apply_op_spec(self, a: i64, b: i64) -> Result<i64, ExecutionError> {
        match self {
            Node::Add => Ok(a.wrapping_add(b)),
            Node::Sub => Ok(a.wrapping_sub(b)),
            Node::Mul => Ok(a.wrapping_mul(b)),
            Node::Div => match a.checked_div(b) {
                Some(q) => Ok(q),
                None => if b == 0 {
                    Err(ExecutionError::DivByZero)
                } else {
                    Ok(i64::MIN)
                },
            },
            _ => Err(ExecutionError::NotImpemented),
        }
    }

    /// Pops the two topmost operands and applies an operator to them: the
    /// value popped first is the right-hand operand.  With fewer than two
    /// operands available the result is the "out of stack" failure and the
    /// stack is left drained.
    fn calc(&self, stack: &mut Vec<i64>) -> (r: Result<i64, ExecutionError>)
        ensures
            !self.is_op_spec() ==> r == Err::<i64, ExecutionError>(ExecutionError::NotImpemented)
                && final(stack)@ == old(stack)@,
            self.is_op_spec() && old(stack)@.len() >= 2 ==> {
                &&& r == self.apply_op_spec(
                    old(stack)@[old(stack)@.len() - 2],
                    old(stack)@[old(stack)@.len() - 1],
                )
                &&& final(stack)@ == old(stack)@.take(old(stack)@.len() - 2)
            },
            self.is_op_spec() && old(stack)@.len() < 2 ==> r == Err::<i64, ExecutionError>(
                ExecutionError::OutOfStack,
            ) && final(stack)@.len() == 0,
    {
        match self {
            Node::Add | Node::Sub | Node::Mul | Node::Div => {
                let b: i64 = match stack.pop() {
                    Some(v) => v,
                    None => {
                        return Err(ExecutionError::OutOfStack);
                    },
                };
                let a: i64 = match stack.pop() {
                    Some(v) => v,
                    None => {
                        return Err(ExecutionError::OutOfStack);
                    },
                };
                match self {
                    Node::Add => Ok(a.wrapping_add(b)),
                    Node::Sub => Ok(a.wrapping_sub(b)),
                    Node::Mul => Ok(a.wrapping_mul(b)),
                    _ => {
                        match a.checked_div(b) {
                            Some(q) => Ok(q),
                            None => if b == 0 {
                                Err(ExecutionError::DivByZero)
                            } else {
                                Ok(i64::MIN)
                            },
                        }
                    },
                }
            },
            _ => Err(ExecutionError::NotImpemented),
        }
    }
}

/// Index of the first non-whitespace character at or after `i`.
pub open spec fn skip_ws(s: Seq<char>, i: int) -> int
    decreases s.len() - i,
    when 0 <= i <= s.len()
{
    if i == s.len() {
        i
    } else if is_ws_char(s[i]) {
        skip_ws(s, i + 1)
    } else {
        i
    }
}

pub proof fn lemma_skip_ws_bounds(s: Seq<char>, i: int)
    requires
        0 <= i <= s.len(),
    ensures
        i <= skip_ws(s, i) <= s.len(),
        skip_ws(s, i) < s.len() ==> !is_ws_char(s[skip_ws(s, i)]),
    decreases s.len() - i,
{
    if i < s.len() && is_ws_char(s[i]) {
        lemma_skip_ws_bounds(s, i + 1);
    }
}

/// Index just past the maximal run of digits starting at `i`.
pub open spec fn digits_end(s: Seq<char>, i: int) -> int
    decreases s.len() - i,
    when 0 <= i <= s.len()
{
    if i == s.len() {
        i
    } else if is_digit_char(s[i]) {
        digits_end(s, i + 1)
    } else {
        i
    }
}

pub proof fn lemma_digits_end_bounds(s: Seq<char>, i: int)
    requires
        0 <= i <= s.len(),
    ensures
        i <= digits_end(s, i) <= s.len(),
    decreases s.len() - i,
{
    if i < s.len() && is_digit_char(s[i]) {
        lemma_digits_end_bounds(s, i + 1);
    }
}

/// The token starting at or after index `i`, together with the index just
/// past it; nothing at the end of the text.  This is the tokenizer's whole
/// contract:
/// - leading whitespace is skipped;
/// - a maximal run of digits is a number literal, or the invalid token if
///   its value does not fit a 64-bit signed integer;
/// - `+ - * /` map to their operators;
/// - an uppercase letter immediately followed by a digit `1`-`9` is a cell
///   reference, column `A`-`Z` as 0-25, row digit minus one;
/// - any other character (including a letter not followed by such a digit)
///   is the invalid token.
pub open spec fn token_at(s: Seq<char>, i: int) -> Option<(Node, int)> {
    let k = skip_ws(s, i);
    if k >= s.len() {
        None
    } else {
        let c = s[k];
        if is_digit_char(c) {
            let j = digits_end(s, k);
            if digits_val(s, k, j) <= i64::MAX {
                Some((Node::Val(digits_val(s, k, j) as i64), j))
            } else {
                Some((Node::Invalid, j))
            }
        } else if c == '+' {
            Some((Node::Add, k + 1))
        } else if c == '-' {
            Some((Node::Sub, k + 1))
        } else if c == '*' {
            Some((Node::Mul, k + 1))
        } else if c == '/' {
            Some((Node::Div, k + 1))
        } else if is_upper_char(c) {
            if k + 1 < s.len() && '1' <= s[k + 1] && s[k + 1] <= '9' {
                Some(
                    (
                        Node::Cell(
                            (c as int - 'A' as int) as usize,
                            (digit_val(s[k + 1]) - 1) as usize,
                        ),
                        k + 2,
                    ),
                )
            } else {
                Some((Node::Invalid, k + 1))
            }
        } else {
            Some((Node::Invalid, k + 1))
        }
    }
}

/// A token always lies within the text and takes at least one character.
pub proof fn lemma_token_at_bounds(s: Seq<char>, i: int)
    requires
        0 <= i <= s.len(),
    ensures
        match token_at(s, i) {
            None => true,
            Some((t, j)) => i < j <= s.len(),
        },
{
    lemma_skip_ws_bounds(s, i);
    let k = skip_ws(s, i);
    if k < s.len() && is_digit_char(s[k]) {
        lemma_digits_end_bounds(s, k + 1);
        assert(digits_end(s, k) == digits_end(s, k + 1));
    }
}

/// The tokens of the whole text from index `i` on.  The sequence stops at
/// the first invalid token: the compiler gives up there, so later characters
/// are never examined.
pub open spec fn tokens_from(s: Seq<char>, i: int) -> Seq<Node>
    decreases s.len() - i,
    when 0 <= i <= s.len()
{
    match token_at(s, i) {
        None => seq![],
        Some((t, j)) => if t is Invalid {
            seq![Node::Invalid]
        } else {
            proof {
                lemma_token_at_bounds(s, i);
            }
            seq![t] + tokens_from(s, j)
        },
    }
}

/// No payload constraint a node must meet beyond its type: a cell reference
/// stays in the range the tokenizer can produce, column 0-25 and row 0-8.
pub open spec fn cell_ok(n: Node) -> bool {
    match n {
        Node::Cell(x, y) => x < 26 && y < 9,
        _ => true,
    }
}

/// Every cell reference among the nodes lies in the tokenizer's range.
pub open spec fn cells_in_range(p: Seq<Node>) -> bool {
    forall|i: int| 0 <= i < p.len() ==> cell_ok(#[trigger] p[i])
}

/// Every token the tokenizer produces satisfies [`cell_ok`].
pub proof fn lemma_tokens_cells_in_range(s: Seq<char>, i: int)
    requires
        0 <= i <= s.len(),
    ensures
        cells_in_range(tokens_from(s, i)),
    decreases s.len() - i,
{
    match token_at(s, i) {
        None => {},
        Some((t, j)) => {
            if !(t is Invalid) {
                lemma_token_at_bounds(s, i);
                lemma_tokens_cells_in_range(s, j);
                assert forall|k: int| 0 <= k < tokens_from(s, i).len() implies cell_ok(
                    #[trigger] tokens_from(s, i)[k],
                ) by {
                    if k > 0 {
                        assert(tokens_from(s, i)[k] == tokens_from(s, j)[k - 1]);
                    }
                }
            }
        },
    }
}

/// Splits the operator stack for an incoming operator of precedence `p`:
/// the first component is what gets popped to the output (in pop order,
/// topmost first), the operators that bind at least as tightly as the
/// incoming one; the second component is what remains on the stack.
pub open spec fn stack_split(st: Seq<Node>, p: int) -> (Seq<Node>, Seq<Node>)
    decreases st.len(),
{
    if st.len() == 0 || !(st.last().precedence_spec() <= p) {
        (Seq::empty(), st)
    } else {
        let dr = stack_split(st.drop_last(), p);
        (seq![st.last()] + dr.0, dr.1)
    }
}

/// One step of the operator-precedence (shunting-yard) compilation over the
/// remaining tokens, given the output and operator stack built so far:
/// - operands are appended to the output;
/// - an operator first pops every stacked operator that binds at least as
///   tightly (equal precedence pops too, so equal-precedence operators
///   associate left-to-right), then is pushed onto the stack;
/// - the invalid token fails the whole compilation;
/// - at the end of input the stack is drained to the output in pop order.
pub open spec fn spec_shunt(ts: Seq<Node>, out: Seq<Node>, st: Seq<Node>) -> Option<Seq<Node>>
    decreases ts.len(),
{
    if ts.len() == 0 {
        Some(out + crate::text::rev(st))
    } else {
        match ts[0] {
            Node::Invalid => None,
            Node::Val(_) => spec_shunt(ts.drop_first(), out.push(ts[0]), st),
            Node::Cell(_, _) => spec_shunt(ts.drop_first(), out.push(ts[0]), st),
            _ => {
                let dr = stack_split(st, ts[0].precedence_spec());
                spec_shunt(ts.drop_first(), out + dr.0, dr.1.push(ts[0]))
            },
        }
    }
}

/// The compiled postfix program for formula text `s`, or nothing when the
/// text fails to tokenize or compile.
pub open spec fn spec_parse(s: Seq<char>) -> Option<Seq<Node>> {
    spec_shunt(tokens_from(s, 0), Seq::empty(), Seq::empty())
}

/// All nodes of a sequence satisfy `f`.
pub open spec fn all_nodes(p: Seq<Node>, f: spec_fn(Node) -> bool) -> bool {
    forall|i: int| 0 <= i < p.len() ==> f(#[trigger] p[i])
}

pub proof fn lemma_rev_all(st: Seq<Node>, f: spec_fn(Node) -> bool)
    requires
        all_nodes(st, f),
    ensures
        all_nodes(crate::text::rev(st), f),
    decreases st.len(),
{
    if st.len() > 0 {
        assert(all_nodes(st.drop_last(), f));
        lemma_rev_all(st.drop_last(), f);
        let r = crate::text::rev(st);
        assert forall|k: int| 0 <= k < r.len() implies f(#[trigger] r[k]) by {
            if k > 0 {
                assert(r[k] == crate::text::rev(st.drop_last())[k - 1]);
            }
        }
    }
}

pub proof fn lemma_split_all(st: Seq<Node>, p: int, f: spec_fn(Node) -> bool)
    requires
        all_nodes(st, f),
    ensures
        all_nodes(stack_split(st, p).0, f),
        all_nodes(stack_split(st, p).1, f),
    decreases st.len(),
{
    if st.len() == 0 || !(st.last().precedence_spec() <= p) {
    } else {
        assert(all_nodes(st.drop_last(), f));
        lemma_split_all(st.drop_last(), p, f);
        let d = stack_split(st, p).0;
        assert forall|k: int| 0 <= k < d.len() implies f(#[trigger] d[k]) by {
            if k > 0 {
                assert(d[k] == stack_split(st.drop_last(), p).0[k - 1]);
            }
        }
    }
}

/// The compiler only rearranges tokens: a property of every token and of
/// everything already in the output and on the stack holds of every
/// instruction of the compiled program.
pub proof fn lemma_shunt_all(ts: Seq<Node>, out: Seq<Node>, st: Seq<Node>, f: spec_fn(Node) -> bool)
    requires
        all_nodes(ts, f),
        all_nodes(out, f),
        all_nodes(st, f),
    ensures
        match spec_shunt(ts, out, st) {
            Some(r) => all_nodes(r, f),
            None => true,
        },
    decreases ts.len(),
{
    if ts.len() == 0 {
        lemma_rev_all(st, f);
        let r = out + crate::text::rev(st);
        assert forall|k: int| 0 <= k < r.len() implies f(#[trigger] r[k]) by {
            if k >= out.len() {
                assert(r[k] == crate::text::rev(st)[k - out.len()]);
            }
        }
    } else {
        assert(all_nodes(ts.drop_first(), f)) by {
            assert forall|k: int| 0 <= k < ts.drop_first().len() implies f(
                #[trigger] ts.drop_first()[k],
            ) by {
                assert(ts.drop_first()[k] == ts[k + 1]);
            }
        }
        match ts[0] {
            Node::Invalid => {},
            Node::Val(_) => {
                lemma_shunt_all(ts.drop_first(), out.push(ts[0]), st, f);
            },
            Node::Cell(_, _) => {
                lemma_shunt_all(ts.drop_first(), out.push(ts[0]), st, f);
            },
            _ => {
                let dr = stack_split(st, ts[0].precedence_spec());
                lemma_split_all(st, ts[0].precedence_spec(), f);
                let o2 = out + dr.0;
                assert forall|k: int| 0 <= k < o2.len() implies f(#[trigger] o2[k]) by {
                    if k >= out.len() {
                        assert(o2[k] == dr.0[k - out.len()]);
                    }
                }
                lemma_shunt_all(ts.drop_first(), o2, dr.1.push(ts[0]), f);
            },
        }
    }
}

/// A compiled formula: the postfix program ready for stack evaluation, or
/// the marker that compilation failed.  Immutable once built.
#[derive(Debug)]
pub struct ByteCode {
    code: Result<Vec<Node>, ()>,
}

impl ByteCode {
    /// The postfix program, or nothing for a failed compilation.
    pub closed spec fn code_spec(self) -> Option<Seq<Node>> {
        match self.code {
            Ok(v) => Some(v@),
            Err(_) => None,
        }
    }

    /// Every cell reference in the program lies in the tokenizer's range;
    /// [`parse`] establishes this and nothing else builds programs.
    pub open spec fn wf(self) -> bool {
        match self.code_spec() {
            Some(p) => cells_in_range(p),
            None => true,
        }
    }
}

/// Runs a postfix program against a grid snapshot, starting from the given
/// operand stack:
/// - a number literal pushes its value;
/// - a cell reference pushes the referenced cell's current numeric value,
///   or fails with `CellNotFound` when the cell has none;
/// - an operator pops its right operand, then its left, and pushes the
///   result (failing with `OutOfStack` below two operands, or with the
///   operator's own failure);
/// - the invalid instruction fails with `NotImpemented` (it never occurs in
///   a compiled program);
/// - at the end the stack's top is the result, and an empty stack is the
///   `OutOfStack` failure.
pub open spec fn spec_run(
    prog: Seq<Node>,
    grid: Seq<(u16, Vec<crate::sheet::Cell>)>,
    stack: Seq<i64>,
) -> Result<i64, ExecutionError>
    decreases prog.len(),
{
    if prog.len() == 0 {
        if stack.len() == 0 {
            Err(ExecutionError::OutOfStack)
        } else {
            Ok(stack.last())
        }
    } else {
        match prog[0] {
            Node::Val(v) => spec_run(prog.drop_first(), grid, stack.push(v)),
            Node::Cell(x, y) => match crate::sheet::grid_val(grid, x as int, y as int) {
                Some(v) => spec_run(prog.drop_first(), grid, stack.push(v)),
                None => Err(ExecutionError::CellNotFound),
            },
            Node::Invalid => Err(ExecutionError::NotImpemented),
            op => if stack.len() < 2 {
                Err(ExecutionError::OutOfStack)
            } else {
                match op.apply_op_spec(stack[stack.len() - 2], stack[stack.len() - 1]) {
                    Ok(v) => spec_run(
                        prog.drop_first(),
                        grid,
                        stack.take(stack.len() - 2).push(v),
                    ),
                    Err(e) => Err(e),
                }
            },
        }
    }
}

/// What executing a compile result against a grid snapshot yields: the
/// program run on an empty stack, or `CompilationError` for a compilation
/// that failed.
pub open spec fn spec_execute_code(
    code: Option<Seq<Node>>,
    grid: Seq<(u16, Vec<crate::sheet::Cell>)>,
) -> Result<i64, ExecutionError> {
    match code {
        Some(p) => spec_run(p, grid, Seq::empty()),
        None => Err(ExecutionError::CompilationError),
    }
}

/// What executing a compiled program against a grid snapshot yields.
pub open spec fn spec_execute(
    bc: ByteCode,
    grid: Seq<(u16, Vec<crate::sheet::Cell>)>,
) -> Result<i64, ExecutionError> {
    spec_execute_code(bc.code_spec(), grid)
}

/// The positions of the cell references among the nodes, in program order.
pub open spec fn cell_positions(p: Seq<Node>) -> Seq<(u16, u16)>
    decreases p.len(),
{
    if p.len() == 0 {
        Seq::empty()
    } else {
        cell_positions(p.drop_last()) + (match p.last() {
            Node::Cell(x, y) => seq![(x as u16, y as u16)],
            _ => Seq::empty(),
        })
    }
}

/// The cell positions a compiled program reads; nothing for a failed
/// compilation.
pub open spec fn spec_deps(code: Option<Seq<Node>>) -> Seq<(u16, u16)> {
    match code {
        Some(p) => cell_positions(p),
        None => Seq::empty(),
    }
}

impl ByteCode {
    /// Executes the compiled program against a grid snapshot (read-only for
    /// the grid) and yields the result described by [`spec_execute`].
    pub fn execute(&self, sheet: &crate::sheet::Sheet) -> (r: Result<i64, ExecutionError>)
        ensures
            r == spec_execute(*self, sheet.grid()),
    {
        match &self.code {
            Ok(expr) => {
                let mut stack: Vec<i64> = Vec::new();
                let mut i: usize = 0;
                proof {
                    assert(expr@.skip(0) =~= expr@);
                }
                while i < expr.len()
                    invariant
                        i <= expr@.len(),
                        self.code_spec() == Some(expr@),
                        spec_run(expr@.skip(i as int), sheet.grid(), stack@) == spec_run(
                            expr@,
                            sheet.grid(),
                            Seq::empty(),
                        ),
                    decreases expr@.len() - i,
                {
                    let n: Node = expr[i];
                    proof {
                        assert(expr@.skip(i as int)[0] == expr@[i as int]);
                        assert(expr@.skip(i as int).drop_first() =~= expr@.skip(i + 1 as int));
                    }
                    if let Node::Cell(x, y) = n {
                        match sheet.val_at(x, y) {
                            Some(c) => stack.push(c),
                            None => {
                                return Err(ExecutionError::CellNotFound);
                            },
                        }
                    } else if n.is_op() {
                        let v: i64 = match n.calc(&mut stack) {
                            Ok(v) => v,
                            Err(e) => {
                                return Err(e);
                            },
                        };
                        stack.push(v);
                    } else {
                        let v: i64 = match n.eval() {
                            Ok(v) => v,
                            Err(e) => {
                                return Err(e);
                            },
                        };
                        stack.push(v);
                    }
                    i = i + 1;
                }
                proof {
                    assert(expr@.skip(expr@.len() as int) =~= Seq::<Node>::empty());
                }
                if stack.len() == 0 {
                    Err(ExecutionError::OutOfStack)
                } else {
                    Ok(stack[stack.len() - 1])
                }
            },
            Err(_) => Err(ExecutionError::CompilationError),
        }
    }

    /// The cell positions the program reads, in program order; `pos` is the
    /// position of the owning cell (kept for call-site symmetry, the result
    /// does not depend on it).
    pub fn deps(&self, pos: (u16, u16)) -> (r: Vec<(u16, u16)>)
        requires
            self.wf(),
        ensures
            r@ == spec_deps(self.code_spec()),
    {
        match &self.code {
            Ok(expr) => {
                let mut r: Vec<(u16, u16)> = Vec::new();
                let mut i: usize = 0;
                while i < expr.len()
                    invariant
                        i <= expr@.len(),
                        cells_in_range(expr@),
                        r@ == cell_positions(expr@.take(i as int)),
                    decreases expr@.len() - i,
                {
                    let n: Node = expr[i];
                    match n {
                        Node::Cell(x, y) => {
                            assert(cell_ok(expr@[i as int]));
                            r.push(((x as u16), (y as u16)));
                        },
                        _ => {},
                    }
                    proof {
                        assert(expr@.take(i + 1 as int).drop_last() =~= expr@.take(i as int));
                        assert(expr@.take(i + 1 as int).last() == expr@[i as int]);
                        assert(r@ =~= cell_positions(expr@.take(i + 1 as int)));
                    }
                    i = i + 1;
                }
                proof {
                    assert(expr@.take(expr@.len() as int) =~= expr@);
                }
                r
            },
            Err(_) => Vec::new(),
        }
    }
}

/// Compiles formula text into a postfix program.  Compilation fails exactly
/// when the text holds an invalid token: an unrecognized character, a
/// malformed cell reference, or a number literal too large for an `i64`.
pub fn parse(expr: &str) -> (r: ByteCode)
    ensures
        r.code_spec() == spec_parse(expr@),
        r.wf(),
{
    let ghost s = expr@;
    let mut expression: Vec<Node> = Vec::new();
    let mut stack: Vec<Node> = Vec::new();
    let mut lexer = Lexer::new(expr);
    proof {
        lemma_tokens_cells_in_range(s, 0);
    }
    loop
        invariant
            s == expr@,
            lexer.wf(),
            lexer.src() == s,
            spec_shunt(tokens_from(s, lexer.cursor()), expression@, stack@) == spec_parse(s),
            cells_in_range(expression@),
            cells_in_range(stack@),
        decreases s.len() - lexer.cursor(),
    {
        let ghost cur = lexer.cursor();
        proof {
            lemma_token_at_bounds(s, cur);
        }
        let tok = lexer.next();
        match tok {
            None => {
                // End of input: drain the remaining operators to the output
                // in pop order.
                let ghost out1 = expression@;
                let ghost st1 = stack@;
                assert(tokens_from(s, cur) =~= Seq::<Node>::empty());
                while stack.len() > 0
                    invariant
                        expression@ + crate::text::rev(stack@) == out1 + crate::text::rev(st1),
                        cells_in_range(expression@),
                        cells_in_range(stack@),
                    decreases stack.len(),
                {
                    let ghost est = expression@;
                    let ghost sst = stack@;
                    let top = stack.pop();
                    match top {
                        Some(t) => {
                            expression.push(t);
                            proof {
                                assert(cell_ok(t)) by {
                                    assert(t == sst[sst.len() - 1]);
                                }
                                assert(expression@ + crate::text::rev(stack@) =~= est
                                    + crate::text::rev(sst));
                                assert(cells_in_range(expression@)) by {
                                    assert forall|k: int| 0 <= k < expression@.len() implies cell_ok(
                                        #[trigger] expression@[k],
                                    ) by {
                                        if k < est.len() {
                                            assert(expression@[k] == est[k]);
                                        }
                                    }
                                }
                                assert(cells_in_range(stack@)) by {
                                    assert forall|k: int| 0 <= k < stack@.len() implies cell_ok(
                                        #[trigger] stack@[k],
                                    ) by {
                                        assert(stack@[k] == sst[k]);
                                    }
                                }
                            }
                        },
                        None => {
                            // a non-empty stack always pops a value
                            assert(false);
                        },
                    }
                }
                assert(expression@ =~= out1 + crate::text::rev(st1));
                return ByteCode { code: Ok(expression) };
            },
            Some(n) => {
                if let Node::Invalid = n {
                    return ByteCode { code: Err(()) };
                } else if !n.is_op() {
                    let ghost est = expression@;
                    expression.push(n);
                    proof {
                        assert(n == tokens_from(s, cur)[0]);
                        assert(tokens_from(s, cur).drop_first() =~= tokens_from(
                            s,
                            lexer.cursor(),
                        ));
                        assert(cells_in_range(expression@)) by {
                            assert forall|k: int| 0 <= k < expression@.len() implies cell_ok(
                                #[trigger] expression@[k],
                            ) by {
                                if k < est.len() {
                                    assert(expression@[k] == est[k]);
                                }
                            }
                        }
                    }
                } else {
                    let p: u8 = n.precedence();
                    let ghost out0 = expression@;
                    let ghost st0 = stack@;
                    while stack.len() > 0 && stack[stack.len() - 1].precedence() <= p
                        invariant
                            expression@ + stack_split(stack@, p as int).0 == out0
                                + stack_split(st0, p as int).0,
                            stack_split(stack@, p as int).1 == stack_split(st0, p as int).1,
                            cells_in_range(expression@),
                            cells_in_range(stack@),
                        decreases stack.len(),
                    {
                        let ghost est = expression@;
                        let ghost sst = stack@;
                        let top = stack.pop();
                        match top {
                            Some(t) => {
                                expression.push(t);
                                proof {
                                    assert(t == sst[sst.len() - 1]);
                                    assert(sst.drop_last() =~= stack@);
                                    assert(expression@ + stack_split(stack@, p as int).0 =~= est
                                        + stack_split(sst, p as int).0);
                                    assert(cells_in_range(expression@)) by {
                                        assert forall|k: int|
                                            0 <= k < expression@.len() implies cell_ok(
                                            #[trigger] expression@[k],
                                        ) by {
                                            if k < est.len() {
                                                assert(expression@[k] == est[k]);
                                            }
                                        }
                                    }
                                    assert(cells_in_range(stack@)) by {
                                        assert forall|k: int| 0 <= k < stack@.len() implies cell_ok(
                                            #[trigger] stack@[k],
                                        ) by {
                                            assert(stack@[k] == sst[k]);
                                        }
                                    }
                                }
                            },
                            None => {
                                assert(false);
                            },
                        }
                    }
                    let ghost sst2 = stack@;
                    stack.push(n);
                    proof {
                        assert(n == tokens_from(s, cur)[0]);
                        assert(tokens_from(s, cur).drop_first() =~= tokens_from(
                            s,
                            lexer.cursor(),
                        ));
                        assert(expression@ =~= expression@ + stack_split(sst2, p as int).0);
                        assert(cells_in_range(stack@)) by {
                            assert forall|k: int| 0 <= k < stack@.len() implies cell_ok(
                                #[trigger] stack@[k],
                            ) by {
                                if k < sst2.len() {
                                    assert(stack@[k] == sst2[k]);
                                }
                            }
                        }
                    }
                }
            },
        }
    }
}

/// A cursor over formula text that hands out one token at a time.
#[derive(Debug)]
pub struct Lexer {
    chars: Vec<char>,
    pos: usize,
}

impl Lexer {
    /// The formula text being tokenized.
    pub closed spec fn src(self) -> Seq<char> {
        self.chars@
    }

    /// Index of the next character to examine.
    pub closed spec fn cursor(self) -> int {
        self.pos as int
    }

    /// The cursor never passes the end of the text.
    pub open spec fn wf(self) -> bool {
        0 <= self.cursor() <= self.src().len()
    }

    pub fn new(s: &str) -> (r: Lexer)
        ensures
            r.src() == s@,
            r.cursor() == 0,
            r.wf(),
    {
        Lexer { chars: crate::text::chars_of(s), pos: 0 }
    }

    /// The next token, with the cursor advanced past it; nothing once the
    /// text is exhausted.
    pub fn next(&mut self) -> (t: Option<Node>)
        requires
            old(self).wf(),
        ensures
            final(self).wf(),
            final(self).src() == old(self).src(),
            match token_at(old(self).src(), old(self).cursor()) {
                None => t is None && final(self).cursor() == old(self).src().len(),
                Some((tok, j)) => t == Some(tok) && final(self).cursor() == j,
            },
    {
        let ghost s0 = self.chars@;
        let ghost c0 = self.pos as int;
        proof {
            lemma_skip_ws_bounds(s0, c0);
        }
        while self.pos < self.chars.len() && crate::text::is_ws(self.chars[self.pos])
            invariant
                self.chars@ == s0,
                c0 <= self.pos <= s0.len(),
                skip_ws(s0, c0) == skip_ws(s0, self.pos as int),
            decreases s0.len() - self.pos,
        {
            self.pos = self.pos + 1;
        }
        assert(self.pos as int == skip_ws(s0, c0));
        if self.pos == self.chars.len() {
            return None;
        }
        let c: char = self.chars[self.pos];
        if crate::text::is_digit(c) {
            let ghost start = self.pos as int;
            proof {
                lemma_digits_end_bounds(s0, start);
            }
            let mut acc: i64 = 0;
            let mut of: bool = false;
            while self.pos < self.chars.len() && crate::text::is_digit(self.chars[self.pos])
                invariant
                    self.chars@ == s0,
                    start <= self.pos <= s0.len(),
                    digits_end(s0, start) == digits_end(s0, self.pos as int),
                    !of ==> 0 <= acc && acc as int == digits_val(s0, start, self.pos as int),
                    of ==> digits_val(s0, start, self.pos as int) > i64::MAX,
                decreases s0.len() - self.pos,
            {
                let d: u8 = crate::text::digit_of(self.chars[self.pos]);
                if !of {
                    if acc > 922337203685477580i64 || (acc == 922337203685477580i64 && d > 7) {
                        of = true;
                    } else {
                        acc = acc * 10 + (d as i64);
                    }
                }
                self.pos = self.pos + 1;
            }
            assert(self.pos as int == digits_end(s0, start));
            if of {
                Some(Node::Invalid)
            } else {
                Some(Node::Val(acc))
            }
        } else if c == '+' {
            self.pos = self.pos + 1;
            Some(Node::Add)
        } else if c == '-' {
            self.pos = self.pos + 1;
            Some(Node::Sub)
        } else if c == '*' {
            self.pos = self.pos + 1;
            Some(Node::Mul)
        } else if c == '/' {
            self.pos = self.pos + 1;
            Some(Node::Div)
        } else if crate::text::is_upper(c) {
            if self.pos + 1 < self.chars.len() {
                let c2: char = self.chars[self.pos + 1];
                if c2 >= '1' && c2 <= '9' {
                    assert(c as int == c as u32 as int);
                    let col: usize = (c as u32 - 65) as usize;
                    let row: usize = (crate::text::digit_of(c2) - 1) as usize;
                    self.pos = self.pos + 2;
                    return Some(Node::Cell(col, row));
                }
            }
            self.pos = self.pos + 1;
            Some(Node::Invalid)
        } else {
            self.pos = self.pos + 1;
            Some(Node::Invalid)
        }
    }
}

/// Compiling the same formula text twice yields programs that evaluate
/// identically against any grid: compilation is a function of the text
/// alone, so equal texts give interchangeable programs.
pub proof fn lemma_compile_idempotent(
    b1: ByteCode,
    b2: ByteCode,
    s: Seq<char>,
    grid: Seq<(u16, Vec<crate::sheet::Cell>)>,
)
    requires
        b1.code_spec() == spec_parse(s),
        b2.code_spec() == spec_parse(s),
    ensures
        spec_execute(b1, grid) == spec_execute(b2, grid),
{
}

/// A program free of cell references evaluates identically against any two
/// grids, from any starting stack: constants fold the same way whatever the
/// grid holds.
pub proof fn lemma_run_grid_independent(
    prog: Seq<Node>,
    g1: Seq<(u16, Vec<crate::sheet::Cell>)>,
    g2: Seq<(u16, Vec<crate::sheet::Cell>)>,
    stack: Seq<i64>,
)
    requires
        forall|i: int| 0 <= i < prog.len() ==> !((#[trigger] prog[i]) is Cell),
    ensures
        spec_run(prog, g1, stack) == spec_run(prog, g2, stack),
    decreases prog.len(),
{
    if prog.len() > 0 {
        assert(forall|i: int|
            0 <= i < prog.drop_first().len() ==> !((#[trigger] prog.drop_first()[i]) is Cell))
            by {
            assert(forall|i: int|
                0 <= i < prog.drop_first().len() ==> prog.drop_first()[i] == (
                #[trigger] prog.drop_first()[i]) && prog.drop_first()[i] == prog[i + 1]);
        }
        match prog[0] {
            Node::Val(v) => {
                lemma_run_grid_independent(prog.drop_first(), g1, g2, stack.push(v));
            },
            Node::Cell(_, _) => {
                assert(prog[0] is Cell);
            },
            Node::Invalid => {},
            op => {
                if stack.len() >= 2 {
                    match op.apply_op_spec(stack[stack.len() - 2], stack[stack.len() - 1]) {
                        Ok(v) => {
                            lemma_run_grid_independent(
                                prog.drop_first(),
                                g1,
                                g2,
                                stack.take(stack.len() - 2).push(v),
                            );
                        },
                        Err(_) => {},
                    }
                }
            },
        }
    }
}

/// A formula text whose tokens include no cell reference compiles to a
/// program whose evaluation is independent of the grid's contents.
pub proof fn lemma_constant_formula_grid_independent(
    s: Seq<char>,
    g1: Seq<(u16, Vec<crate::sheet::Cell>)>,
    g2: Seq<(u16, Vec<crate::sheet::Cell>)>,
)
    requires
        forall|i: int|
            0 <= i < tokens_from(s, 0).len() ==> !((#[trigger] tokens_from(s, 0)[i]) is Cell),
    ensures
        spec_execute_code(spec_parse(s), g1) == spec_execute_code(spec_parse(s), g2),
{
    let f = |n: Node| !(n is Cell);
    assert(all_nodes(tokens_from(s, 0), f));
    assert(all_nodes(Seq::<Node>::empty(), f));
    lemma_shunt_all(tokens_from(s, 0), Seq::empty(), Seq::empty(), f);
    match spec_parse(s) {
        Some(p) => {
            assert forall|i: int| 0 <= i < p.len() implies !((#[trigger] p[i]) is Cell) by {
                assert(f(p[i]));
            }
            lemma_run_grid_independent(p, g1, g2, Seq::empty());
        },
        None => {},
    }
}

} // verus!
