//! The grid: cells, compiled expressions bundled with their source text,
//! and the dependency graph with its cycle check.
use vstd::prelude::*;
use vstd::string::StrSliceExecFns;
use std::rc::Rc;

use crate::calc::{parse, spec_parse, ByteCode, ExecutionError, Node};
use crate::text::dec_str;

verus! {

/// A compiled formula together with its source text (the leading marker
/// included).  Immutable once built; the cell that holds it shares it by
/// reference, and the cached evaluation outcome lives in the cell, not here.
#[derive(Debug)]
pub struct Expression {
    text: String,
    run: ByteCode,
}

impl Expression {
    /// The formula's source text, marker included.
    pub closed spec fn text_spec(self) -> Seq<char> {
        self.text@
    }

    /// The compiled postfix program, or nothing for a failed compilation.
    pub closed spec fn code_spec(self) -> Option<Seq<Node>> {
        self.run.code_spec()
    }

    /// Cell references in the program stay in the tokenizer's range.
    pub closed spec fn wf(self) -> bool {
        self.run.wf()
    }

    /// Compiles `text`, which must begin with the formula marker character;
    /// the program is compiled from everything after that first character.
    pub fn new(text: String) -> (r: Expression)
        requires
            text@.len() >= 1,
        ensures
            r.text_spec() == text@,
            r.code_spec() == spec_parse(text@.subrange(1, text@.len() as int)),
            r.wf(),
    {
        let n: usize = text.as_str().unicode_len();
        let tail: &str = text.as_str().substring_char(1, n);
        let run = parse(tail);
        Expression { text, run }
    }

    /// The grid positions this expression's formula reads, in program order;
    /// `self_pos` is the position of the cell holding the expression (kept
    /// for call-site symmetry, the result does not depend on it).
    pub fn deps(&self, self_pos: (u16, u16)) -> (r: Vec<(u16, u16)>)
        requires
            self.wf(),
        ensures
            r@ == crate::calc::spec_deps(self.code_spec()),
    {
        self.run.deps(self_pos)
    }

    /// The source text, for display.
    pub fn text(&self) -> (r: &String)
        ensures
            r@ == self.text_spec(),
    {
        &self.text
    }
}

/// One grid cell: empty, an integer value, raw text, or a formula holding a
/// shared compiled expression plus its cached evaluation outcome.  The cache
/// is written exactly once per insertion, by the grid, right after the
/// dependency checks.
#[derive(Debug)]
pub enum Cell {
    Empty,
    Val(i64),
    Text(String),
    Expression(Rc<Expression>, Result<i64, ExecutionError>),
}

impl Cell {
    /// The numeric value a reading formula sees: an integer cell's value or
    /// a formula cell's cached numeric result.  Empty cells, text cells and
    /// formulas whose cached outcome is an error have none.
    pub open spec fn val_spec(self) -> Option<i64> {
        match self {
            Cell::Empty => None,
            Cell::Val(v) => Some(v),
            Cell::Text(_) => None,
            Cell::Expression(_, r) => match r {
                Ok(v) => Some(v),
                Err(_) => None,
            },
        }
    }

    /// The current numeric value of the cell, if it has one.
    pub fn val(&self) -> (r: Option<i64>)
        ensures
            r == self.val_spec(),
    {
        match self {
            Cell::Empty => None,
            Cell::Val(v) => Some(*v),
            Cell::Text(_) => None,
            Cell::Expression(_, res) => match res {
                Ok(v) => Some(*v),
                Err(_) => None,
            },
        }
    }

    /// Numbers and formulas are displayed right-justified; text is not.
    pub open spec fn justify_right_spec(self) -> bool {
        match self {
            Cell::Text(_) => false,
            _ => true,
        }
    }

    pub fn justify_right(&self) -> (r: bool)
        ensures
            r == self.justify_right_spec(),
    {
        match self {
            Cell::Empty => true,
            Cell::Val(_) => true,
            Cell::Text(_) => false,
            Cell::Expression(_, _) => true,
        }
    }

    /// The cell's canonical text for editing re-entry: nothing, the raw
    /// number, the raw text, or the formula's source text with its marker.
    pub open spec fn entry_spec(self) -> Seq<char> {
        match self {
            Cell::Empty => Seq::empty(),
            Cell::Val(v) => dec_str(v as int),
            Cell::Text(s) => s@,
            Cell::Expression(e, _) => e.text_spec(),
        }
    }

    pub fn entry(&self) -> (r: String)
        ensures
            r@ == self.entry_spec(),
    {
        match self {
            Cell::Empty => String::new(),
            Cell::Val(v) => crate::text::int_to_string(*v),
            Cell::Text(s) => s.clone(),
            Cell::Expression(e, _) => e.text().clone(),
        }
    }

    /// The cell's display rendering: `---` for an empty cell, the value for
    /// integers and formulas whose cached outcome is numeric, the raw text,
    /// and `#Error` for a formula whose cached outcome is a failure.
    pub open spec fn display_spec(self) -> Seq<char> {
        match self {
            Cell::Empty => "---"@,
            Cell::Val(v) => dec_str(v as int),
            Cell::Text(s) => s@,
            Cell::Expression(_, r) => match r {
                Ok(v) => dec_str(v as int),
                Err(_) => "#Error"@,
            },
        }
    }

    pub fn display(&self) -> (r: String)
        ensures
            r@ == self.display_spec(),
    {
        match self {
            Cell::Empty => String::from_str("---"),
            Cell::Val(v) => crate::text::int_to_string(*v),
            Cell::Text(s) => s.clone(),
            Cell::Expression(_, res) => match res {
                Ok(v) => crate::text::int_to_string(*v),
                Err(_) => String::from_str("#Error"),
            },
        }
    }
}

/// The numeric value the grid yields for the cell at `(x, y)`: the cell's
/// value when the position lies inside the grid, nothing otherwise.
pub open spec fn grid_val(grid: Seq<(u16, Vec<Cell>)>, x: int, y: int) -> Option<i64> {
    if 0 <= x && x < grid.len() && 0 <= y && y < grid[x].1@.len() {
        grid[x].1@[y].val_spec()
    } else {
        None
    }
}

/// The dependency store as a map, last entry for a key winning (the store
/// keeps each key at most once, so order never matters).
pub open spec fn assoc_map(s: Seq<((u16, u16), Vec<(u16, u16)>)>) -> Map<
    (u16, u16),
    Seq<(u16, u16)>,
>
    decreases s.len(),
{
    if s.len() == 0 {
        Map::empty()
    } else {
        assoc_map(s.drop_last()).insert(s.last().0, s.last().1@)
    }
}

/// Each key appears at most once in the dependency store.
pub open spec fn keys_unique(s: Seq<((u16, u16), Vec<(u16, u16)>)>) -> bool {
    forall|i: int, j: int|
        0 <= i < j < s.len() ==> (#[trigger] s[i]).0 != (#[trigger] s[j]).0
}

/// An entry of the store is what the map view yields for its key.
proof fn lemma_assoc_lookup(s: Seq<((u16, u16), Vec<(u16, u16)>)>, i: int)
    requires
        keys_unique(s),
        0 <= i < s.len(),
    ensures
        assoc_map(s).contains_key(s[i].0),
        assoc_map(s)[s[i].0] == s[i].1@,
    decreases s.len(),
{
    if i < s.len() - 1 {
        assert(keys_unique(s.drop_last()));
        lemma_assoc_lookup(s.drop_last(), i);
        assert(s.drop_last()[i] == s[i]);
    }
}

/// A key on no entry of the store is absent from the map view.
proof fn lemma_assoc_absent(s: Seq<((u16, u16), Vec<(u16, u16)>)>, k: (u16, u16))
    requires
        forall|i: int| 0 <= i < s.len() ==> (#[trigger] s[i]).0 != k,
    ensures
        !assoc_map(s).contains_key(k),
    decreases s.len(),
{
    if s.len() > 0 {
        assert(forall|i: int|
            0 <= i < s.drop_last().len() ==> (#[trigger] s.drop_last()[i]).0 != k);
        lemma_assoc_absent(s.drop_last(), k);
    }
}

/// Replacing the list of entry `i` in place only rebinds its key in the map
/// view.
proof fn lemma_assoc_update(s: Seq<((u16, u16), Vec<(u16, u16)>)>, i: int, v: Vec<(u16, u16)>)
    requires
        keys_unique(s),
        0 <= i < s.len(),
    ensures
        assoc_map(s.update(i, (s[i].0, v))) =~= assoc_map(s).insert(s[i].0, v@),
        keys_unique(s.update(i, (s[i].0, v))),
    decreases s.len(),
{
    let s2 = s.update(i, (s[i].0, v));
    assert(keys_unique(s2)) by {
        assert(forall|a: int| 0 <= a < s2.len() ==> (#[trigger] s2[a]).0 == s[a].0);
    }
    if i == s.len() - 1 {
        assert(s2.drop_last() =~= s.drop_last());
    } else {
        assert(keys_unique(s.drop_last()));
        lemma_assoc_update(s.drop_last(), i, v);
        assert(s2.drop_last() =~= s.drop_last().update(i, (s[i].0, v)));
        assert(s2.last() == s.last());
        // the rebound key differs from the last entry's key, so the two
        // inserts commute
        assert(s[i].0 != s.last().0);
    }
}

/// The grid: the columns, each a display width with its rows of cells, plus
/// the dependency graph the insertion path maintains.  Extents are fixed at
/// construction; the single mutating entry point is [`Sheet::insert_cell`].
#[derive(Debug)]
pub struct Sheet {
    fields: Vec<(u16, Vec<Cell>)>,
    deps: Vec<((u16, u16), Vec<(u16, u16)>)>,
}

impl Sheet {
    /// The cell matrix: the columns, each a display width paired with its
    /// rows of cells.
    pub closed spec fn grid(self) -> Seq<(u16, Vec<Cell>)> {
        self.fields@
    }

    /// Read access to the cell matrix, for rendering.
    pub fn fields(&self) -> (r: &Vec<(u16, Vec<Cell>)>)
        ensures
            r@ == self.grid(),
    {
        &self.fields
    }

    /// The dependency graph as a map from a position to the positions whose
    /// formulas reference it ("reverse edges"), in registration order.
    pub closed spec fn dep_map(self) -> Map<(u16, u16), Seq<(u16, u16)>> {
        assoc_map(self.deps@)
    }

    /// The dependency store holds each key at most once.
    pub closed spec fn wf(self) -> bool {
        keys_unique(self.deps@)
    }

    /// A fresh grid: ten columns, each seven wide with thirty empty rows,
    /// and no dependencies.
    pub fn new() -> (r: Sheet)
        ensures
            r.wf(),
            r.grid().len() == 10,
            forall|x: int|
                0 <= x < 10 ==> (#[trigger] r.grid()[x]).0 == 7 && r.grid()[x].1@.len() == 30,
            forall|x: int, y: int|
                0 <= x < 10 && 0 <= y < 30 ==> (#[trigger] r.grid()[x].1@[y]) is Empty,
            r.dep_map() == Map::<(u16, u16), Seq<(u16, u16)>>::empty(),
    {
        let mut fields: Vec<(u16, Vec<Cell>)> = Vec::new();
        while fields.len() < 10
        invariant
            fields@.len() <= 10,
            forall|x: int|
                0 <= x < fields@.len() ==> (#[trigger] fields@[x]).0 == 7 && fields@[x].1@.len()
                    == 30,
            forall|x: int, y: int|
                0 <= x < fields@.len() && 0 <= y < 30 ==> (#[trigger] fields@[x].1@[y]) is Empty,
        decreases 10 - fields@.len(),
        {
            let mut col: Vec<Cell> = Vec::new();
            while col.len() < 30
                invariant
                    col@.len() <= 30,
                    forall|y: int| 0 <= y < col@.len() ==> (#[trigger] col@[y]) is Empty,
                decreases 30 - col@.len(),
            {
                col.push(Cell::Empty);
            }
            fields.push((7, col));
        }
        Sheet { fields, deps: Vec::new() }
    }

    /// The grid's "numeric value of the cell at a position" query; positions
    /// outside the grid have none.
    pub fn val_at(&self, x: usize, y: usize) -> (r: Option<i64>)
        ensures
            r == grid_val(self.grid(), x as int, y as int),
    {
        if x < self.fields.len() {
            let col: &Vec<Cell> = &self.fields[x].1;
            if y < col.len() {
                col[y].val()
            } else {
                None
            }
        } else {
            None
        }
    }

    /// The cell at a position, for display; nothing outside the grid.
    pub fn cell_at(&self, x: usize, y: usize) -> (r: Option<&Cell>)
        ensures
            match r {
                Some(c) => x < self.grid().len() && y < self.grid()[x as int].1@.len() && *c
                    == self.grid()[x as int].1@[y as int],
                None => !(x < self.grid().len() && y < self.grid()[x as int].1@.len()),
            },
    {
        if x < self.fields.len() {
            let col: &Vec<Cell> = &self.fields[x].1;
            if y < col.len() {
                Some(&col[y])
            } else {
                None
            }
        } else {
            None
        }
    }

    /// Registers the reverse edge "`target` is depended on by `depender`".
    fn add_dependency(&mut self, target: (u16, u16), depender: (u16, u16))
        requires
            old(self).wf(),
        ensures
            final(self).wf(),
            final(self).grid() == old(self).grid(),
            final(self).dep_map() == old(self).dep_map().insert(
                target,
                if old(self).dep_map().contains_key(target) {
                    old(self).dep_map()[target].push(depender)
                } else {
                    seq![depender]
                },
            ),
    {
        let ghost s0 = self.deps@;
        let n: usize = self.deps.len();
        let mut i: usize = 0;
        while i < n
            invariant
                i <= n,
                n == self.deps@.len(),
                self.deps@ == s0,
                old(self).deps@ == s0,
                self.fields@ == old(self).fields@,
                keys_unique(s0),
                forall|j: int| 0 <= j < i ==> (#[trigger] s0[j]).0 != target,
            decreases n - i,
        {
            let k: (u16, u16) = self.deps[i].0;
            if k.0 == target.0 && k.1 == target.1 {
                proof {
                    lemma_assoc_lookup(s0, i as int);
                }
                let ghost old_list = self.deps@[i as int].1@;
                self.deps[i].1.push(depender);
                proof {
                    assert(self.deps@ =~= s0.update(i as int, (target, self.deps@[i as int].1)));
                    lemma_assoc_update(s0, i as int, self.deps@[i as int].1);
                    assert(self.deps@[i as int].1@ =~= old_list.push(depender));
                }
                return ;
            }
            i = i + 1;
        }
        proof {
            lemma_assoc_absent(s0, target);
        }
        let mut fresh: Vec<(u16, u16)> = Vec::new();
        fresh.push(depender);
        self.deps.push((target, fresh));
        proof {
            assert(self.deps@.drop_last() =~= s0);
            assert(keys_unique(self.deps@)) by {
                assert(forall|j: int|
                    0 <= j < s0.len() ==> (#[trigger] self.deps@[j]) == s0[j]);
            }
        }
    }

    /// Unregisters one reverse edge: removes the first occurrence of
    /// `depender` from `target`'s list.  No insertion path calls this yet —
    /// overwriting a formula cell leaves its old edges in place — but it is
    /// the hook for pruning them.
    pub fn remove_dependency(&mut self, target: (u16, u16), depender: (u16, u16))
        requires
            old(self).wf(),
            old(self).dep_map().contains_key(target) ==> old(self).dep_map()[target].contains(
                depender,
            ),
        ensures
            final(self).wf(),
            final(self).grid() == old(self).grid(),
            final(self).dep_map() == if old(self).dep_map().contains_key(target) {
                old(self).dep_map().insert(
                    target,
                    remove_first(old(self).dep_map()[target], depender),
                )
            } else {
                old(self).dep_map()
            },
    {
        let ghost s0 = self.deps@;
        let n: usize = self.deps.len();
        let mut i: usize = 0;
        while i < n
            invariant
                i <= n,
                n == self.deps@.len(),
                self.deps@ == s0,
                old(self).deps@ == s0,
                self.fields@ == old(self).fields@,
                keys_unique(s0),
                old(self).dep_map().contains_key(target) ==> old(self).dep_map()[target].contains(
                    depender,
                ),
                forall|j: int| 0 <= j < i ==> (#[trigger] s0[j]).0 != target,
            decreases n - i,
        {
            let k: (u16, u16) = self.deps[i].0;
            if k.0 == target.0 && k.1 == target.1 {
                proof {
                    lemma_assoc_lookup(s0, i as int);
                }
                let list_len: usize = self.deps[i].1.len();
                let mut p: usize = 0;
                while p < list_len
                    invariant
                        p <= list_len,
                        i < n,
                        n == self.deps@.len(),
                        self.deps@ == s0,
                        old(self).deps@ == s0,
                        self.fields@ == old(self).fields@,
                        keys_unique(s0),
                        s0[i as int].0 == target,
                        list_len == s0[i as int].1@.len(),
                        s0[i as int].1@.contains(depender),
                        forall|q: int|
                            0 <= q < p ==> #[trigger] s0[i as int].1@[q] != depender,
                    decreases list_len - p,
                {
                    let e: (u16, u16) = self.deps[i].1[p];
                    if e.0 == depender.0 && e.1 == depender.1 {
                        let ghost old_list = s0[i as int].1@;
                        self.deps[i].1.remove(p);
                        proof {
                            lemma_assoc_lookup(s0, i as int);
                            lemma_remove_first_at(old_list, depender, p as int);
                            assert(self.deps@ =~= s0.update(
                                i as int,
                                (target, self.deps@[i as int].1),
                            ));
                            lemma_assoc_update(s0, i as int, self.deps@[i as int].1);
                        }
                        return ;
                    }
                    p = p + 1;
                }
                proof {
                    // the list contains `depender`, so the scan cannot fall
                    // off its end
                    let w = choose|w: int|
                        0 <= w < s0[i as int].1@.len() && s0[i as int].1@[w] == depender;
                    assert(false);
                }
            }
            i = i + 1;
        }
        proof {
            lemma_assoc_absent(s0, target);
        }
    }
}

/// The graph records `b` among the positions that depend on `a` (a formula
/// at `b` references `a`).
pub open spec fn edge(g: Map<(u16, u16), Seq<(u16, u16)>>, a: (u16, u16), b: (u16, u16)) -> bool {
    g.contains_key(a) && g[a].contains(b)
}

/// A walk through the graph: at least one position, consecutive positions
/// joined by edges.
pub open spec fn is_walk(g: Map<(u16, u16), Seq<(u16, u16)>>, w: Seq<(u16, u16)>) -> bool {
    w.len() >= 1 && forall|i: int| 0 <= i < w.len() - 1 ==> edge(g, #[trigger] w[i], w[i + 1])
}

/// Some walk joins `a` to `b` (trivially, `a` to itself).
pub open spec fn reaches(g: Map<(u16, u16), Seq<(u16, u16)>>, a: (u16, u16), b: (u16, u16)) -> bool {
    exists|w: Seq<(u16, u16)>| is_walk(g, w) && w.first() == a && w.last() == b
}

/// Committing a formula at `pos` that references the positions `ds` would
/// close a reference cycle: some referenced position is reachable from `pos`
/// over the "depends on me" edges already recorded (`pos` itself included —
/// the self-reference).
pub open spec fn creates_cycle(
    g: Map<(u16, u16), Seq<(u16, u16)>>,
    pos: (u16, u16),
    ds: Seq<(u16, u16)>,
) -> bool {
    exists|i: int| 0 <= i < ds.len() && reaches(g, pos, #[trigger] ds[i])
}

/// Every position reaches itself.
proof fn lemma_reaches_self(g: Map<(u16, u16), Seq<(u16, u16)>>, a: (u16, u16))
    ensures
        reaches(g, a, a),
{
    let w = seq![a];
    assert(is_walk(g, w) && w.first() == a && w.last() == a);
}

/// Reachability extends along an edge.
proof fn lemma_reaches_step(
    g: Map<(u16, u16), Seq<(u16, u16)>>,
    a: (u16, u16),
    b: (u16, u16),
    c: (u16, u16),
)
    requires
        reaches(g, a, b),
        edge(g, b, c),
    ensures
        reaches(g, a, c),
{
    let w = choose|w: Seq<(u16, u16)>| is_walk(g, w) && w.first() == a && w.last() == b;
    let w2 = w.push(c);
    assert(is_walk(g, w2)) by {
        assert forall|i: int| 0 <= i < w2.len() - 1 implies edge(g, #[trigger] w2[i], w2[i + 1]) by {
            if i < w.len() - 1 {
                assert(w2[i] == w[i] && w2[i + 1] == w[i + 1]);
            } else {
                assert(w2[i] == b && w2[i + 1] == c);
            }
        }
    }
    assert(w2.first() == a && w2.last() == c);
}

/// A walk that starts inside a successor-closed collection of positions ends
/// inside it.
proof fn lemma_walk_stays(
    g: Map<(u16, u16), Seq<(u16, u16)>>,
    w: Seq<(u16, u16)>,
    vis: Seq<(u16, u16)>,
)
    requires
        is_walk(g, w),
        vis.contains(w.first()),
        forall|v: (u16, u16), x: (u16, u16)|
            vis.contains(v) && #[trigger] edge(g, v, x) ==> vis.contains(x),
    ensures
        vis.contains(w.last()),
    decreases w.len(),
{
    if w.len() > 1 {
        assert(edge(g, w[0], w[1]));
        assert(vis.contains(w[1]));
        let w2 = w.drop_first();
        assert(is_walk(g, w2)) by {
            assert forall|i: int| 0 <= i < w2.len() - 1 implies edge(
                g,
                #[trigger] w2[i],
                w2[i + 1],
            ) by {
                assert(w2[i] == w[i + 1] && w2[i + 1] == w[i + 2]);
            }
        }
        lemma_walk_stays(g, w2, vis);
    }
}

/// Every position stored in the dependency lists, flattened in store order.
pub open spec fn targets_of(s: Seq<((u16, u16), Vec<(u16, u16)>)>) -> Seq<(u16, u16)>
    decreases s.len(),
{
    if s.len() == 0 {
        Seq::empty()
    } else {
        targets_of(s.drop_last()) + s.last().1@
    }
}

/// An element of any entry's list occurs among the flattened targets.
proof fn lemma_entry_in_targets(s: Seq<((u16, u16), Vec<(u16, u16)>)>, i: int, j: int)
    requires
        0 <= i < s.len(),
        0 <= j < s[i].1@.len(),
    ensures
        targets_of(s).contains(s[i].1@[j]),
    decreases s.len(),
{
    if i == s.len() - 1 {
        assert(targets_of(s)[targets_of(s.drop_last()).len() + j] == s[i].1@[j]);
    } else {
        lemma_entry_in_targets(s.drop_last(), i, j);
        let k = choose|k: int|
            0 <= k < targets_of(s.drop_last()).len() && targets_of(s.drop_last())[k] == s[i].1@[j];
        assert(targets_of(s)[k] == s[i].1@[j]);
    }
}

/// A sequence of distinct positions drawn from a pool is no longer than the
/// pool.
proof fn lemma_bounded_distinct(v: Seq<(u16, u16)>, pool: Seq<(u16, u16)>)
    requires
        v.no_duplicates(),
        forall|k: int| 0 <= k < v.len() ==> pool.contains(#[trigger] v[k]),
    ensures
        v.len() <= pool.len(),
{
    broadcast use vstd::seq_lib::seq_to_set_is_finite;

    v.unique_seq_to_set();
    assert(v.to_set().subset_of(pool.to_set())) by {
        assert forall|x: (u16, u16)| v.to_set().contains(x) implies pool.to_set().contains(x) by {
            let k = choose|k: int| 0 <= k < v.len() && v[k] == x;
            assert(pool.contains(v[k]));
        }
    }
    vstd::set_lib::lemma_len_subset(v.to_set(), pool.to_set());
    pool.lemma_cardinality_of_set();
}

/// Linear membership test for a position list.
fn contains_pos(v: &Vec<(u16, u16)>, p: (u16, u16)) -> (r: bool)
    ensures
        r == v@.contains(p),
{
    let mut i: usize = 0;
    while i < v.len()
        invariant
            i <= v@.len(),
            forall|j: int| 0 <= j < i ==> v@[j] != p,
        decreases v@.len() - i,
    {
        let e: (u16, u16) = v[i];
        if e.0 == p.0 && e.1 == p.1 {
            assert(v@[i as int] == p);
            return true;
        }
        i = i + 1;
    }
    false
}

impl Sheet {
    /// The recorded list of positions that depend on `p`, if any.
    fn dep_list(&self, p: (u16, u16)) -> (r: Option<&Vec<(u16, u16)>>)
        requires
            self.wf(),
        ensures
            match r {
                Some(l) => self.dep_map().contains_key(p) && l@ == self.dep_map()[p],
                None => !self.dep_map().contains_key(p),
            },
    {
        let ghost s0 = self.deps@;
        let n: usize = self.deps.len();
        let mut i: usize = 0;
        while i < n
            invariant
                i <= n,
                n == self.deps@.len(),
                self.deps@ == s0,
                keys_unique(s0),
                forall|j: int| 0 <= j < i ==> (#[trigger] s0[j]).0 != p,
            decreases n - i,
        {
            let k: (u16, u16) = self.deps[i].0;
            if k.0 == p.0 && k.1 == p.1 {
                proof {
                    lemma_assoc_lookup(s0, i as int);
                }
                return Some(&self.deps[i].1);
            }
            i = i + 1;
        }
        proof {
            lemma_assoc_absent(s0, p);
        }
        None
    }

    /// Whether committing a formula at `pos` that references the positions
    /// `ds` would close a reference cycle: an unordered reachability search
    /// that walks the "depends on me" edges outward from `pos` and reports
    /// whether it meets any of `ds`.
    fn is_cyclic(&self, pos: (u16, u16), ds: &Vec<(u16, u16)>) -> (r: bool)
        requires
            self.wf(),
        ensures
            r == creates_cycle(self.dep_map(), pos, ds@),
    {
        let ghost g = self.dep_map();
        let ghost pool = seq![pos] + targets_of(self.deps@);
        let mut visited: Vec<(u16, u16)> = Vec::new();
        let mut work: Vec<(u16, u16)> = Vec::new();
        visited.push(pos);
        work.push(pos);
        proof {
            lemma_reaches_self(g, pos);
            assert(pool[0] == pos);
            assert(visited@[0] == pos);
            assert(work@[0] == pos);
        }
        while work.len() > 0
            invariant
                self.wf(),
                g == self.dep_map(),
                pool == seq![pos] + targets_of(self.deps@),
                visited@.contains(pos),
                visited@.no_duplicates(),
                work@.no_duplicates(),
                forall|k: int| 0 <= k < visited@.len() ==> pool.contains(#[trigger] visited@[k]),
                forall|k: int| 0 <= k < visited@.len() ==> reaches(g, pos, #[trigger] visited@[k]),
                forall|k: int| 0 <= k < work@.len() ==> visited@.contains(#[trigger] work@[k]),
                forall|k: int|
                    0 <= k < visited@.len() && !work@.contains(#[trigger] visited@[k])
                    ==> processed(g, ds@, visited@, visited@[k]),
            decreases pool.len() + 1 - visited@.len(), work@.len(),
        {
            proof {
                lemma_bounded_distinct(visited@, pool);
            }
            let ghost visited0 = visited@;
            let ghost work0 = work@;
            let cur: (u16, u16) = match work.pop() {
                Some(c) => c,
                None => {
                    // a non-empty worklist always pops a value
                    assert(false);
                    (0, 0)
                },
            };
            proof {
                lemma_pop_effect(work0);
                assert(work0.contains(cur)) by {
                    assert(work0[work0.len() - 1] == cur);
                }
                assert(visited@.contains(cur));
                assert(!work@.contains(cur));
            }
            if contains_pos(ds, cur) {
                proof {
                    assert(creates_cycle(g, pos, ds@)) by {
                        let i = choose|i: int| 0 <= i < ds@.len() && ds@[i] == cur;
                        assert(reaches(g, pos, ds@[i]));
                    }
                }
                return true;
            }
            match self.dep_list(cur) {
                Some(succs) => {
                    let ghost sl = succs@;
                    let m: usize = succs.len();
                    let mut q: usize = 0;
                    while q < m
                        invariant
                            q <= m,
                            self.wf(),
                            g == self.dep_map(),
                            pool == seq![pos] + targets_of(self.deps@),
                            g.contains_key(cur),
                            g[cur] == sl,
                            sl == succs@,
                            m == sl.len(),
                            !ds@.contains(cur),
                            visited@.contains(pos),
                            visited@.contains(cur),
                            visited@.no_duplicates(),
                            work@.no_duplicates(),
                            !work@.contains(cur),
                            forall|k: int|
                                0 <= k < visited@.len() ==> pool.contains(#[trigger] visited@[k]),
                            forall|k: int|
                                0 <= k < visited@.len() ==> reaches(g, pos, #[trigger] visited@[k]),
                            forall|k: int|
                                0 <= k < work@.len() ==> visited@.contains(#[trigger] work@[k]),
                            forall|k: int|
                                0 <= k < visited@.len() && !work@.contains(#[trigger] visited@[k])
                                    && visited@[k] != cur ==> processed(
                                    g,
                                    ds@,
                                    visited@,
                                    visited@[k],
                                ),
                            forall|j: int| 0 <= j < q ==> visited@.contains(#[trigger] sl[j]),
                            visited0.len() <= visited@.len(),
                            visited@.len() + work0.len() == visited0.len() + work@.len() + 1,
                        decreases m - q,
                    {
                        let w: (u16, u16) = succs[q];
                        proof {
                            assert(edge(g, cur, w)) by {
                                assert(g[cur][q as int] == w);
                            }
                        }
                        if !contains_pos(&visited, w) {
                            let ghost visited1 = visited@;
                            let ghost work1 = work@;
                            visited.push(w);
                            work.push(w);
                            proof {
                                lemma_push_effect(visited1, w);
                                lemma_push_effect(work1, w);
                                assert(!work1.contains(w)) by {
                                    if work1.contains(w) {
                                        let k = choose|k: int|
                                            0 <= k < work1.len() && work1[k] == w;
                                        assert(visited1.contains(work1[k]));
                                    }
                                }
                                lemma_reaches_step(g, pos, cur, w);
                                lemma_assoc_contains_entry(self.deps@, cur);
                                let ie = choose|i: int|
                                    0 <= i < self.deps@.len() && (#[trigger] self.deps@[i]).0 == cur
                                        && self.deps@[i].1@ == assoc_map(self.deps@)[cur];
                                assert(self.deps@[ie].1@ == sl);
                                lemma_entry_in_targets(self.deps@, ie, q as int);
                                assert(pool.contains(w)) by {
                                    let t = choose|t: int|
                                        0 <= t < targets_of(self.deps@).len() && targets_of(
                                            self.deps@,
                                        )[t] == w;
                                    assert(pool[1 + t] == w);
                                }
                                assert forall|k: int| 0 <= k < visited@.len() implies pool.contains(
                                    #[trigger] visited@[k],
                                ) by {
                                    if k < visited1.len() {
                                        assert(visited@[k] == visited1[k]);
                                    } else {
                                        assert(visited@[k] == w);
                                    }
                                }
                                assert forall|k: int| 0 <= k < visited@.len() implies reaches(
                                    g,
                                    pos,
                                    #[trigger] visited@[k],
                                ) by {
                                    if k < visited1.len() {
                                        assert(visited@[k] == visited1[k]);
                                    } else {
                                        assert(visited@[k] == w);
                                    }
                                }
                                assert forall|k: int| 0 <= k < work@.len() implies visited@.contains(
                                    #[trigger] work@[k],
                                ) by {
                                    if k < work1.len() {
                                        assert(work@[k] == work1[k]);
                                        assert(visited1.contains(work1[k]));
                                    } else {
                                        assert(work@[k] == w);
                                    }
                                }
                                assert forall|k: int|
                                    0 <= k < visited@.len() && !work@.contains(
                                        #[trigger] visited@[k],
                                    ) && visited@[k] != cur implies processed(
                                    g,
                                    ds@,
                                    visited@,
                                    visited@[k],
                                ) by {
                                    assert(visited@[k] != w);
                                    assert(visited@[k] == visited1[k]);
                                    assert(!work1.contains(visited1[k]));
                                    assert(processed(g, ds@, visited1, visited1[k]));
                                    lemma_processed_grow(g, ds@, visited1, visited@, visited1[k]);
                                }
                                assert forall|j: int| 0 <= j < q + 1 implies visited@.contains(
                                    #[trigger] sl[j],
                                ) by {
                                    if j < q {
                                        assert(visited1.contains(sl[j]));
                                    } else {
                                        assert(sl[j] == w);
                                    }
                                }
                            }
                        } else {
                            proof {
                                assert(visited@.contains(w));
                                assert forall|j: int| 0 <= j < q + 1 implies visited@.contains(
                                    #[trigger] sl[j],
                                ) by {
                                    if j == q {
                                        assert(sl[j] == w);
                                    }
                                }
                            }
                        }
                        q = q + 1;
                    }
                    proof {
                        assert(processed(g, ds@, visited@, cur)) by {
                            assert forall|x: (u16, u16)| #[trigger] edge(
                                g,
                                cur,
                                x,
                            ) implies visited@.contains(x) by {
                                let j = choose|j: int| 0 <= j < g[cur].len() && g[cur][j] == x;
                                assert(visited@.contains(sl[j]));
                            }
                        }
                        assert forall|k: int|
                            0 <= k < visited@.len() && !work@.contains(
                                #[trigger] visited@[k],
                            ) implies processed(g, ds@, visited@, visited@[k]) by {
                            if visited@[k] == cur {
                                assert(processed(g, ds@, visited@, cur));
                            }
                        }
                        lemma_bounded_distinct(visited@, pool);
                    }
                },
                None => {
                    proof {
                        assert(processed(g, ds@, visited@, cur)) by {
                            assert forall|x: (u16, u16)| #[trigger] edge(
                                g,
                                cur,
                                x,
                            ) implies visited@.contains(x) by {
                                // no list is recorded for `cur`, so nothing
                                // depends on it and there is no such edge
                                assert(g.contains_key(cur));
                                assert(false);
                            }
                        }
                        assert forall|k: int|
                            0 <= k < visited@.len() && !work@.contains(
                                #[trigger] visited@[k],
                            ) implies processed(g, ds@, visited@, visited@[k]) by {
                            if visited@[k] == cur {
                                assert(processed(g, ds@, visited@, cur));
                            } else {
                                assert(!work0.contains(visited@[k])) by {
                                    if work0.contains(visited@[k]) {
                                        let j = choose|j: int|
                                            0 <= j < work0.len() && work0[j] == visited@[k];
                                        assert(work0[j] == visited@[k]);
                                        if j < work0.len() - 1 {
                                            assert(work@[j] == visited@[k]);
                                        }
                                    }
                                }
                            }
                        }
                        lemma_bounded_distinct(visited@, pool);
                    }
                },
            }
        }
        proof {
            assert(!creates_cycle(g, pos, ds@)) by {
                if creates_cycle(g, pos, ds@) {
                    let i = choose|i: int|
                        0 <= i < ds@.len() && reaches(g, pos, #[trigger] ds@[i]);
                    let w = choose|w: Seq<(u16, u16)>|
                        is_walk(g, w) && w.first() == pos && w.last() == ds@[i];
                    assert forall|v: (u16, u16), x: (u16, u16)|
                        visited@.contains(v) && #[trigger] edge(g, v, x) implies visited@.contains(
                        x,
                    ) by {
                        let k = choose|k: int| 0 <= k < visited@.len() && visited@[k] == v;
                        assert(!work@.contains(visited@[k]));
                        assert(processed(g, ds@, visited@, visited@[k]));
                    }
                    lemma_walk_stays(g, w, visited@);
                    let k = choose|k: int| 0 <= k < visited@.len() && visited@[k] == ds@[i];
                    assert(!work@.contains(visited@[k]));
                    assert(processed(g, ds@, visited@, visited@[k]));
                    assert(ds@.contains(ds@[i]));
                }
            }
        }
        false
    }

    /// Stores a cell at an in-bounds position; the rest of the grid and the
    /// dependency graph stay as they are.
    fn store(&mut self, cell: Cell, pos: (usize, usize))
        requires
            old(self).wf(),
            pos.0 < old(self).grid().len(),
            pos.1 < old(self).grid()[pos.0 as int].1@.len(),
        ensures
            final(self).wf(),
            final(self).dep_map() == old(self).dep_map(),
            final(self).grid().len() == old(self).grid().len(),
            forall|x: int|
                0 <= x < old(self).grid().len() && x != pos.0 as int ==> final(self).grid()[x]
                    == old(self).grid()[x],
            final(self).grid()[pos.0 as int].0 == old(self).grid()[pos.0 as int].0,
            final(self).grid()[pos.0 as int].1@ == old(self).grid()[pos.0 as int].1@.update(
                pos.1 as int,
                cell,
            ),
    {
        self.fields[pos.0].1[pos.1] = cell;
    }

    /// Inserts `cell` at `pos` and, for a formula cell, runs the insertion
    /// protocol: collect the positions the formula references; reject the
    /// insertion when committing them would close a reference cycle, caching
    /// the `Cyclic` failure and adding no edge; otherwise register one
    /// reverse edge per referenced position, evaluate the program against
    /// the grid as it stands, and cache the outcome.  A non-formula cell is
    /// simply stored.  Either way only the cell at `pos` changes.
    pub fn insert_cell(&mut self, cell: Cell, pos: (usize, usize))
        requires
            old(self).wf(),
            pos.0 < old(self).grid().len(),
            pos.1 < old(self).grid()[pos.0 as int].1@.len(),
            pos.0 <= u16::MAX as usize,
            pos.1 <= u16::MAX as usize,
            cell matches Cell::Expression(e, _) ==> e.wf(),
        ensures
            final(self).wf(),
            final(self).grid().len() == old(self).grid().len(),
            forall|x: int|
                0 <= x < old(self).grid().len() && x != pos.0 as int ==> final(self).grid()[x]
                    == old(self).grid()[x],
            final(self).grid()[pos.0 as int].0 == old(self).grid()[pos.0 as int].0,
            final(self).grid()[pos.0 as int].1@ == old(self).grid()[pos.0 as int].1@.update(
                pos.1 as int,
                inserted_cell(
                    old(self).dep_map(),
                    cell,
                    (pos.0 as u16, pos.1 as u16),
                    old(self).grid(),
                ),
            ),
            final(self).dep_map() == inserted_deps(
                old(self).dep_map(),
                cell,
                (pos.0 as u16, pos.1 as u16),
            ),
    {
        let p16: (u16, u16) = (pos.0 as u16, pos.1 as u16);
        match cell {
            Cell::Expression(ex, _) => {
                let ds: Vec<(u16, u16)> = ex.deps(p16);
                if self.is_cyclic(p16, &ds) {
                    self.store(Cell::Expression(ex, Err(ExecutionError::Cyclic)), pos);
                } else {
                    let ghost g0 = self.dep_map();
                    let ghost grid0 = self.grid();
                    let n: usize = ds.len();
                    let mut i: usize = 0;
                    proof {
                        assert(ds@.take(0) =~= Seq::<(u16, u16)>::empty());
                    }
                    while i < n
                        invariant
                            i <= n,
                            n == ds@.len(),
                            self.wf(),
                            self.grid() == grid0,
                            self.dep_map() == add_edges(g0, ds@.take(i as int), p16),
                        decreases n - i,
                    {
                        let d: (u16, u16) = ds[i];
                        self.add_dependency(d, p16);
                        proof {
                            assert(ds@.take(i + 1 as int).drop_last() =~= ds@.take(i as int));
                            assert(ds@.take(i + 1 as int).last() == d);
                        }
                        i = i + 1;
                    }
                    proof {
                        assert(ds@.take(n as int) =~= ds@);
                    }
                    let res: Result<i64, ExecutionError> = ex.run.execute(self);
                    self.store(Cell::Expression(ex, res), pos);
                }
            },
            _ => {
                self.store(cell, pos);
            },
        }
    }
}

/// The reverse edges an insertion registers: one from each referenced
/// position to the inserting cell, in reference order.
pub open spec fn add_edges(
    g: Map<(u16, u16), Seq<(u16, u16)>>,
    ds: Seq<(u16, u16)>,
    p: (u16, u16),
) -> Map<(u16, u16), Seq<(u16, u16)>>
    decreases ds.len(),
{
    if ds.len() == 0 {
        g
    } else {
        let g2 = add_edges(g, ds.drop_last(), p);
        g2.insert(
            ds.last(),
            if g2.contains_key(ds.last()) {
                g2[ds.last()].push(p)
            } else {
                seq![p]
            },
        )
    }
}

/// The cell an insertion stores at position `p`: a formula cell gets its
/// cached outcome written — `Cyclic` when committing its references would
/// close a cycle, otherwise the result of executing its program against the
/// grid as it stood — and any other cell is stored as given.
pub open spec fn inserted_cell(
    g: Map<(u16, u16), Seq<(u16, u16)>>,
    cell: Cell,
    p: (u16, u16),
    grid: Seq<(u16, Vec<Cell>)>,
) -> Cell {
    match cell {
        Cell::Expression(e, _) => {
            let ds = crate::calc::spec_deps(e.code_spec());
            if creates_cycle(g, p, ds) {
                Cell::Expression(e, Err(ExecutionError::Cyclic))
            } else {
                Cell::Expression(e, crate::calc::spec_execute_code(e.code_spec(), grid))
            }
        },
        _ => cell,
    }
}

/// The dependency graph after an insertion at `p`: unchanged for non-formula
/// cells and for a rejected (cyclic) formula — rejection adds no edge — and
/// otherwise extended by one reverse edge per referenced position.
pub open spec fn inserted_deps(
    g: Map<(u16, u16), Seq<(u16, u16)>>,
    cell: Cell,
    p: (u16, u16),
) -> Map<(u16, u16), Seq<(u16, u16)>> {
    match cell {
        Cell::Expression(e, _) => {
            let ds = crate::calc::spec_deps(e.code_spec());
            if creates_cycle(g, p, ds) {
                g
            } else {
                add_edges(g, ds, p)
            }
        },
        _ => g,
    }
}

/// A formula at `pos` that references a position already (transitively)
/// depending on `pos` closes a cycle.
pub proof fn lemma_reference_back_closes_cycle(
    g: Map<(u16, u16), Seq<(u16, u16)>>,
    pos: (u16, u16),
    ds: Seq<(u16, u16)>,
    y: (u16, u16),
)
    requires
        ds.contains(y),
        reaches(g, pos, y),
    ensures
        creates_cycle(g, pos, ds),
{
    let i = choose|i: int| 0 <= i < ds.len() && ds[i] == y;
    assert(reaches(g, pos, ds[i]));
}

/// Cycle rejection, stated over the insertion semantics: a formula whose
/// committed references would close a cycle is stored with the `Cyclic`
/// outcome cached, and the dependency graph gains no edge from the
/// insertion.
pub proof fn lemma_cycle_rejection(
    g: Map<(u16, u16), Seq<(u16, u16)>>,
    cell: Cell,
    p: (u16, u16),
    grid: Seq<(u16, Vec<Cell>)>,
)
    requires
        cell matches Cell::Expression(e, _) ==> creates_cycle(
            g,
            p,
            crate::calc::spec_deps(e.code_spec()),
        ),
    ensures
        inserted_deps(g, cell, p) == g,
        cell matches Cell::Expression(e, _) ==> inserted_cell(g, cell, p, grid)
            == Cell::Expression(e, Err::<i64, ExecutionError>(ExecutionError::Cyclic)),
{
}

/// A searched position: not among the sought targets, and every position
/// depending on it has itself been gathered into `vis`.
pub open spec fn processed(
    g: Map<(u16, u16), Seq<(u16, u16)>>,
    ds: Seq<(u16, u16)>,
    vis: Seq<(u16, u16)>,
    v: (u16, u16),
) -> bool {
    !ds.contains(v) && forall|x: (u16, u16)| #[trigger] edge(g, v, x) ==> vis.contains(x)
}

/// A processed position stays processed as the gathered list grows.
proof fn lemma_processed_grow(
    g: Map<(u16, u16), Seq<(u16, u16)>>,
    ds: Seq<(u16, u16)>,
    vis: Seq<(u16, u16)>,
    vis2: Seq<(u16, u16)>,
    v: (u16, u16),
)
    requires
        processed(g, ds, vis, v),
        forall|y: (u16, u16)| vis.contains(y) ==> vis2.contains(y),
    ensures
        processed(g, ds, vis2, v),
{
    assert forall|x: (u16, u16)| #[trigger] edge(g, v, x) implies vis2.contains(x) by {
        assert(vis.contains(x));
    }
}

/// What pushing an element does to membership and distinctness.
proof fn lemma_push_effect<T>(s: Seq<T>, x: T)
    ensures
        forall|y: T| s.contains(y) ==> #[trigger] s.push(x).contains(y),
        s.push(x).contains(x),
        forall|y: T| #[trigger] s.push(x).contains(y) ==> s.contains(y) || y == x,
        !s.contains(x) && s.no_duplicates() ==> s.push(x).no_duplicates(),
{
    assert forall|y: T| s.contains(y) implies #[trigger] s.push(x).contains(y) by {
        let k = choose|k: int| 0 <= k < s.len() && s[k] == y;
        assert(s.push(x)[k] == y);
    }
    assert(s.push(x)[s.len() as int] == x);
    assert forall|y: T| #[trigger] s.push(x).contains(y) implies s.contains(y) || y == x by {
        let k = choose|k: int| 0 <= k < s.push(x).len() && s.push(x)[k] == y;
        if k < s.len() {
            assert(s[k] == y);
        }
    }
    if !s.contains(x) && s.no_duplicates() {
        assert forall|i: int, j: int|
            0 <= i < s.push(x).len() && 0 <= j < s.push(x).len() && i != j implies s.push(x)[i]
            != s.push(x)[j] by {
            if i < s.len() && j < s.len() {
            } else if i < s.len() {
                if s[i] == x {
                    assert(s.contains(x));
                }
            } else if j < s.len() {
                if s[j] == x {
                    assert(s.contains(x));
                }
            }
        }
    }
}

/// What popping the last element does to membership and distinctness.
proof fn lemma_pop_effect<T>(s: Seq<T>)
    requires
        s.len() > 0,
    ensures
        forall|y: T| #[trigger] s.drop_last().contains(y) ==> s.contains(y),
        forall|y: T| s.contains(y) ==> #[trigger] s.drop_last().contains(y) || y == s.last(),
        s.no_duplicates() ==> !s.drop_last().contains(s.last()),
        s.no_duplicates() ==> s.drop_last().no_duplicates(),
{
    assert forall|y: T| #[trigger] s.drop_last().contains(y) implies s.contains(y) by {
        let k = choose|k: int| 0 <= k < s.drop_last().len() && s.drop_last()[k] == y;
        assert(s[k] == y);
    }
    assert forall|y: T| s.contains(y) implies #[trigger] s.drop_last().contains(y) || y
        == s.last() by {
        let k = choose|k: int| 0 <= k < s.len() && s[k] == y;
        if k < s.len() - 1 {
            assert(s.drop_last()[k] == y);
        }
    }
    if s.no_duplicates() {
        if s.drop_last().contains(s.last()) {
            let k = choose|k: int| 0 <= k < s.drop_last().len() && s.drop_last()[k] == s.last();
            assert(s[k] == s[s.len() - 1]);
        }
    }
}

/// A key the map view knows has an entry in the store with the same list.
proof fn lemma_assoc_contains_entry(s: Seq<((u16, u16), Vec<(u16, u16)>)>, k: (u16, u16))
    requires
        assoc_map(s).contains_key(k),
    ensures
        exists|i: int|
            0 <= i < s.len() && (#[trigger] s[i]).0 == k && s[i].1@ == assoc_map(s)[k],
    decreases s.len(),
{
    if s.len() > 0 {
        if s.last().0 == k {
            assert(s[s.len() - 1].0 == k && s[s.len() - 1].1@ == assoc_map(s)[k]);
        } else {
            lemma_assoc_contains_entry(s.drop_last(), k);
            let i = choose|i: int|
                0 <= i < s.drop_last().len() && (#[trigger] s.drop_last()[i]).0 == k
                    && s.drop_last()[i].1@ == assoc_map(s.drop_last())[k];
            assert(s[i].0 == k && s[i].1@ == assoc_map(s)[k]);
        }
    }
}

/// `s` without its first occurrence of `v` (and unchanged where `v` does not
/// occur).
pub open spec fn remove_first(s: Seq<(u16, u16)>, v: (u16, u16)) -> Seq<(u16, u16)>
    decreases s.len(),
{
    if s.len() == 0 {
        s
    } else if s.first() == v {
        s.drop_first()
    } else {
        seq![s.first()] + remove_first(s.drop_first(), v)
    }
}

/// Removing the first occurrence of `v`, found at index `i`, is removing
/// index `i`.
proof fn lemma_remove_first_at(s: Seq<(u16, u16)>, v: (u16, u16), i: int)
    requires
        0 <= i < s.len(),
        s[i] == v,
        forall|q: int| 0 <= q < i ==> #[trigger] s[q] != v,
    ensures
        remove_first(s, v) =~= s.remove(i),
    decreases i,
{
    if i == 0 {
        assert(s.first() == v);
        assert(s.drop_first() =~= s.remove(0));
    } else {
        assert(s.first() != v) by {
            assert(s[0] != v);
        }
        assert(s.drop_first()[i - 1] == v);
        assert(forall|q: int| 0 <= q < i - 1 ==> #[trigger] s.drop_first()[q] != v);
        lemma_remove_first_at(s.drop_first(), v, i - 1);
    }
}

} // verus!
