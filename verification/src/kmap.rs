//! The Karnaugh-map minimizer: a truth grid in Gray-code order holds one
//! cell per falsifying assignment; maximal rectangular groups of false
//! cells, with toroidal wraparound, are reduced to their common literals
//! and conjoined into a product-of-sums expression.

use vstd::prelude::*;
use vstd::arithmetic::power2::pow2;
use vstd::arithmetic::power2::lemma2_to64;

use crate::bits::gray_code;
use crate::eval::give_value_to_char;
use crate::eval::line_bit;
use crate::eval::line_parses;
use crate::eval::line_value;
use crate::eval::pow2_u64;
use crate::eval::subst_text;
use crate::formula::FormulaError;
use crate::parser::is_variable;
use crate::parser::lemma_parse_round_trip;
use crate::parser::parse_formula_char;

verus! {

/// The rectangular group shapes, columns by rows.
#[derive(Clone, Copy, Debug, PartialEq, Eq, Structural)]
pub enum Groups {
    FourTwo,
    FourOne,
    TwoTwo,
    TwoOne,
    OneOne,
}

/// One literal of a cell's form: the variable's letter, and whether the
/// literal is the complement.
#[derive(Clone, Copy, Debug, PartialEq, Eq, Structural)]
pub struct Literal {
    pub name: char,
    pub negated: bool,
}

/// One false cell of the truth grid: its position, whether a group has
/// claimed it, and the complemented literal form of its assignment.
#[derive(Debug, PartialEq, Eq)]
pub struct Kmapzero {
    pub row: usize,
    pub col: usize,
    pub grouped: bool,
    pub form: Vec<Literal>,
}

/// The frame of one search: grid dimensions, the group shape looked for,
/// and how many cells a run must collect.
#[derive(Clone, Copy, Debug, PartialEq, Eq, Structural)]
pub struct KmapInfo {
    pub rows: usize,
    pub cols: usize,
    pub group_type: Groups,
    pub amount: usize,
}

/// An ungrouped cell sits at the given position.
pub open spec fn pos_free(cells: Seq<Kmapzero>, row: int, col: int) -> bool {
    exists|t: int|
        0 <= t < cells.len() && (#[trigger] cells[t]).row == row && cells[t].col == col
            && !cells[t].grouped
}

/// No two cells share a position.
pub open spec fn distinct_cells(cells: Seq<Kmapzero>) -> bool {
    forall|t: int, u: int|
        0 <= t < cells.len() && 0 <= u < cells.len() && t != u ==> !((#[trigger] cells[t]).row == (
        #[trigger] cells[u]).row && cells[t].col == cells[u].col)
}

/// How many cells no group has claimed yet.
pub open spec fn count_ungrouped(cells: Seq<Kmapzero>) -> nat
    decreases cells.len(),
{
    if cells.len() == 0 {
        0
    } else {
        count_ungrouped(cells.drop_last()) + (if cells.last().grouped {
            0nat
        } else {
            1nat
        })
    }
}

/// The new cell list extends the old one only by claiming cells: length,
/// positions and forms stay, and no claim is given back.
pub open spec fn marks_extended(old_cells: Seq<Kmapzero>, new_cells: Seq<Kmapzero>) -> bool {
    new_cells.len() == old_cells.len() && (forall|t: int|
        0 <= t < old_cells.len() ==> (#[trigger] new_cells[t]).row == old_cells[t].row
            && new_cells[t].col == old_cells[t].col && new_cells[t].form@ == old_cells[t].form@
            && (old_cells[t].grouped ==> new_cells[t].grouped))
}

/// A claim ledger is monotone: extending twice extends once.
pub proof fn lemma_marks_extended_trans(a: Seq<Kmapzero>, b: Seq<Kmapzero>, c: Seq<Kmapzero>)
    requires
        marks_extended(a, b),
        marks_extended(b, c),
    ensures
        marks_extended(a, c),
{
}

/// A structural copy of a literal list.
pub fn copy_lits(v: &Vec<Literal>) -> (r: Vec<Literal>)
    ensures
        r@ == v@,
{
    let mut out: Vec<Literal> = Vec::new();
    let mut i: usize = 0;
    while i < v.len()
        invariant
            i <= v@.len(),
            out@ == v@.take(i as int),
        decreases v@.len() - i,
    {
        out.push(v[i]);
        proof {
            assert(v@.take(i as int + 1) =~= v@.take(i as int).push(v@[i as int]));
        }
        i = i + 1;
    }
    proof {
        assert(v@.take(v@.len() as int) =~= v@);
    }
    out
}

/// Whether any false cell is still unclaimed.
pub fn pending_false(zero_cells: &Vec<Kmapzero>) -> (r: bool)
    ensures
        r <==> count_ungrouped(zero_cells@) > 0,
{
    let mut pending = false;
    let mut i: usize = 0;
    while i < zero_cells.len()
        invariant
            i <= zero_cells@.len(),
            pending <==> count_ungrouped(zero_cells@.take(i as int)) > 0,
        decreases zero_cells@.len() - i,
    {
        proof {
            assert(zero_cells@.take(i as int + 1).drop_last() =~= zero_cells@.take(i as int));
        }
        if !zero_cells[i].grouped {
            pending = true;
        }
        i = i + 1;
    }
    proof {
        assert(zero_cells@.take(zero_cells@.len() as int) =~= zero_cells@);
    }
    pending
}

/// How many false cells are still unclaimed.
pub fn missing_trues(zero_cells: &Vec<Kmapzero>) -> (r: usize)
    ensures
        r == count_ungrouped(zero_cells@),
{
    let mut pending: usize = 0;
    let mut i: usize = 0;
    while i < zero_cells.len()
        invariant
            i <= zero_cells@.len(),
            pending == count_ungrouped(zero_cells@.take(i as int)),
            pending <= i,
        decreases zero_cells@.len() - i,
    {
        proof {
            assert(zero_cells@.take(i as int + 1).drop_last() =~= zero_cells@.take(i as int));
        }
        if !zero_cells[i].grouped {
            pending = pending + 1;
        }
        i = i + 1;
    }
    proof {
        assert(zero_cells@.take(zero_cells@.len() as int) =~= zero_cells@);
    }
    pending
}

/// Claims the whole grid at once: every cell of the copy is grouped.
pub fn create_16(zero_cells: &Vec<Kmapzero>) -> (r: Vec<Kmapzero>)
    ensures
        marks_extended(zero_cells@, r@),
        count_ungrouped(r@) == 0,
{
    let mut out: Vec<Kmapzero> = Vec::new();
    let mut i: usize = 0;
    while i < zero_cells.len()
        invariant
            i <= zero_cells@.len(),
            out@.len() == i,
            forall|t: int|
                0 <= t < i ==> (#[trigger] out@[t]).row == zero_cells@[t].row && out@[t].col
                    == zero_cells@[t].col && out@[t].form@ == zero_cells@[t].form@
                    && out@[t].grouped,
            count_ungrouped(out@) == 0,
        decreases zero_cells@.len() - i,
    {
        let form = copy_lits(&zero_cells[i].form);
        let cell = Kmapzero {
            row: zero_cells[i].row,
            col: zero_cells[i].col,
            grouped: true,
            form,
        };
        let ghost prev = out@;
        out.push(cell);
        proof {
            assert(out@.drop_last() =~= prev);
            assert(count_ungrouped(out@) == 0);
        }
        i = i + 1;
    }
    out
}

/// Whether the given position holds a still-unclaimed false cell.
pub fn check_current_cell(zero_cells: &Vec<Kmapzero>, row: usize, col: usize) -> (r: bool)
    ensures
        r == pos_free(zero_cells@, row as int, col as int),
{
    let mut i: usize = 0;
    while i < zero_cells.len()
        invariant
            i <= zero_cells@.len(),
            forall|t: int|
                0 <= t < i ==> !((#[trigger] zero_cells@[t]).row == row as int && zero_cells@[t].col
                    == col as int && !zero_cells@[t].grouped),
        decreases zero_cells@.len() - i,
    {
        if zero_cells[i].row == row && zero_cells[i].col == col && !zero_cells[i].grouped {
            return true;
        }
        i = i + 1;
    }
    false
}

/// Claims the unclaimed cell at the given position and hands back its form.
pub fn mark_cell(cells: &mut Vec<Kmapzero>, row: usize, col: usize) -> (form: Vec<Literal>)
    requires
        distinct_cells(old(cells)@),
        pos_free(old(cells)@, row as int, col as int),
    ensures
        marks_extended(old(cells)@, final(cells)@),
        distinct_cells(final(cells)@),
        forall|t: int|
            0 <= t < old(cells)@.len() ==> (#[trigger] final(cells)@[t]).grouped == (old(
                cells,
            )@[t].grouped || (old(cells)@[t].row == row as int && old(cells)@[t].col
                == col as int)),
        forall|t: int|
            0 <= t < old(cells)@.len() && (#[trigger] old(cells)@[t]).row == row as int && old(
                cells,
            )@[t].col == col as int ==> form@ == old(cells)@[t].form@,
        pos_free(old(cells)@, row as int, col as int),
{
    let mut i: usize = 0;
    while i < cells.len()
        invariant
            i <= cells@.len(),
            cells@ == old(cells)@,
            forall|t: int|
                0 <= t < i ==> !((#[trigger] cells@[t]).row == row as int && cells@[t].col
                    == col as int && !cells@[t].grouped),
            distinct_cells(cells@),
            pos_free(cells@, row as int, col as int),
        decreases cells@.len() - i,
    {
        if cells[i].row == row && cells[i].col == col && !cells[i].grouped {
            let form = copy_lits(&cells[i].form);
            cells[i].grouped = true;
            proof {
                assert(forall|t: int|
                    0 <= t < old(cells)@.len() && t != i ==> final(cells)@[t] == old(cells)@[t]);
            }
            return form;
        }
        i = i + 1;
    }
    proof {
        assert(false);
    }
    Vec::new()
}

/// The index one step back, wrapping to the far end.
pub open spec fn prev_idx(i: int, len: int) -> int {
    if i == 0 {
        len - 1
    } else {
        i - 1
    }
}

/// The index one step forward, wrapping to zero.
pub open spec fn next_idx(i: int, len: int) -> int {
    if i + 1 == len {
        0
    } else {
        i + 1
    }
}

/// One wrapping step in the chosen direction.
pub open spec fn step_idx(i: int, len: int, backward: bool) -> int {
    if backward {
        prev_idx(i, len)
    } else {
        next_idx(i, len)
    }
}

/// The index reached after the given number of wrapping steps.
pub open spec fn walk_idx(start: int, len: int, steps: nat, backward: bool) -> int
    decreases steps,
{
    if steps == 0 {
        start
    } else {
        step_idx(walk_idx(start, len, (steps - 1) as nat, backward), len, backward)
    }
}

/// The indices a run of the given length visits, starting point first.
pub open spec fn run_idx(start: int, len: int, amt: nat, backward: bool) -> Seq<int>
    decreases amt,
{
    if amt == 0 {
        Seq::empty()
    } else {
        seq![start] + run_idx(step_idx(start, len, backward), len, (amt - 1) as nat, backward)
    }
}

/// Walking one step and then some more is walking from the next index.
proof fn lemma_walk_shift(start: int, len: int, steps: nat, backward: bool)
    ensures
        walk_idx(step_idx(start, len, backward), len, steps, backward) == walk_idx(
            start,
            len,
            steps + 1,
            backward,
        ),
    decreases steps,
{
    if steps == 0 {
        assert(walk_idx(step_idx(start, len, backward), len, 0, backward) == step_idx(
            start,
            len,
            backward,
        ));
        assert(walk_idx(start, len, 1, backward) == step_idx(
            walk_idx(start, len, 0, backward),
            len,
            backward,
        ));
    } else {
        lemma_walk_shift(start, len, (steps - 1) as nat, backward);
        assert(walk_idx(step_idx(start, len, backward), len, steps, backward) == step_idx(
            walk_idx(step_idx(start, len, backward), len, (steps - 1) as nat, backward),
            len,
            backward,
        ));
        assert(walk_idx(start, len, steps + 1, backward) == step_idx(
            walk_idx(start, len, steps, backward),
            len,
            backward,
        ));
    }
}

/// Each position of a run is the walk of its index.
proof fn lemma_run_idx_char(start: int, len: int, amt: nat, backward: bool)
    ensures
        run_idx(start, len, amt, backward).len() == amt,
        forall|k: int|
            0 <= k < amt ==> run_idx(start, len, amt, backward)[k] == walk_idx(
                start,
                len,
                k as nat,
                backward,
            ),
    decreases amt,
{
    if amt > 0 {
        let stepped = step_idx(start, len, backward);
        lemma_run_idx_char(stepped, len, (amt - 1) as nat, backward);
        assert forall|k: int| 0 <= k < amt implies run_idx(start, len, amt, backward)[k]
            == walk_idx(start, len, k as nat, backward) by {
            if k > 0 {
                assert(run_idx(start, len, amt, backward)[k] == run_idx(
                    stepped,
                    len,
                    (amt - 1) as nat,
                    backward,
                )[k - 1]);
                lemma_walk_shift(start, len, (k - 1) as nat, backward);
            }
        }
    }
}

/// On a two- or four-long ring, a run no longer than the ring visits
/// distinct indices inside the ring.
pub proof fn lemma_run_idx_props(start: int, len: int, amt: nat, backward: bool)
    requires
        0 <= start < len,
        len == 2 || len == 4,
        amt <= len,
    ensures
        run_idx(start, len, amt, backward).len() == amt,
        amt > 0 ==> run_idx(start, len, amt, backward)[0] == start,
        forall|k: int| 0 <= k < amt ==> 0 <= #[trigger] run_idx(start, len, amt, backward)[k] < len,
        forall|k1: int, k2: int|
            0 <= k1 < amt && 0 <= k2 < amt && k1 != k2 ==> #[trigger] run_idx(
                start,
                len,
                amt,
                backward,
            )[k1] != #[trigger] run_idx(start, len, amt, backward)[k2],
{
    lemma_run_idx_char(start, len, amt, backward);
    let w1 = walk_idx(start, len, 1, backward);
    let w2 = walk_idx(start, len, 2, backward);
    let w3 = walk_idx(start, len, 3, backward);
    assert(walk_idx(start, len, 0, backward) == start);
    assert(w1 == step_idx(start, len, backward));
    assert(w2 == step_idx(w1, len, backward));
    assert(w3 == step_idx(w2, len, backward));
    assert forall|k1: int, k2: int|
        0 <= k1 < amt && 0 <= k2 < amt && k1 != k2 implies #[trigger] run_idx(
        start,
        len,
        amt,
        backward,
    )[k1] != #[trigger] run_idx(start, len, amt, backward)[k2] by {
        assert(amt <= 4);
        assert(walk_idx(start, len, k1 as nat, backward) == if k1 == 0 {
            start
        } else if k1 == 1 {
            w1
        } else if k1 == 2 {
            w2
        } else {
            w3
        });
        assert(walk_idx(start, len, k2 as nat, backward) == if k2 == 0 {
            start
        } else if k2 == 1 {
            w1
        } else if k2 == 2 {
            w2
        } else {
            w3
        });
    }
}

/// The cells at the given positions were all unclaimed, exactly they have
/// been claimed, everything else is untouched, and the collected forms are
/// theirs, in run order.
pub open spec fn run_marked(
    old_cells: Seq<Kmapzero>,
    new_cells: Seq<Kmapzero>,
    positions: Seq<(int, int)>,
    forms: Seq<Vec<Literal>>,
) -> bool {
    &&& forall|k: int|
        0 <= k < positions.len() ==> pos_free(
            old_cells,
            (#[trigger] positions[k]).0,
            positions[k].1,
        )
    &&& new_cells.len() == old_cells.len()
    &&& forall|t: int|
        0 <= t < old_cells.len() ==> (#[trigger] new_cells[t]).row == old_cells[t].row
            && new_cells[t].col == old_cells[t].col && new_cells[t].form@ == old_cells[t].form@
    &&& forall|t: int|
        0 <= t < old_cells.len() ==> (#[trigger] new_cells[t]).grouped == (old_cells[t].grouped
            || positions.contains((old_cells[t].row as int, old_cells[t].col as int)))
    &&& forms.len() == positions.len()
    &&& forall|k: int, t: int|
        0 <= k < positions.len() && 0 <= t < old_cells.len() && (#[trigger] old_cells[t]).row == (
        #[trigger] positions[k]).0 && old_cells[t].col == positions[k].1 ==> forms[k]@
            == old_cells[t].form@
}

/// The positions a vertical run visits: the row indices of the run, paired
/// with one fixed column.
pub open spec fn col_run_positions(
    row: int,
    col: int,
    length: int,
    amt: nat,
    backward: bool,
) -> Seq<(int, int)> {
    run_idx(row, length, amt, backward).map_values(|r: int| (r, col))
}

/// The positions a horizontal run visits: one fixed row, paired with the
/// column indices of the run.
pub open spec fn row_run_positions(
    row: int,
    col: int,
    length: int,
    amt: nat,
    backward: bool,
) -> Seq<(int, int)> {
    run_idx(col, length, amt, backward).map_values(|c: int| (row, c))
}

/// Every position of the vertical run holds an unclaimed cell.
pub open spec fn col_run_free_at(
    cells: Seq<Kmapzero>,
    row: int,
    col: int,
    amount: nat,
    length: int,
    backward: bool,
) -> bool {
    forall|k: int|
        0 <= k < amount ==> pos_free(
            cells,
            (#[trigger] col_run_positions(row, col, length, amount, backward)[k]).0,
            col,
        )
}

/// Every position of the horizontal run holds an unclaimed cell.
pub open spec fn row_run_free_at(
    cells: Seq<Kmapzero>,
    row: int,
    col: int,
    amount: nat,
    length: int,
    backward: bool,
) -> bool {
    forall|k: int|
        0 <= k < amount ==> pos_free(
            cells,
            row,
            (#[trigger] row_run_positions(row, col, length, amount, backward)[k]).1,
        )
}

/// Claiming one run and then another, already free beforehand, claims their
/// positions together.
proof fn lemma_run_marked_concat(
    a: Seq<Kmapzero>,
    b: Seq<Kmapzero>,
    c: Seq<Kmapzero>,
    p1: Seq<(int, int)>,
    p2: Seq<(int, int)>,
    f1: Seq<Vec<Literal>>,
    f2: Seq<Vec<Literal>>,
)
    requires
        run_marked(a, b, p1, f1),
        run_marked(b, c, p2, f2),
        forall|k: int|
            0 <= k < p2.len() ==> pos_free(a, (#[trigger] p2[k]).0, p2[k].1),
    ensures
        run_marked(a, c, p1 + p2, f1 + f2),
{
    let ps = p1 + p2;
    let fs = f1 + f2;
    assert(forall|k: int| 0 <= k < p1.len() ==> #[trigger] ps[k] == p1[k]);
    assert(forall|k: int|
        p1.len() <= k < ps.len() ==> #[trigger] ps[k] == p2[k - p1.len()]);
    assert(forall|k: int| 0 <= k < f1.len() ==> #[trigger] fs[k] == f1[k]);
    assert(forall|k: int|
        f1.len() <= k < fs.len() ==> #[trigger] fs[k] == f2[k - f1.len()]);
    assert forall|k: int| 0 <= k < ps.len() implies pos_free(a, (#[trigger] ps[k]).0, ps[k].1) by {
        if k < p1.len() {
            assert(pos_free(a, p1[k].0, p1[k].1));
        } else {
            assert(pos_free(a, p2[k - p1.len()].0, p2[k - p1.len()].1));
        }
    }
    assert forall|t: int|
        0 <= t < a.len() implies (#[trigger] c[t]).grouped == (a[t].grouped || ps.contains(
        (a[t].row as int, a[t].col as int),
    )) by {
        let pos = (a[t].row as int, a[t].col as int);
        assert(b[t].row == a[t].row && b[t].col == a[t].col);
        assert(ps.contains(pos) <==> (p1.contains(pos) || p2.contains(pos))) by {
            if ps.contains(pos) {
                let w = choose|w: int| 0 <= w < ps.len() && ps[w] == pos;
                if w < p1.len() {
                    assert(p1[w] == pos);
                } else {
                    assert(p2[w - p1.len()] == pos);
                }
            }
            if p1.contains(pos) {
                let w = choose|w: int| 0 <= w < p1.len() && p1[w] == pos;
                assert(ps[w] == pos);
            }
            if p2.contains(pos) {
                let w = choose|w: int| 0 <= w < p2.len() && p2[w] == pos;
                assert(ps[p1.len() + w] == pos);
            }
        }
    }
    assert forall|k: int, t: int|
        0 <= k < ps.len() && 0 <= t < a.len() && (#[trigger] a[t]).row == (#[trigger] ps[k]).0
            && a[t].col == ps[k].1 implies fs[k]@ == a[t].form@ by {
        if k < p1.len() {
            assert(f1[k]@ == a[t].form@);
        } else {
            assert(b[t].row == a[t].row && b[t].col == a[t].col);
            assert(f2[k - p1.len()]@ == b[t].form@);
            assert(b[t].form@ == a[t].form@);
        }
    }
}

/// Whether every position of a vertical run holds an unclaimed cell.
fn column_run_free(
    cells: &Vec<Kmapzero>,
    row: usize,
    col: usize,
    amount: usize,
    length: usize,
    backward: bool,
) -> (r: bool)
    requires
        row < length,
        length == 2 || length == 4,
        1 <= amount <= length,
    ensures
        r <==> (forall|k: int|
            0 <= k < amount ==> pos_free(
                cells@,
                (#[trigger] col_run_positions(
                    row as int,
                    col as int,
                    length as int,
                    amount as nat,
                    backward,
                )[k]).0,
                col as int,
            )),
{
    proof {
        lemma_run_idx_props(row as int, length as int, amount as nat, backward);
    }
    let ghost run = run_idx(row as int, length as int, amount as nat, backward);
    let ghost positions = col_run_positions(
        row as int,
        col as int,
        length as int,
        amount as nat,
        backward,
    );
    proof {
        assert(forall|j: int| 0 <= j < amount ==> (#[trigger] positions[j]).0 == run[j]);
        assert(forall|j: int| 0 <= j < amount ==> (#[trigger] positions[j]).1 == col as int);
    }
    let mut cur = row;
    let mut k: usize = 0;
    while k < amount
        invariant
            k <= amount,
            row < length,
            length == 2 || length == 4,
            1 <= amount <= length,
            run == run_idx(row as int, length as int, amount as nat, backward),
            positions == col_run_positions(
                row as int,
                col as int,
                length as int,
                amount as nat,
                backward,
            ),
            run.len() == amount,
            forall|j: int| 0 <= j < amount ==> 0 <= #[trigger] run[j] < length,
            forall|j: int| 0 <= j < amount ==> (#[trigger] positions[j]).0 == run[j],
            k < amount ==> cur as int == run[k as int],
            forall|j: int| 0 <= j < k ==> pos_free(cells@, #[trigger] run[j], col as int),
        decreases amount - k,
    {
        if !check_current_cell(cells, cur, col) {
            proof {
                assert(!pos_free(cells@, (positions[k as int]).0, col as int));
            }
            return false;
        }
        proof {
            if k + 1 < amount {
                lemma_run_idx_char(row as int, length as int, amount as nat, backward);
                lemma_walk_shift(row as int, length as int, k as nat, backward);
                assert(run[k as int + 1] == step_idx(run[k as int], length as int, backward));
            }
        }
        cur = if backward {
            if cur == 0 {
                length - 1
            } else {
                cur - 1
            }
        } else {
            if cur + 1 == length {
                0
            } else {
                cur + 1
            }
        };
        k = k + 1;
    }
    proof {
        assert forall|j: int| 0 <= j < amount implies pos_free(
            cells@,
            (#[trigger] positions[j]).0,
            col as int,
        ) by {
            assert(pos_free(cells@, run[j], col as int));
        }
    }
    true
}

/// Claims every position of a vertical run and collects the forms.
fn claim_column_run(
    cells: &mut Vec<Kmapzero>,
    row: usize,
    col: usize,
    amount: usize,
    length: usize,
    backward: bool,
) -> (forms: Vec<Vec<Literal>>)
    requires
        distinct_cells(old(cells)@),
        row < length,
        length == 2 || length == 4,
        1 <= amount <= length,
        forall|k: int|
            0 <= k < amount ==> pos_free(
                old(cells)@,
                (#[trigger] col_run_positions(
                    row as int,
                    col as int,
                    length as int,
                    amount as nat,
                    backward,
                )[k]).0,
                col as int,
            ),
    ensures
        distinct_cells(final(cells)@),
        marks_extended(old(cells)@, final(cells)@),
        run_marked(
            old(cells)@,
            final(cells)@,
            col_run_positions(row as int, col as int, length as int, amount as nat, backward),
            forms@,
        ),
{
    proof {
        lemma_run_idx_props(row as int, length as int, amount as nat, backward);
    }
    let ghost run = run_idx(row as int, length as int, amount as nat, backward);
    let ghost positions = col_run_positions(
        row as int,
        col as int,
        length as int,
        amount as nat,
        backward,
    );
    proof {
        assert(forall|j: int| 0 <= j < amount ==> (#[trigger] positions[j]).0 == run[j]);
        assert(forall|j: int| 0 <= j < amount ==> (#[trigger] positions[j]).1 == col as int);
        assert forall|j: int| 0 <= j < amount implies pos_free(
            cells@,
            #[trigger] run[j],
            col as int,
        ) by {
            assert(pos_free(cells@, (positions[j]).0, col as int));
        }
    }
    let mut forms: Vec<Vec<Literal>> = Vec::new();
    let mut cur = row;
    let mut k: usize = 0;
    while k < amount
        invariant
            k <= amount,
            row < length,
            length == 2 || length == 4,
            1 <= amount <= length,
            run == run_idx(row as int, length as int, amount as nat, backward),
            positions == col_run_positions(
                row as int,
                col as int,
                length as int,
                amount as nat,
                backward,
            ),
            run.len() == amount,
            positions.len() == amount,
            forall|j: int| 0 <= j < amount ==> 0 <= #[trigger] run[j] < length,
            forall|j: int| 0 <= j < amount ==> (#[trigger] positions[j]).0 == run[j],
            forall|j: int| 0 <= j < amount ==> (#[trigger] positions[j]).1 == col as int,
            forall|j1: int, j2: int|
                0 <= j1 < amount && 0 <= j2 < amount && j1 != j2 ==> #[trigger] run[j1]
                    != #[trigger] run[j2],
            k < amount ==> cur as int == run[k as int],
            distinct_cells(cells@),
            cells@.len() == old(cells)@.len(),
            forall|t: int|
                0 <= t < old(cells)@.len() ==> (#[trigger] cells@[t]).row == old(cells)@[t].row
                    && cells@[t].col == old(cells)@[t].col && cells@[t].form@ == old(
                    cells,
                )@[t].form@,
            forall|t: int|
                0 <= t < old(cells)@.len() ==> (#[trigger] cells@[t]).grouped == (old(
                    cells,
                )@[t].grouped || positions.take(k as int).contains(
                    (old(cells)@[t].row as int, old(cells)@[t].col as int),
                )),
            forall|j: int|
                k <= j < amount ==> pos_free(cells@, #[trigger] run[j], col as int),
            forms@.len() == k,
            forall|j: int, t: int|
                0 <= j < k && 0 <= t < old(cells)@.len() && (#[trigger] old(cells)@[t]).row == (
                #[trigger] positions[j]).0 && old(cells)@[t].col == positions[j].1 ==> forms@[j]@
                    == old(cells)@[t].form@,
        decreases amount - k,
    {
        let ghost before = cells@;
        let f = mark_cell(cells, cur, col);
        forms.push(f);
        proof {
            let tk = positions.take(k as int);
            let tk1 = positions.take(k as int + 1);
            assert(tk1 =~= tk.push(positions[k as int]));
            assert forall|t: int|
                0 <= t < old(cells)@.len() implies (#[trigger] cells@[t]).grouped == (old(
                cells,
            )@[t].grouped || tk1.contains(
                (old(cells)@[t].row as int, old(cells)@[t].col as int),
            )) by {
                let pos = (old(cells)@[t].row as int, old(cells)@[t].col as int);
                assert(tk1.contains(pos) <==> (tk.contains(pos) || pos == positions[k as int]))
                    by {
                    if tk1.contains(pos) {
                        let w = choose|w: int| 0 <= w < tk1.len() && tk1[w] == pos;
                        if w < k as int {
                            assert(tk[w] == pos);
                        } else {
                            assert(tk1[w] == positions[k as int]);
                        }
                    }
                    if tk.contains(pos) {
                        let w = choose|w: int| 0 <= w < tk.len() && tk[w] == pos;
                        assert(tk1[w] == pos);
                    }
                    if pos == positions[k as int] {
                        assert(tk1[k as int] == pos);
                    }
                }
            }
            assert forall|j: int| k + 1 <= j < amount implies pos_free(
                cells@,
                #[trigger] run[j],
                col as int,
            ) by {
                assert(run[j] != run[k as int]);
                assert(pos_free(before, run[j], col as int));
                let w = choose|w: int|
                    0 <= w < before.len() && (#[trigger] before[w]).row == run[j] && before[w].col
                        == col as int && !before[w].grouped;
                assert(cells@[w].grouped == (before[w].grouped || (before[w].row == cur as int
                    && before[w].col == col as int)));
                assert(!cells@[w].grouped);
                assert(cells@[w].row == run[j] && cells@[w].col == col as int);
            }
            assert forall|t: int|
                0 <= t < old(cells)@.len() && (#[trigger] old(cells)@[t]).row == (positions[
                k as int]).0 && old(cells)@[t].col == positions[k as int].1 implies f@ == old(
                cells,
            )@[t].form@ by {
                assert(before[t].row == old(cells)@[t].row && before[t].col == old(
                    cells,
                )@[t].col);
                assert(f@ == before[t].form@);
                assert(before[t].form@ == old(cells)@[t].form@);
            }
            assert(forms@[k as int] == f);
            if k + 1 < amount {
                lemma_run_idx_char(row as int, length as int, amount as nat, backward);
                lemma_walk_shift(row as int, length as int, k as nat, backward);
                assert(run[k as int + 1] == step_idx(run[k as int], length as int, backward));
            }
        }
        cur = if backward {
            if cur == 0 {
                length - 1
            } else {
                cur - 1
            }
        } else {
            if cur + 1 == length {
                0
            } else {
                cur + 1
            }
        };
        k = k + 1;
    }
    proof {
        assert(positions.take(amount as int) =~= positions);
    }
    forms
}

/// Whether every position of a horizontal run holds an unclaimed cell.
fn row_run_free(
    cells: &Vec<Kmapzero>,
    row: usize,
    col: usize,
    amount: usize,
    length: usize,
    backward: bool,
) -> (r: bool)
    requires
        col < length,
        length == 2 || length == 4,
        1 <= amount <= length,
    ensures
        r <==> (forall|k: int|
            0 <= k < amount ==> pos_free(
                cells@,
                row as int,
                (#[trigger] row_run_positions(
                    row as int,
                    col as int,
                    length as int,
                    amount as nat,
                    backward,
                )[k]).1,
            )),
{
    proof {
        lemma_run_idx_props(col as int, length as int, amount as nat, backward);
    }
    let ghost run = run_idx(col as int, length as int, amount as nat, backward);
    let ghost positions = row_run_positions(
        row as int,
        col as int,
        length as int,
        amount as nat,
        backward,
    );
    proof {
        assert(forall|j: int| 0 <= j < amount ==> (#[trigger] positions[j]).1 == run[j]);
        assert(forall|j: int| 0 <= j < amount ==> (#[trigger] positions[j]).0 == row as int);
    }
    let mut cur = col;
    let mut k: usize = 0;
    while k < amount
        invariant
            k <= amount,
            col < length,
            length == 2 || length == 4,
            1 <= amount <= length,
            run == run_idx(col as int, length as int, amount as nat, backward),
            positions == row_run_positions(
                row as int,
                col as int,
                length as int,
                amount as nat,
                backward,
            ),
            run.len() == amount,
            forall|j: int| 0 <= j < amount ==> 0 <= #[trigger] run[j] < length,
            forall|j: int| 0 <= j < amount ==> (#[trigger] positions[j]).1 == run[j],
            k < amount ==> cur as int == run[k as int],
            forall|j: int| 0 <= j < k ==> pos_free(cells@, row as int, #[trigger] run[j]),
        decreases amount - k,
    {
        if !check_current_cell(cells, row, cur) {
            proof {
                assert(!pos_free(cells@, row as int, (positions[k as int]).1));
            }
            return false;
        }
        proof {
            if k + 1 < amount {
                lemma_run_idx_char(col as int, length as int, amount as nat, backward);
                lemma_walk_shift(col as int, length as int, k as nat, backward);
                assert(run[k as int + 1] == step_idx(run[k as int], length as int, backward));
            }
        }
        cur = if backward {
            if cur == 0 {
                length - 1
            } else {
                cur - 1
            }
        } else {
            if cur + 1 == length {
                0
            } else {
                cur + 1
            }
        };
        k = k + 1;
    }
    proof {
        assert forall|j: int| 0 <= j < amount implies pos_free(
            cells@,
            row as int,
            (#[trigger] positions[j]).1,
        ) by {
            assert(pos_free(cells@, row as int, run[j]));
        }
    }
    true
}

/// Claims every position of a horizontal run and collects the forms.
fn claim_row_run(
    cells: &mut Vec<Kmapzero>,
    row: usize,
    col: usize,
    amount: usize,
    length: usize,
    backward: bool,
) -> (forms: Vec<Vec<Literal>>)
    requires
        distinct_cells(old(cells)@),
        col < length,
        length == 2 || length == 4,
        1 <= amount <= length,
        forall|k: int|
            0 <= k < amount ==> pos_free(
                old(cells)@,
                row as int,
                (#[trigger] row_run_positions(
                    row as int,
                    col as int,
                    length as int,
                    amount as nat,
                    backward,
                )[k]).1,
            ),
    ensures
        distinct_cells(final(cells)@),
        marks_extended(old(cells)@, final(cells)@),
        run_marked(
            old(cells)@,
            final(cells)@,
            row_run_positions(row as int, col as int, length as int, amount as nat, backward),
            forms@,
        ),
{
    proof {
        lemma_run_idx_props(col as int, length as int, amount as nat, backward);
    }
    let ghost run = run_idx(col as int, length as int, amount as nat, backward);
    let ghost positions = row_run_positions(
        row as int,
        col as int,
        length as int,
        amount as nat,
        backward,
    );
    proof {
        assert(forall|j: int| 0 <= j < amount ==> (#[trigger] positions[j]).1 == run[j]);
        assert(forall|j: int| 0 <= j < amount ==> (#[trigger] positions[j]).0 == row as int);
        assert forall|j: int| 0 <= j < amount implies pos_free(
            cells@,
            row as int,
            #[trigger] run[j],
        ) by {
            assert(pos_free(cells@, row as int, (positions[j]).1));
        }
    }
    let mut forms: Vec<Vec<Literal>> = Vec::new();
    let mut cur = col;
    let mut k: usize = 0;
    while k < amount
        invariant
            k <= amount,
            col < length,
            length == 2 || length == 4,
            1 <= amount <= length,
            run == run_idx(col as int, length as int, amount as nat, backward),
            positions == row_run_positions(
                row as int,
                col as int,
                length as int,
                amount as nat,
                backward,
            ),
            run.len() == amount,
            positions.len() == amount,
            forall|j: int| 0 <= j < amount ==> 0 <= #[trigger] run[j] < length,
            forall|j: int| 0 <= j < amount ==> (#[trigger] positions[j]).1 == run[j],
            forall|j: int| 0 <= j < amount ==> (#[trigger] positions[j]).0 == row as int,
            forall|j1: int, j2: int|
                0 <= j1 < amount && 0 <= j2 < amount && j1 != j2 ==> #[trigger] run[j1]
                    != #[trigger] run[j2],
            k < amount ==> cur as int == run[k as int],
            distinct_cells(cells@),
            cells@.len() == old(cells)@.len(),
            forall|t: int|
                0 <= t < old(cells)@.len() ==> (#[trigger] cells@[t]).row == old(cells)@[t].row
                    && cells@[t].col == old(cells)@[t].col && cells@[t].form@ == old(
                    cells,
                )@[t].form@,
            forall|t: int|
                0 <= t < old(cells)@.len() ==> (#[trigger] cells@[t]).grouped == (old(
                    cells,
                )@[t].grouped || positions.take(k as int).contains(
                    (old(cells)@[t].row as int, old(cells)@[t].col as int),
                )),
            forall|j: int| k <= j < amount ==> pos_free(cells@, row as int, #[trigger] run[j]),
            forms@.len() == k,
            forall|j: int, t: int|
                0 <= j < k && 0 <= t < old(cells)@.len() && (#[trigger] old(cells)@[t]).row == (
                #[trigger] positions[j]).0 && old(cells)@[t].col == positions[j].1 ==> forms@[j]@
                    == old(cells)@[t].form@,
        decreases amount - k,
    {
        let ghost before = cells@;
        let f = mark_cell(cells, row, cur);
        forms.push(f);
        proof {
            let tk = positions.take(k as int);
            let tk1 = positions.take(k as int + 1);
            assert(tk1 =~= tk.push(positions[k as int]));
            assert forall|t: int|
                0 <= t < old(cells)@.len() implies (#[trigger] cells@[t]).grouped == (old(
                cells,
            )@[t].grouped || tk1.contains(
                (old(cells)@[t].row as int, old(cells)@[t].col as int),
            )) by {
                let pos = (old(cells)@[t].row as int, old(cells)@[t].col as int);
                assert(tk1.contains(pos) <==> (tk.contains(pos) || pos == positions[k as int]))
                    by {
                    if tk1.contains(pos) {
                        let w = choose|w: int| 0 <= w < tk1.len() && tk1[w] == pos;
                        if w < k as int {
                            assert(tk[w] == pos);
                        } else {
                            assert(tk1[w] == positions[k as int]);
                        }
                    }
                    if tk.contains(pos) {
                        let w = choose|w: int| 0 <= w < tk.len() && tk[w] == pos;
                        assert(tk1[w] == pos);
                    }
                    if pos == positions[k as int] {
                        assert(tk1[k as int] == pos);
                    }
                }
            }
            assert forall|j: int| k + 1 <= j < amount implies pos_free(
                cells@,
                row as int,
                #[trigger] run[j],
            ) by {
                assert(run[j] != run[k as int]);
                assert(pos_free(before, row as int, run[j]));
                let w = choose|w: int|
                    0 <= w < before.len() && (#[trigger] before[w]).row == row as int
                        && before[w].col == run[j] && !before[w].grouped;
                assert(cells@[w].grouped == (before[w].grouped || (before[w].row == row as int
                    && before[w].col == cur as int)));
                assert(!cells@[w].grouped);
                assert(cells@[w].row == row as int && cells@[w].col == run[j]);
            }
            assert forall|t: int|
                0 <= t < old(cells)@.len() && (#[trigger] old(cells)@[t]).row == (positions[
                k as int]).0 && old(cells)@[t].col == positions[k as int].1 implies f@ == old(
                cells,
            )@[t].form@ by {
                assert(before[t].row == old(cells)@[t].row && before[t].col == old(
                    cells,
                )@[t].col);
                assert(f@ == before[t].form@);
                assert(before[t].form@ == old(cells)@[t].form@);
            }
            assert(forms@[k as int] == f);
            if k + 1 < amount {
                lemma_run_idx_char(col as int, length as int, amount as nat, backward);
                lemma_walk_shift(col as int, length as int, k as nat, backward);
                assert(run[k as int + 1] == step_idx(run[k as int], length as int, backward));
            }
        }
        cur = if backward {
            if cur == 0 {
                length - 1
            } else {
                cur - 1
            }
        } else {
            if cur + 1 == length {
                0
            } else {
                cur + 1
            }
        };
        k = k + 1;
    }
    proof {
        assert(positions.take(amount as int) =~= positions);
    }
    forms
}

/// The literal list is the form of some cell of the grid.
pub open spec fn form_of_some_cell(cells: Seq<Kmapzero>, f: Vec<Literal>) -> bool {
    exists|t: int| 0 <= t < cells.len() && f@ == (#[trigger] cells[t]).form@
}

/// Every collected form is the form of some cell of the grid.
pub open spec fn forms_from(cells: Seq<Kmapzero>, forms: Seq<Vec<Literal>>) -> bool {
    forall|k: int| 0 <= k < forms.len() ==> form_of_some_cell(cells, #[trigger] forms[k])
}

/// What a run claims it read from cells of the grid.
proof fn lemma_run_marked_forms(
    old_cells: Seq<Kmapzero>,
    new_cells: Seq<Kmapzero>,
    positions: Seq<(int, int)>,
    forms: Seq<Vec<Literal>>,
)
    requires
        run_marked(old_cells, new_cells, positions, forms),
    ensures
        forms_from(old_cells, forms),
{
    assert forall|k: int| 0 <= k < forms.len() implies form_of_some_cell(
        old_cells,
        #[trigger] forms[k],
    ) by {
        assert(pos_free(old_cells, positions[k].0, positions[k].1));
        let t = choose|t: int|
            0 <= t < old_cells.len() && (#[trigger] old_cells[t]).row == positions[k].0
                && old_cells[t].col == positions[k].1 && !old_cells[t].grouped;
        assert(forms[k]@ == old_cells[t].form@);
    }
}

/// Forms read from an extended grid were already forms of the grid before.
proof fn lemma_forms_from_extended(
    old_cells: Seq<Kmapzero>,
    new_cells: Seq<Kmapzero>,
    forms: Seq<Vec<Literal>>,
)
    requires
        marks_extended(old_cells, new_cells),
        forms_from(new_cells, forms),
    ensures
        forms_from(old_cells, forms),
{
    assert forall|k: int| 0 <= k < forms.len() implies form_of_some_cell(
        old_cells,
        #[trigger] forms[k],
    ) by {
        assert(form_of_some_cell(new_cells, forms[k]));
        let t = choose|t: int|
            0 <= t < new_cells.len() && forms[k]@ == (#[trigger] new_cells[t]).form@;
        assert(forms[k]@ == old_cells[t].form@);
    }
}

/// Tries to claim a vertical run of `amount` cells above and including
/// `(row, col)`, wrapping past the top edge.
pub fn check_up(
    cells: &mut Vec<Kmapzero>,
    row: usize,
    col: usize,
    amount: usize,
    length: usize,
) -> (r: Option<Vec<Vec<Literal>>>)
    requires
        distinct_cells(old(cells)@),
        row < length,
        length == 2 || length == 4,
        1 <= amount <= length,
    ensures
        distinct_cells(final(cells)@),
        r is None ==> final(cells)@ == old(cells)@,
        r is Some ==> marks_extended(old(cells)@, final(cells)@) && run_marked(
            old(cells)@,
            final(cells)@,
            col_run_positions(row as int, col as int, length as int, amount as nat, true),
            r->0@,
        ) && r->0@.len() == amount,
        r is None ==> !col_run_free_at(
            old(cells)@,
            row as int,
            col as int,
            amount as nat,
            length as int,
            true,
        ),
{
    proof {
        lemma_run_idx_props(row as int, length as int, amount as nat, true);
    }
    if column_run_free(cells, row, col, amount, length, true) {
        Some(claim_column_run(cells, row, col, amount, length, true))
    } else {
        None
    }
}

/// Tries to claim a vertical run of `amount` cells below and including
/// `(row, col)`, wrapping past the bottom edge.
pub fn check_down(
    cells: &mut Vec<Kmapzero>,
    row: usize,
    col: usize,
    amount: usize,
    length: usize,
) -> (r: Option<Vec<Vec<Literal>>>)
    requires
        distinct_cells(old(cells)@),
        row < length,
        length == 2 || length == 4,
        1 <= amount <= length,
    ensures
        distinct_cells(final(cells)@),
        r is None ==> final(cells)@ == old(cells)@,
        r is Some ==> marks_extended(old(cells)@, final(cells)@) && run_marked(
            old(cells)@,
            final(cells)@,
            col_run_positions(row as int, col as int, length as int, amount as nat, false),
            r->0@,
        ) && r->0@.len() == amount,
        r is None ==> !col_run_free_at(
            old(cells)@,
            row as int,
            col as int,
            amount as nat,
            length as int,
            false,
        ),
{
    proof {
        lemma_run_idx_props(row as int, length as int, amount as nat, false);
    }
    if column_run_free(cells, row, col, amount, length, false) {
        Some(claim_column_run(cells, row, col, amount, length, false))
    } else {
        None
    }
}

/// Tries to claim a horizontal run of `amount` cells leftward from
/// `(row, col)`, wrapping past the left edge.
pub fn check_left(
    cells: &mut Vec<Kmapzero>,
    row: usize,
    col: usize,
    amount: usize,
    length: usize,
) -> (r: Option<Vec<Vec<Literal>>>)
    requires
        distinct_cells(old(cells)@),
        col < length,
        length == 2 || length == 4,
        1 <= amount <= length,
    ensures
        distinct_cells(final(cells)@),
        r is None ==> final(cells)@ == old(cells)@,
        r is Some ==> marks_extended(old(cells)@, final(cells)@) && run_marked(
            old(cells)@,
            final(cells)@,
            row_run_positions(row as int, col as int, length as int, amount as nat, true),
            r->0@,
        ) && r->0@.len() == amount,
        r is None ==> !row_run_free_at(
            old(cells)@,
            row as int,
            col as int,
            amount as nat,
            length as int,
            true,
        ),
{
    proof {
        lemma_run_idx_props(col as int, length as int, amount as nat, true);
    }
    if row_run_free(cells, row, col, amount, length, true) {
        Some(claim_row_run(cells, row, col, amount, length, true))
    } else {
        None
    }
}

/// Tries to claim a horizontal run of `amount` cells rightward from
/// `(row, col)`, wrapping past the right edge.
pub fn check_right(
    cells: &mut Vec<Kmapzero>,
    row: usize,
    col: usize,
    amount: usize,
    length: usize,
) -> (r: Option<Vec<Vec<Literal>>>)
    requires
        distinct_cells(old(cells)@),
        col < length,
        length == 2 || length == 4,
        1 <= amount <= length,
    ensures
        distinct_cells(final(cells)@),
        r is None ==> final(cells)@ == old(cells)@,
        r is Some ==> marks_extended(old(cells)@, final(cells)@) && run_marked(
            old(cells)@,
            final(cells)@,
            row_run_positions(row as int, col as int, length as int, amount as nat, false),
            r->0@,
        ) && r->0@.len() == amount,
        r is None ==> !row_run_free_at(
            old(cells)@,
            row as int,
            col as int,
            amount as nat,
            length as int,
            false,
        ),
{
    proof {
        lemma_run_idx_props(col as int, length as int, amount as nat, false);
    }
    if row_run_free(cells, row, col, amount, length, false) {
        Some(claim_row_run(cells, row, col, amount, length, false))
    } else {
        None
    }
}

/// Claims two vertical runs in different columns and collects both runs'
/// forms.
fn claim_double_col(
    cells: &mut Vec<Kmapzero>,
    row: usize,
    col1: usize,
    col2: usize,
    amount: usize,
    length: usize,
    backward: bool,
) -> (forms: Vec<Vec<Literal>>)
    requires
        distinct_cells(old(cells)@),
        col1 != col2,
        row < length,
        length == 2 || length == 4,
        1 <= amount <= length,
        forall|k: int|
            0 <= k < amount ==> pos_free(
                old(cells)@,
                (#[trigger] col_run_positions(
                    row as int,
                    col1 as int,
                    length as int,
                    amount as nat,
                    backward,
                )[k]).0,
                col1 as int,
            ),
        forall|k: int|
            0 <= k < amount ==> pos_free(
                old(cells)@,
                (#[trigger] col_run_positions(
                    row as int,
                    col2 as int,
                    length as int,
                    amount as nat,
                    backward,
                )[k]).0,
                col2 as int,
            ),
    ensures
        distinct_cells(final(cells)@),
        marks_extended(old(cells)@, final(cells)@),
        forms_from(old(cells)@, forms@),
        forms@.len() == 2 * amount,
        run_marked(
            old(cells)@,
            final(cells)@,
            col_run_positions(row as int, col1 as int, length as int, amount as nat, backward)
                + col_run_positions(
                row as int,
                col2 as int,
                length as int,
                amount as nat,
                backward,
            ),
            forms@,
        ),
{
    let ghost first = cells@;
    let ghost pos1 = col_run_positions(
        row as int,
        col1 as int,
        length as int,
        amount as nat,
        backward,
    );
    let ghost pos2 = col_run_positions(
        row as int,
        col2 as int,
        length as int,
        amount as nat,
        backward,
    );
    proof {
        lemma_run_idx_props(row as int, length as int, amount as nat, backward);
        assert(forall|j: int| 0 <= j < amount ==> (#[trigger] pos1[j]).1 == col1 as int);
        assert(forall|j: int| 0 <= j < amount ==> (#[trigger] pos2[j]).1 == col2 as int);
    }
    let mut forms = claim_column_run(cells, row, col1, amount, length, backward);
    let ghost middle = cells@;
    proof {
        lemma_run_marked_forms(first, middle, pos1, forms@);
        // the second column is untouched by a claim in the first
        assert forall|k: int| 0 <= k < amount implies pos_free(
            middle,
            (#[trigger] pos2[k]).0,
            col2 as int,
        ) by {
            assert(pos_free(first, pos2[k].0, col2 as int));
            let w = choose|w: int|
                0 <= w < first.len() && (#[trigger] first[w]).row == pos2[k].0 && first[w].col
                    == col2 as int && !first[w].grouped;
            assert(middle[w].grouped == (first[w].grouped || pos1.contains(
                (first[w].row as int, first[w].col as int),
            )));
            if pos1.contains((first[w].row as int, first[w].col as int)) {
                let j = choose|j: int|
                    0 <= j < pos1.len() && #[trigger] pos1[j] == (
                        first[w].row as int,
                        first[w].col as int,
                    );
                assert(pos1[j].1 == col1 as int);
                assert(false);
            }
            assert(!middle[w].grouped);
            assert(middle[w].row == pos2[k].0 && middle[w].col == col2 as int);
        }
    }
    let mut more = claim_column_run(cells, row, col2, amount, length, backward);
    proof {
        lemma_run_marked_forms(middle, cells@, pos2, more@);
        lemma_forms_from_extended(first, middle, more@);
        lemma_marks_extended_trans(first, middle, cells@);
        lemma_run_marked_concat(first, middle, cells@, pos1, pos2, forms@, more@);
    }
    let ghost fa = forms@;
    let ghost fb = more@;
    forms.append(&mut more);
    proof {
        assert(forms@ == fa + fb);
        assert forall|k: int| 0 <= k < forms@.len() implies form_of_some_cell(
            first,
            #[trigger] forms@[k],
        ) by {
            if k < fa.len() {
                assert(forms@[k] == fa[k]);
                assert(form_of_some_cell(first, fa[k]));
            } else {
                assert(forms@[k] == fb[k - fa.len()]);
                assert(form_of_some_cell(first, fb[k - fa.len()]));
            }
        }
    }
    forms
}

/// Claims two horizontal runs in different rows and collects both runs'
/// forms.
fn claim_double_row(
    cells: &mut Vec<Kmapzero>,
    row1: usize,
    row2: usize,
    col: usize,
    amount: usize,
    length: usize,
    backward: bool,
) -> (forms: Vec<Vec<Literal>>)
    requires
        distinct_cells(old(cells)@),
        row1 != row2,
        col < length,
        length == 2 || length == 4,
        1 <= amount <= length,
        forall|k: int|
            0 <= k < amount ==> pos_free(
                old(cells)@,
                row1 as int,
                (#[trigger] row_run_positions(
                    row1 as int,
                    col as int,
                    length as int,
                    amount as nat,
                    backward,
                )[k]).1,
            ),
        forall|k: int|
            0 <= k < amount ==> pos_free(
                old(cells)@,
                row2 as int,
                (#[trigger] row_run_positions(
                    row2 as int,
                    col as int,
                    length as int,
                    amount as nat,
                    backward,
                )[k]).1,
            ),
    ensures
        distinct_cells(final(cells)@),
        marks_extended(old(cells)@, final(cells)@),
        forms_from(old(cells)@, forms@),
        forms@.len() == 2 * amount,
        run_marked(
            old(cells)@,
            final(cells)@,
            row_run_positions(row1 as int, col as int, length as int, amount as nat, backward)
                + row_run_positions(
                row2 as int,
                col as int,
                length as int,
                amount as nat,
                backward,
            ),
            forms@,
        ),
{
    let ghost first = cells@;
    let ghost pos1 = row_run_positions(
        row1 as int,
        col as int,
        length as int,
        amount as nat,
        backward,
    );
    let ghost pos2 = row_run_positions(
        row2 as int,
        col as int,
        length as int,
        amount as nat,
        backward,
    );
    proof {
        lemma_run_idx_props(col as int, length as int, amount as nat, backward);
        assert(forall|j: int| 0 <= j < amount ==> (#[trigger] pos1[j]).0 == row1 as int);
        assert(forall|j: int| 0 <= j < amount ==> (#[trigger] pos2[j]).0 == row2 as int);
    }
    let mut forms = claim_row_run(cells, row1, col, amount, length, backward);
    let ghost middle = cells@;
    proof {
        lemma_run_marked_forms(first, middle, pos1, forms@);
        assert forall|k: int| 0 <= k < amount implies pos_free(
            middle,
            row2 as int,
            (#[trigger] pos2[k]).1,
        ) by {
            assert(pos_free(first, row2 as int, pos2[k].1));
            let w = choose|w: int|
                0 <= w < first.len() && (#[trigger] first[w]).row == row2 as int && first[w].col
                    == pos2[k].1 && !first[w].grouped;
            assert(middle[w].grouped == (first[w].grouped || pos1.contains(
                (first[w].row as int, first[w].col as int),
            )));
            if pos1.contains((first[w].row as int, first[w].col as int)) {
                let j = choose|j: int|
                    0 <= j < pos1.len() && #[trigger] pos1[j] == (
                        first[w].row as int,
                        first[w].col as int,
                    );
                assert(pos1[j].0 == row1 as int);
                assert(false);
            }
            assert(!middle[w].grouped);
            assert(middle[w].row == row2 as int && middle[w].col == pos2[k].1);
        }
    }
    let mut more = claim_row_run(cells, row2, col, amount, length, backward);
    proof {
        lemma_run_marked_forms(middle, cells@, pos2, more@);
        lemma_forms_from_extended(first, middle, more@);
        lemma_marks_extended_trans(first, middle, cells@);
        lemma_run_marked_concat(first, middle, cells@, pos1, pos2, forms@, more@);
    }
    let ghost fa = forms@;
    let ghost fb = more@;
    forms.append(&mut more);
    proof {
        assert(forms@ == fa + fb);
        assert forall|k: int| 0 <= k < forms@.len() implies form_of_some_cell(
            first,
            #[trigger] forms@[k],
        ) by {
            if k < fa.len() {
                assert(forms@[k] == fa[k]);
                assert(form_of_some_cell(first, fa[k]));
            } else {
                assert(forms@[k] == fb[k - fa.len()]);
                assert(form_of_some_cell(first, fb[k - fa.len()]));
            }
        }
    }
    forms
}

/// Every block or run the vertical search would try at this anchor has a
/// claimed or missing cell: the anchor's column paired with its left and
/// with its right neighbour for the four-by-two shape, otherwise the upward
/// and the downward run.
pub open spec fn vertical_blocked(
    cells: Seq<Kmapzero>,
    rows: int,
    cols: int,
    row: int,
    col: int,
    group_type: Groups,
    amount: nat,
) -> bool {
    if group_type == Groups::FourTwo {
        !(col_run_free_at(cells, row, col, amount, rows, true) && col_run_free_at(
            cells,
            row,
            prev_idx(col, cols),
            amount,
            rows,
            true,
        )) && !(col_run_free_at(cells, row, col, amount, rows, true) && col_run_free_at(
            cells,
            row,
            next_idx(col, cols),
            amount,
            rows,
            true,
        ))
    } else {
        !col_run_free_at(cells, row, col, amount, rows, true) && !col_run_free_at(
            cells,
            row,
            col,
            amount,
            rows,
            false,
        )
    }
}

/// What a successful vertical search claims: one of the placements it
/// tries, with the forms of exactly those cells.
pub open spec fn vertical_claimed(
    old_cells: Seq<Kmapzero>,
    new_cells: Seq<Kmapzero>,
    rows: int,
    cols: int,
    row: int,
    col: int,
    group_type: Groups,
    amount: nat,
    forms: Seq<Vec<Literal>>,
) -> bool {
    if group_type == Groups::FourTwo {
        run_marked(
            old_cells,
            new_cells,
            col_run_positions(row, col, rows, amount, true) + col_run_positions(
                row,
                prev_idx(col, cols),
                rows,
                amount,
                true,
            ),
            forms,
        ) || run_marked(
            old_cells,
            new_cells,
            col_run_positions(row, col, rows, amount, true) + col_run_positions(
                row,
                next_idx(col, cols),
                rows,
                amount,
                true,
            ),
            forms,
        )
    } else {
        run_marked(old_cells, new_cells, col_run_positions(row, col, rows, amount, true), forms)
            || run_marked(
            old_cells,
            new_cells,
            col_run_positions(row, col, rows, amount, false),
            forms,
        )
    }
}

/// Every block or run the horizontal search would try at this anchor has a
/// claimed or missing cell.
pub open spec fn horizontal_blocked(
    cells: Seq<Kmapzero>,
    rows: int,
    cols: int,
    row: int,
    col: int,
    group_type: Groups,
    amount: nat,
) -> bool {
    if group_type == Groups::FourTwo {
        !(row_run_free_at(cells, row, col, amount, cols, true) && row_run_free_at(
            cells,
            prev_idx(row, rows),
            col,
            amount,
            cols,
            true,
        )) && !(row_run_free_at(cells, row, col, amount, cols, true) && row_run_free_at(
            cells,
            next_idx(row, rows),
            col,
            amount,
            cols,
            true,
        ))
    } else {
        !row_run_free_at(cells, row, col, amount, cols, true) && !row_run_free_at(
            cells,
            row,
            col,
            amount,
            cols,
            false,
        )
    }
}

/// What a successful horizontal search claims.
pub open spec fn horizontal_claimed(
    old_cells: Seq<Kmapzero>,
    new_cells: Seq<Kmapzero>,
    rows: int,
    cols: int,
    row: int,
    col: int,
    group_type: Groups,
    amount: nat,
    forms: Seq<Vec<Literal>>,
) -> bool {
    if group_type == Groups::FourTwo {
        run_marked(
            old_cells,
            new_cells,
            row_run_positions(row, col, cols, amount, true) + row_run_positions(
                prev_idx(row, rows),
                col,
                cols,
                amount,
                true,
            ),
            forms,
        ) || run_marked(
            old_cells,
            new_cells,
            row_run_positions(row, col, cols, amount, true) + row_run_positions(
                next_idx(row, rows),
                col,
                cols,
                amount,
                true,
            ),
            forms,
        )
    } else {
        run_marked(old_cells, new_cells, row_run_positions(row, col, cols, amount, true), forms)
            || run_marked(
            old_cells,
            new_cells,
            row_run_positions(row, col, cols, amount, false),
            forms,
        )
    }
}

/// Both two-by-two squares the square search would try at this anchor have
/// a claimed or missing cell: a leftward pair in the anchor's row, doubled
/// one row up or one row down.
pub open spec fn square_blocked(
    cells: Seq<Kmapzero>,
    rows: int,
    cols: int,
    row: int,
    col: int,
) -> bool {
    !(row_run_free_at(cells, row, col, 2, cols, true) && row_run_free_at(
        cells,
        prev_idx(row, rows),
        col,
        2,
        cols,
        true,
    )) && !(row_run_free_at(cells, row, col, 2, cols, true) && row_run_free_at(
        cells,
        next_idx(row, rows),
        col,
        2,
        cols,
        true,
    ))
}

/// What a successful square search claims: a two-by-two square containing
/// the anchor, with the forms of exactly its four cells.
pub open spec fn square_claimed(
    old_cells: Seq<Kmapzero>,
    new_cells: Seq<Kmapzero>,
    rows: int,
    cols: int,
    row: int,
    col: int,
    forms: Seq<Vec<Literal>>,
) -> bool {
    run_marked(
        old_cells,
        new_cells,
        row_run_positions(row, col, cols, 2, true) + row_run_positions(
            prev_idx(row, rows),
            col,
            cols,
            2,
            true,
        ),
        forms,
    ) || run_marked(
        old_cells,
        new_cells,
        row_run_positions(row, col, cols, 2, true) + row_run_positions(
            next_idx(row, rows),
            col,
            cols,
            2,
            true,
        ),
        forms,
    )
}

/// Searches for a vertical group anchored at `(row, col)`: two full
/// adjacent columns for the four-by-two shape, otherwise a single upward or
/// downward run of the frame's length.
pub fn check_vertically(cells: &mut Vec<Kmapzero>, row: usize, col: usize, kmap_info: KmapInfo) -> (r:
    Option<Vec<Vec<Literal>>>)
    requires
        distinct_cells(old(cells)@),
        row < kmap_info.rows,
        col < kmap_info.cols,
        kmap_info.rows == 2 || kmap_info.rows == 4,
        kmap_info.cols == 2 || kmap_info.cols == 4,
        1 <= kmap_info.amount <= kmap_info.rows,
    ensures
        distinct_cells(final(cells)@),
        r is None ==> final(cells)@ == old(cells)@,
        r is None ==> vertical_blocked(
            old(cells)@,
            kmap_info.rows as int,
            kmap_info.cols as int,
            row as int,
            col as int,
            kmap_info.group_type,
            kmap_info.amount as nat,
        ),
        r is Some ==> marks_extended(old(cells)@, final(cells)@) && forms_from(
            old(cells)@,
            r->0@,
        ) && r->0@.len() >= 1,
        r is Some ==> vertical_claimed(
            old(cells)@,
            final(cells)@,
            kmap_info.rows as int,
            kmap_info.cols as int,
            row as int,
            col as int,
            kmap_info.group_type,
            kmap_info.amount as nat,
            r->0@,
        ),
        r is Some ==> r->0@.len() == (if kmap_info.group_type == Groups::FourTwo {
            2 * kmap_info.amount
        } else {
            kmap_info.amount as int
        }),
{
    let rows = kmap_info.rows;
    let cols = kmap_info.cols;
    let amount = kmap_info.amount;
    if kmap_info.group_type == Groups::FourTwo {
        let left = if col == 0 {
            cols - 1
        } else {
            col - 1
        };
        proof {
            assert(left as int == prev_idx(col as int, cols as int));
            assert(left != col);
        }
        let right = if col + 1 == cols {
            0
        } else {
            col + 1
        };
        proof {
            assert(right as int == next_idx(col as int, cols as int));
            assert(right != col);
        }
        if left != col && column_run_free(cells, row, col, amount, rows, true)
            && column_run_free(cells, row, left, amount, rows, true) {
            let forms = claim_double_col(cells, row, col, left, amount, rows, true);
            return Some(forms);
        }
        if right != col && column_run_free(cells, row, col, amount, rows, true)
            && column_run_free(cells, row, right, amount, rows, true) {
            let forms = claim_double_col(cells, row, col, right, amount, rows, true);
            return Some(forms);
        }
        None
    } else {
        match check_up(cells, row, col, amount, rows) {
            Some(forms) => {
                proof {
                    lemma_run_marked_forms(
                        old(cells)@,
                        cells@,
                        col_run_positions(
                            row as int,
                            col as int,
                            rows as int,
                            amount as nat,
                            true,
                        ),
                        forms@,
                    );
                }
                Some(forms)
            }
            None => {
                match check_down(cells, row, col, amount, rows) {
                    Some(forms) => {
                        proof {
                            lemma_run_marked_forms(
                                old(cells)@,
                                cells@,
                                col_run_positions(
                                    row as int,
                                    col as int,
                                    rows as int,
                                    amount as nat,
                                    false,
                                ),
                                forms@,
                            );
                        }
                        Some(forms)
                    }
                    None => None,
                }
            }
        }
    }
}

/// Searches for a horizontal group anchored at `(row, col)`: two full
/// adjacent rows for the four-by-two shape, otherwise a single leftward or
/// rightward run of the frame's length.
pub fn check_horizontally(
    cells: &mut Vec<Kmapzero>,
    row: usize,
    col: usize,
    kmap_info: KmapInfo,
) -> (r: Option<Vec<Vec<Literal>>>)
    requires
        distinct_cells(old(cells)@),
        row < kmap_info.rows,
        col < kmap_info.cols,
        kmap_info.rows == 2 || kmap_info.rows == 4,
        kmap_info.cols == 2 || kmap_info.cols == 4,
        1 <= kmap_info.amount <= kmap_info.cols,
    ensures
        distinct_cells(final(cells)@),
        r is None ==> final(cells)@ == old(cells)@,
        r is None ==> horizontal_blocked(
            old(cells)@,
            kmap_info.rows as int,
            kmap_info.cols as int,
            row as int,
            col as int,
            kmap_info.group_type,
            kmap_info.amount as nat,
        ),
        r is Some ==> marks_extended(old(cells)@, final(cells)@) && forms_from(
            old(cells)@,
            r->0@,
        ) && r->0@.len() >= 1,
        r is Some ==> horizontal_claimed(
            old(cells)@,
            final(cells)@,
            kmap_info.rows as int,
            kmap_info.cols as int,
            row as int,
            col as int,
            kmap_info.group_type,
            kmap_info.amount as nat,
            r->0@,
        ),
        r is Some ==> r->0@.len() == (if kmap_info.group_type == Groups::FourTwo {
            2 * kmap_info.amount
        } else {
            kmap_info.amount as int
        }),
{
    let rows = kmap_info.rows;
    let cols = kmap_info.cols;
    let amount = kmap_info.amount;
    if kmap_info.group_type == Groups::FourTwo {
        let above = if row == 0 {
            rows - 1
        } else {
            row - 1
        };
        let below = if row + 1 == rows {
            0
        } else {
            row + 1
        };
        proof {
            assert(above as int == prev_idx(row as int, rows as int));
            assert(below as int == next_idx(row as int, rows as int));
            assert(above != row && below != row);
        }
        if above != row && row_run_free(cells, row, col, amount, cols, true) && row_run_free(
            cells,
            above,
            col,
            amount,
            cols,
            true,
        ) {
            let forms = claim_double_row(cells, row, above, col, amount, cols, true);
            return Some(forms);
        }
        if below != row && row_run_free(cells, row, col, amount, cols, true) && row_run_free(
            cells,
            below,
            col,
            amount,
            cols,
            true,
        ) {
            let forms = claim_double_row(cells, row, below, col, amount, cols, true);
            return Some(forms);
        }
        None
    } else {
        match check_left(cells, row, col, amount, cols) {
            Some(forms) => {
                proof {
                    lemma_run_marked_forms(
                        old(cells)@,
                        cells@,
                        row_run_positions(
                            row as int,
                            col as int,
                            cols as int,
                            amount as nat,
                            true,
                        ),
                        forms@,
                    );
                }
                Some(forms)
            }
            None => {
                match check_right(cells, row, col, amount, cols) {
                    Some(forms) => {
                        proof {
                            lemma_run_marked_forms(
                                old(cells)@,
                                cells@,
                                row_run_positions(
                                    row as int,
                                    col as int,
                                    cols as int,
                                    amount as nat,
                                    false,
                                ),
                                forms@,
                            );
                        }
                        Some(forms)
                    }
                    None => None,
                }
            }
        }
    }
}

/// Searches for a two-by-two square anchored at `(row, col)`: a horizontal
/// pair in this row and the same pair one row up, else one row down.
pub fn check_square(cells: &mut Vec<Kmapzero>, row: usize, col: usize, kmap_info: KmapInfo) -> (r:
    Option<Vec<Vec<Literal>>>)
    requires
        distinct_cells(old(cells)@),
        row < kmap_info.rows,
        col < kmap_info.cols,
        kmap_info.rows == 2 || kmap_info.rows == 4,
        kmap_info.cols == 2 || kmap_info.cols == 4,
    ensures
        distinct_cells(final(cells)@),
        r is None ==> final(cells)@ == old(cells)@,
        r is None ==> square_blocked(
            old(cells)@,
            kmap_info.rows as int,
            kmap_info.cols as int,
            row as int,
            col as int,
        ),
        r is Some ==> marks_extended(old(cells)@, final(cells)@) && forms_from(
            old(cells)@,
            r->0@,
        ) && r->0@.len() >= 1,
        r is Some ==> square_claimed(
            old(cells)@,
            final(cells)@,
            kmap_info.rows as int,
            kmap_info.cols as int,
            row as int,
            col as int,
            r->0@,
        ),
        r is Some ==> r->0@.len() == 4,
{
    let rows = kmap_info.rows;
    let cols = kmap_info.cols;
    let above = if row == 0 {
        rows - 1
    } else {
        row - 1
    };
    let below = if row + 1 == rows {
        0
    } else {
        row + 1
    };
    proof {
        assert(above as int == prev_idx(row as int, rows as int));
        assert(below as int == next_idx(row as int, rows as int));
        assert(above != row && below != row);
    }
    if above != row && row_run_free(cells, row, col, 2, cols, true) && row_run_free(
        cells,
        above,
        col,
        2,
        cols,
        true,
    ) {
        let forms = claim_double_row(cells, row, above, col, 2, cols, true);
        return Some(forms);
    }
    if below != row && row_run_free(cells, row, col, 2, cols, true) && row_run_free(
        cells,
        below,
        col,
        2,
        cols,
        true,
    ) {
        let forms = claim_double_row(cells, row, below, col, 2, cols, true);
        return Some(forms);
    }
    None
}

/// No unclaimed cell is left exactly when every cell is claimed.
proof fn lemma_count_zero_all_grouped(cells: Seq<Kmapzero>)
    ensures
        count_ungrouped(cells) == 0 <==> (forall|t: int|
            0 <= t < cells.len() ==> (#[trigger] cells[t]).grouped),
    decreases cells.len(),
{
    if cells.len() > 0 {
        lemma_count_zero_all_grouped(cells.drop_last());
        assert(forall|t: int|
            0 <= t < cells.len() - 1 ==> #[trigger] cells[t] == cells.drop_last()[t]);
    }
}

/// With every cell claimed, no position is free.
proof fn lemma_count_zero_no_free(cells: Seq<Kmapzero>, row: int, col: int)
    requires
        count_ungrouped(cells) == 0,
    ensures
        !pos_free(cells, row, col),
{
    lemma_count_zero_all_grouped(cells);
}

/// Every literal of the first list belongs to the second.
pub open spec fn lits_subset(c: Seq<Literal>, f: Seq<Literal>) -> bool {
    forall|i: int| 0 <= i < c.len() ==> f.contains(#[trigger] c[i])
}

/// The clause's literals all come from the form of one cell of the grid.
pub open spec fn clause_of_cell(cells: Seq<Kmapzero>, c: Vec<Literal>) -> bool {
    exists|t: int| 0 <= t < cells.len() && lits_subset(c@, (#[trigger] cells[t]).form@)
}

/// Every clause is drawn from the form of some cell.
pub open spec fn clauses_ok(cells: Seq<Kmapzero>, clauses: Seq<Vec<Literal>>) -> bool {
    forall|k: int| 0 <= k < clauses.len() ==> clause_of_cell(cells, #[trigger] clauses[k])
}

/// Some clause of the list lies within the given form.
pub open spec fn covered_by(clauses: Seq<Vec<Literal>>, form: Seq<Literal>) -> bool {
    exists|k: int| 0 <= k < clauses.len() && lits_subset((#[trigger] clauses[k])@, form)
}

/// Whether a literal occurs in a list.
pub fn contains_literal(v: &Vec<Literal>, lit: Literal) -> (r: bool)
    ensures
        r == v@.contains(lit),
{
    let mut i: usize = 0;
    while i < v.len()
        invariant
            i <= v@.len(),
            forall|t: int| 0 <= t < i ==> v@[t] != lit,
        decreases v@.len() - i,
    {
        if v[i].name == lit.name && v[i].negated == lit.negated {
            proof {
                assert(v@[i as int] == lit);
            }
            return true;
        }
        i = i + 1;
    }
    false
}

/// The literals common to every collected form: the first form filtered to
/// what all the others also hold. A literal of the first form is kept
/// exactly when every form holds it.
pub fn intersect_forms(forms: &Vec<Vec<Literal>>) -> (r: Vec<Literal>)
    requires
        forms@.len() >= 1,
    ensures
        lits_subset(r@, forms@[0]@),
        forall|j: int| 0 <= j < forms@.len() ==> lits_subset(r@, (#[trigger] forms@[j])@),
        forall|l: Literal|
            #[trigger] forms@[0]@.contains(l) && (forall|j: int|
                0 <= j < forms@.len() ==> (#[trigger] forms@[j])@.contains(l)) ==> r@.contains(l),
{
    let first = copy_lits(&forms[0]);
    let mut out: Vec<Literal> = Vec::new();
    let mut i: usize = 0;
    while i < first.len()
        invariant
            i <= first@.len(),
            first@ == forms@[0]@,
            forms@.len() >= 1,
            lits_subset(out@, forms@[0]@),
            forall|j: int| 0 <= j < forms@.len() ==> lits_subset(out@, (#[trigger] forms@[j])@),
            forall|l: Literal|
                #[trigger] first@.take(i as int).contains(l) && (forall|j: int|
                    0 <= j < forms@.len() ==> (#[trigger] forms@[j])@.contains(l))
                    ==> out@.contains(l),
        decreases first@.len() - i,
    {
        let ghost out_at_entry = out@;
        let lit = first[i];
        let mut everywhere = true;
        let mut j: usize = 0;
        while j < forms.len()
            invariant
                j <= forms@.len(),
                everywhere ==> (forall|u: int|
                    0 <= u < j ==> (#[trigger] forms@[u])@.contains(lit)),
                !everywhere ==> (exists|u: int|
                    0 <= u < j && !(#[trigger] forms@[u])@.contains(lit)),
            decreases forms@.len() - j,
        {
            if !contains_literal(&forms[j], lit) {
                everywhere = false;
            }
            j = j + 1;
        }
        if everywhere {
            let ghost prev = out@;
            out.push(lit);
            proof {
                assert(first@.contains(lit)) by {
                    assert(first@[i as int] == lit);
                }
                assert forall|u: int|
                    0 <= u < out@.len() implies forms@[0]@.contains(#[trigger] out@[u]) by {
                    if u < prev.len() {
                        assert(out@[u] == prev[u]);
                    }
                }
                assert forall|j2: int, u: int|
                    0 <= j2 < forms@.len() && 0 <= u < out@.len() implies (
                #[trigger] forms@[j2])@.contains(#[trigger] out@[u]) by {
                    if u < prev.len() {
                        assert(out@[u] == prev[u]);
                        assert(lits_subset(prev, forms@[j2]@));
                    } else {
                        assert(out@[u] == lit);
                    }
                }
            }
        }
        proof {
            assert(first@.take(i as int + 1) =~= first@.take(i as int).push(first@[i as int]));
            assert forall|l: Literal|
                #[trigger] first@.take(i as int + 1).contains(l) && (forall|j: int|
                    0 <= j < forms@.len() ==> (#[trigger] forms@[j])@.contains(l)) implies out@.contains(
                l,
            ) by {
                let tk1 = first@.take(i as int + 1);
                let w = choose|w: int| 0 <= w < tk1.len() && tk1[w] == l;
                if w < i as int {
                    assert(first@.take(i as int)[w] == l);
                    assert(first@.take(i as int).contains(l));
                    assert(out_at_entry.contains(l));
                    let v = choose|v: int| 0 <= v < out_at_entry.len() && out_at_entry[v] == l;
                    assert(out@[v] == l);
                } else {
                    assert(l == lit);
                    assert(forms@[0]@.contains(lit) && (forall|j: int|
                        0 <= j < forms@.len() ==> (#[trigger] forms@[j])@.contains(lit)));
                    assert(out@[out@.len() - 1] == lit);
                }
            }
        }
        i = i + 1;
    }
    proof {
        assert(first@.take(first@.len() as int) =~= first@);
    }
    out
}

/// At this anchor every search this level runs is blocked: either the
/// anchor holds no unclaimed cell, or each placement the level would try
/// has a claimed or missing cell.
pub open spec fn level_blocked(
    cells: Seq<Kmapzero>,
    rows: int,
    cols: int,
    r: int,
    c: int,
    vertical: bool,
    horizontal: bool,
    square: bool,
    group_type: Groups,
    amount: nat,
) -> bool {
    !pos_free(cells, r, c) || ((vertical ==> vertical_blocked(
        cells,
        rows,
        cols,
        r,
        c,
        group_type,
        amount,
    )) && (horizontal ==> horizontal_blocked(cells, rows, cols, r, c, group_type, amount)) && (
    square ==> square_blocked(cells, rows, cols, r, c)))
}

/// The position held an unclaimed cell that is claimed now.
pub open spec fn claimed_at(
    old_cells: Seq<Kmapzero>,
    new_cells: Seq<Kmapzero>,
    p: (int, int),
) -> bool {
    exists|t: int|
        0 <= t < old_cells.len() && (#[trigger] old_cells[t]).row == p.0 && old_cells[t].col == p.1
            && !old_cells[t].grouped && new_cells[t].grouped
}

/// Every listed position held an unclaimed cell that is claimed now.
pub open spec fn group_claimed(
    old_cells: Seq<Kmapzero>,
    new_cells: Seq<Kmapzero>,
    ps: Seq<(int, int)>,
) -> bool {
    &&& new_cells.len() == old_cells.len()
    &&& forall|k: int| 0 <= k < ps.len() ==> claimed_at(old_cells, new_cells, #[trigger] ps[k])
}

/// The literal occurs in the form of every cell at the listed positions.
pub open spec fn common_literal(cells: Seq<Kmapzero>, ps: Seq<(int, int)>, l: Literal) -> bool {
    forall|k: int, t: int|
        0 <= k < ps.len() && 0 <= t < cells.len() && (#[trigger] cells[t]).row == (
        #[trigger] ps[k]).0 && cells[t].col == ps[k].1 ==> cells[t].form@.contains(l)
}

/// One placement this level searches, anchored at `(r, c)`: a doubled or
/// single vertical run, a doubled or single horizontal run, or a square.
pub open spec fn level_positions(
    rows: int,
    cols: int,
    r: int,
    c: int,
    vertical: bool,
    horizontal: bool,
    square: bool,
    group_type: Groups,
    amount: nat,
    ps: Seq<(int, int)>,
) -> bool {
    ||| (vertical && group_type == Groups::FourTwo && (ps == col_run_positions(
        r,
        c,
        rows,
        amount,
        true,
    ) + col_run_positions(r, prev_idx(c, cols), rows, amount, true) || ps == col_run_positions(
        r,
        c,
        rows,
        amount,
        true,
    ) + col_run_positions(r, next_idx(c, cols), rows, amount, true)))
    ||| (vertical && group_type != Groups::FourTwo && (ps == col_run_positions(
        r,
        c,
        rows,
        amount,
        true,
    ) || ps == col_run_positions(r, c, rows, amount, false)))
    ||| (horizontal && group_type == Groups::FourTwo && (ps == row_run_positions(
        r,
        c,
        cols,
        amount,
        true,
    ) + row_run_positions(prev_idx(r, rows), c, cols, amount, true) || ps == row_run_positions(
        r,
        c,
        cols,
        amount,
        true,
    ) + row_run_positions(next_idx(r, rows), c, cols, amount, true)))
    ||| (horizontal && group_type != Groups::FourTwo && (ps == row_run_positions(
        r,
        c,
        cols,
        amount,
        true,
    ) || ps == row_run_positions(r, c, cols, amount, false)))
    ||| (square && (ps == row_run_positions(r, c, cols, 2, true) + row_run_positions(
        prev_idx(r, rows),
        c,
        cols,
        2,
        true,
    ) || ps == row_run_positions(r, c, cols, 2, true) + row_run_positions(
        next_idx(r, rows),
        c,
        cols,
        2,
        true,
    )))
}

/// The clause is exactly the common literals of one group this level
/// claimed: a placement it searches, all of whose cells it claimed, such
/// that a literal is in the clause precisely when every member's form
/// holds it.
pub open spec fn level_clause_from(
    old_cells: Seq<Kmapzero>,
    new_cells: Seq<Kmapzero>,
    rows: int,
    cols: int,
    vertical: bool,
    horizontal: bool,
    square: bool,
    group_type: Groups,
    amount: nat,
    clause: Vec<Literal>,
) -> bool {
    exists|r: int, c: int, ps: Seq<(int, int)>|
        {
            &&& 0 <= r < rows
            &&& 0 <= c < cols
            &&& #[trigger] level_positions(
                rows,
                cols,
                r,
                c,
                vertical,
                horizontal,
                square,
                group_type,
                amount,
                ps,
            )
            &&& group_claimed(old_cells, new_cells, ps)
            &&& forall|l: Literal| #[trigger]
                clause@.contains(l) <==> common_literal(old_cells, ps, l)
        }
}

/// Claims only shrink the set of unclaimed positions.
proof fn lemma_pos_free_monotone(a: Seq<Kmapzero>, b: Seq<Kmapzero>)
    requires
        marks_extended(a, b),
    ensures
        forall|r: int, c: int| #[trigger] pos_free(b, r, c) ==> pos_free(a, r, c),
{
    assert forall|r: int, c: int| #[trigger] pos_free(b, r, c) implies pos_free(a, r, c) by {
        let t = choose|t: int|
            0 <= t < b.len() && (#[trigger] b[t]).row == r && b[t].col == c && !b[t].grouped;
        assert(a[t].row == r && a[t].col == c && !a[t].grouped);
    }
}

/// A blocked anchor stays blocked as more cells are claimed.
proof fn lemma_level_blocked_monotone(
    a: Seq<Kmapzero>,
    b: Seq<Kmapzero>,
    rows: int,
    cols: int,
    r: int,
    c: int,
    vertical: bool,
    horizontal: bool,
    square: bool,
    group_type: Groups,
    amount: nat,
)
    requires
        marks_extended(a, b),
        level_blocked(a, rows, cols, r, c, vertical, horizontal, square, group_type, amount),
    ensures
        level_blocked(b, rows, cols, r, c, vertical, horizontal, square, group_type, amount),
{
    lemma_pos_free_monotone(a, b);
    if pos_free(b, r, c) {
        assert(pos_free(a, r, c));
        assert forall|row2: int, col2: int, amt2: nat, len2: int, bk2: bool|
            #[trigger] col_run_free_at(b, row2, col2, amt2, len2, bk2) implies col_run_free_at(
            a,
            row2,
            col2,
            amt2,
            len2,
            bk2,
        ) by {
            assert forall|k: int| 0 <= k < amt2 implies pos_free(
                a,
                (#[trigger] col_run_positions(row2, col2, len2, amt2, bk2)[k]).0,
                col2,
            ) by {
                assert(pos_free(b, col_run_positions(row2, col2, len2, amt2, bk2)[k].0, col2));
            }
        }
        assert forall|row2: int, col2: int, amt2: nat, len2: int, bk2: bool|
            #[trigger] row_run_free_at(b, row2, col2, amt2, len2, bk2) implies row_run_free_at(
            a,
            row2,
            col2,
            amt2,
            len2,
            bk2,
        ) by {
            assert forall|k: int| 0 <= k < amt2 implies pos_free(
                a,
                row2,
                (#[trigger] row_run_positions(row2, col2, len2, amt2, bk2)[k]).1,
            ) by {
                assert(pos_free(b, row2, row_run_positions(row2, col2, len2, amt2, bk2)[k].1));
            }
        }
    }
}

/// A claimed group stays claimed as more cells are claimed.
proof fn lemma_group_claimed_monotone(
    orig: Seq<Kmapzero>,
    a: Seq<Kmapzero>,
    b: Seq<Kmapzero>,
    ps: Seq<(int, int)>,
)
    requires
        group_claimed(orig, a, ps),
        marks_extended(a, b),
    ensures
        group_claimed(orig, b, ps),
{
    assert forall|k: int| 0 <= k < ps.len() implies claimed_at(orig, b, #[trigger] ps[k]) by {
        assert(claimed_at(orig, a, ps[k]));
        let t = choose|t: int|
            0 <= t < orig.len() && (#[trigger] orig[t]).row == ps[k].0 && orig[t].col == ps[k].1
                && !orig[t].grouped && a[t].grouped;
        assert(b[t].grouped);
        assert(orig[t].row == ps[k].0 && orig[t].col == ps[k].1);
    }
}

/// A run claimed against the current grid is a group claimed against the
/// scan's starting grid.
proof fn lemma_scan_claim_facts(
    orig: Seq<Kmapzero>,
    pre: Seq<Kmapzero>,
    cur: Seq<Kmapzero>,
    ps: Seq<(int, int)>,
    forms: Seq<Vec<Literal>>,
    row: int,
    col: int,
)
    requires
        marks_extended(orig, pre),
        run_marked(pre, cur, ps, forms),
    ensures
        marks_extended(pre, cur),
        group_claimed(orig, cur, ps),
{
    assert(marks_extended(pre, cur));
    assert forall|k: int| 0 <= k < ps.len() implies claimed_at(orig, cur, #[trigger] ps[k]) by {
        assert(pos_free(pre, ps[k].0, ps[k].1));
        let t = choose|t: int|
            0 <= t < pre.len() && (#[trigger] pre[t]).row == ps[k].0 && pre[t].col == ps[k].1
                && !pre[t].grouped;
        assert(!orig[t].grouped);
        assert(orig[t].row == ps[k].0 && orig[t].col == ps[k].1);
        assert(ps.contains(ps[k]));
        assert(cur[t].grouped);
    }
}

/// One level of the grouping scan: walks the grid in reverse row-major
/// order and, at each unclaimed cell, tries the searches the level allows;
/// a found group is claimed and its common literals become one clause. On
/// exit no placement the level searches is left fully unclaimed anywhere.
/// What appending the intersection clause of a freshly claimed group
/// preserves and adds: the clause list stays drawn from the grid, covers
/// every claimed cell, records the new group exactly, and the anchor is no
/// longer free.
#[verifier::rlimit(100)]
proof fn lemma_scan_step(
    orig: Seq<Kmapzero>,
    pre: Seq<Kmapzero>,
    cur: Seq<Kmapzero>,
    ps: Seq<(int, int)>,
    forms: Seq<Vec<Literal>>,
    clause: Vec<Literal>,
    prev: Seq<Vec<Literal>>,
    rows: int,
    cols: int,
    row: int,
    col: int,
    vertical: bool,
    horizontal: bool,
    square: bool,
    group_type: Groups,
    amount: nat,
)
    requires
        marks_extended(orig, pre),
        run_marked(pre, cur, ps, forms),
        level_positions(rows, cols, row, col, vertical, horizontal, square, group_type, amount, ps),
        0 <= row < rows,
        0 <= col < cols,
        rows == 2 || rows == 4,
        cols == 2 || cols == 4,
        1 <= amount,
        vertical ==> amount <= rows,
        horizontal ==> amount <= cols,
        forall|j: int| 0 <= j < forms.len() ==> lits_subset(clause@, (#[trigger] forms[j])@),
        forall|l: Literal|
            forms[0]@.contains(l) && (forall|j: int|
                0 <= j < forms.len() ==> (#[trigger] forms[j])@.contains(l)) ==> clause@.contains(
                l,
            ),
        clauses_ok(orig, prev),
        forall|t: int|
            0 <= t < orig.len() && !(#[trigger] orig[t]).grouped && pre[t].grouped ==> covered_by(
                prev,
                orig[t].form@,
            ),
        forall|k: int|
            0 <= k < prev.len() ==> level_clause_from(
                orig,
                pre,
                rows,
                cols,
                vertical,
                horizontal,
                square,
                group_type,
                amount,
                #[trigger] prev[k],
            ),
    ensures
        marks_extended(orig, cur),
        clauses_ok(orig, prev.push(clause)),
        forall|t: int|
            0 <= t < orig.len() && !(#[trigger] orig[t]).grouped && cur[t].grouped ==> covered_by(
                prev.push(clause),
                orig[t].form@,
            ),
        forall|k: int|
            0 <= k < prev.push(clause).len() ==> level_clause_from(
                orig,
                cur,
                rows,
                cols,
                vertical,
                horizontal,
                square,
                group_type,
                amount,
                #[trigger] prev.push(clause)[k],
            ),
        !pos_free(cur, row, col),
{
    let newc = prev.push(clause);
    lemma_scan_claim_facts(orig, pre, cur, ps, forms, row, col);
    lemma_marks_extended_trans(orig, pre, cur);
    // the claimed placement starts at the anchor
    assert(ps.len() >= 1 && ps[0] == (row, col)) by {
        if vertical {
            lemma_run_idx_props(row, rows, amount, true);
            lemma_run_idx_props(row, rows, amount, false);
        }
        if horizontal {
            lemma_run_idx_props(col, cols, amount, true);
            lemma_run_idx_props(col, cols, amount, false);
        }
        if square {
            lemma_run_idx_props(col, cols, 2, true);
        }
    }
    // the new clause is exactly the common literals of the group
    assert forall|l: Literal| #[trigger] clause@.contains(l) <==> common_literal(orig, ps, l) by {
        if clause@.contains(l) {
            assert forall|k: int, t: int|
                0 <= k < ps.len() && 0 <= t < orig.len() && (#[trigger] orig[t]).row == (
                #[trigger] ps[k]).0 && orig[t].col == ps[k].1 implies orig[t].form@.contains(
                l,
            ) by {
                assert(pre[t].row == orig[t].row && pre[t].col == orig[t].col);
                assert(forms[k]@ == pre[t].form@);
                assert(lits_subset(clause@, forms[k]@));
                assert(pre[t].form@ == orig[t].form@);
            }
        }
        if common_literal(orig, ps, l) {
            assert forall|j: int| 0 <= j < forms.len() implies (#[trigger] forms[j])@.contains(
                l,
            ) by {
                assert(pos_free(pre, ps[j].0, ps[j].1));
                let t = choose|t: int|
                    0 <= t < pre.len() && (#[trigger] pre[t]).row == ps[j].0 && pre[t].col
                        == ps[j].1 && !pre[t].grouped;
                assert(orig[t].row == pre[t].row && orig[t].col == pre[t].col);
                assert(orig[t].form@.contains(l));
                assert(forms[j]@ == pre[t].form@);
                assert(pre[t].form@ == orig[t].form@);
            }
            assert(forms[0]@.contains(l));
        }
    }
    assert(level_clause_from(
        orig,
        cur,
        rows,
        cols,
        vertical,
        horizontal,
        square,
        group_type,
        amount,
        clause,
    ));
    // the new clause really is drawn from a cell of the grid
    assert(clause_of_cell(orig, clause)) by {
        assert(pos_free(pre, ps[0].0, ps[0].1));
        let t = choose|t: int|
            0 <= t < pre.len() && (#[trigger] pre[t]).row == ps[0].0 && pre[t].col == ps[0].1
                && !pre[t].grouped;
        assert(forms[0]@ == pre[t].form@);
        assert(lits_subset(clause@, forms[0]@));
        assert(pre[t].form@ == orig[t].form@);
        assert(lits_subset(clause@, orig[t].form@));
    }
    assert forall|k: int| 0 <= k < newc.len() implies clause_of_cell(orig, #[trigger] newc[k]) by {
        if k < prev.len() {
            assert(newc[k] == prev[k]);
        } else {
            assert(newc[k] == clause);
        }
    }
    // earlier clauses carry over to the new grid state
    assert forall|k: int| 0 <= k < newc.len() implies level_clause_from(
        orig,
        cur,
        rows,
        cols,
        vertical,
        horizontal,
        square,
        group_type,
        amount,
        #[trigger] newc[k],
    ) by {
        if k < prev.len() {
            assert(newc[k] == prev[k]);
            assert(level_clause_from(
                orig,
                pre,
                rows,
                cols,
                vertical,
                horizontal,
                square,
                group_type,
                amount,
                prev[k],
            ));
            let (r3, c3, ps3) = choose|r3: int, c3: int, ps3: Seq<(int, int)>|
                {
                    &&& 0 <= r3 < rows
                    &&& 0 <= c3 < cols
                    &&& #[trigger] level_positions(
                        rows,
                        cols,
                        r3,
                        c3,
                        vertical,
                        horizontal,
                        square,
                        group_type,
                        amount,
                        ps3,
                    )
                    &&& group_claimed(orig, pre, ps3)
                    &&& forall|l: Literal| #[trigger]
                        prev[k]@.contains(l) <==> common_literal(orig, ps3, l)
                };
            lemma_group_claimed_monotone(orig, pre, cur, ps3);
        } else {
            assert(newc[k] == clause);
        }
    }
    // every cell claimed so far has a clause inside its form
    assert forall|t: int|
        0 <= t < orig.len() && !(#[trigger] orig[t]).grouped && cur[t].grouped implies covered_by(
        newc,
        orig[t].form@,
    ) by {
        if pre[t].grouped {
            assert(covered_by(prev, orig[t].form@));
            let k = choose|k: int|
                0 <= k < prev.len() && lits_subset((#[trigger] prev[k])@, orig[t].form@);
            assert(newc[k] == prev[k]);
        } else {
            assert(ps.contains((orig[t].row as int, orig[t].col as int)));
            let k = choose|k: int|
                0 <= k < ps.len() && #[trigger] ps[k] == (orig[t].row as int, orig[t].col as int);
            assert(pre[t].row == orig[t].row && pre[t].col == orig[t].col);
            assert(forms[k]@ == pre[t].form@);
            assert(lits_subset(clause@, forms[k]@));
            assert(pre[t].form@ == orig[t].form@);
            assert(newc[newc.len() - 1] == clause);
            assert(lits_subset(clause@, orig[t].form@));
        }
    }
    // the anchor itself is claimed now
    assert(!pos_free(cur, row, col)) by {
        assert(ps.contains((row, col)));
        if pos_free(cur, row, col) {
            let t = choose|t: int|
                0 <= t < cur.len() && (#[trigger] cur[t]).row == row && cur[t].col == col
                    && !cur[t].grouped;
            assert(pre[t].row == row && pre[t].col == col);
            assert(cur[t].grouped);
        }
    }
}

/// One anchor of the grouping scan: if `(row, col)` holds an unclaimed
/// cell, tries the searches the level allows there, claims a found group,
/// and appends its common literals as one clause.
#[verifier::rlimit(100)]
fn scan_anchor(
    zero_cells: &mut Vec<Kmapzero>,
    clauses: &mut Vec<Vec<Literal>>,
    Ghost(orig): Ghost<Seq<Kmapzero>>,
    rows: usize,
    cols: usize,
    row: usize,
    col: usize,
    vertical: bool,
    horizontal: bool,
    square: bool,
    group_type: Groups,
    amount: usize,
)
    requires
        distinct_cells(old(zero_cells)@),
        marks_extended(orig, old(zero_cells)@),
        row < rows,
        col < cols,
        rows == 2 || rows == 4,
        cols == 2 || cols == 4,
        1 <= amount,
        vertical ==> amount <= rows,
        horizontal ==> amount <= cols,
        clauses_ok(orig, old(clauses)@),
        old(clauses)@.len() == 0 ==> old(zero_cells)@ == orig,
        count_ungrouped(orig) == 0 ==> old(zero_cells)@ == orig && old(clauses)@.len() == 0,
        forall|t: int|
            0 <= t < orig.len() && !(#[trigger] orig[t]).grouped && old(zero_cells)@[t].grouped
                ==> covered_by(old(clauses)@, orig[t].form@),
        forall|k: int|
            0 <= k < old(clauses)@.len() ==> level_clause_from(
                orig,
                old(zero_cells)@,
                rows as int,
                cols as int,
                vertical,
                horizontal,
                square,
                group_type,
                amount as nat,
                #[trigger] old(clauses)@[k],
            ),
    ensures
        distinct_cells(final(zero_cells)@),
        marks_extended(orig, final(zero_cells)@),
        marks_extended(old(zero_cells)@, final(zero_cells)@),
        clauses_ok(orig, final(clauses)@),
        final(clauses)@.len() == 0 ==> final(zero_cells)@ == orig,
        count_ungrouped(orig) == 0 ==> final(zero_cells)@ == orig && final(clauses)@.len() == 0,
        forall|t: int|
            0 <= t < orig.len() && !(#[trigger] orig[t]).grouped && final(zero_cells)@[t].grouped
                ==> covered_by(final(clauses)@, orig[t].form@),
        forall|k: int|
            0 <= k < final(clauses)@.len() ==> level_clause_from(
                orig,
                final(zero_cells)@,
                rows as int,
                cols as int,
                vertical,
                horizontal,
                square,
                group_type,
                amount as nat,
                #[trigger] final(clauses)@[k],
            ),
        level_blocked(
            final(zero_cells)@,
            rows as int,
            cols as int,
            row as int,
            col as int,
            vertical,
            horizontal,
            square,
            group_type,
            amount as nat,
        ),
{
    let ghost pre = zero_cells@;
    if check_current_cell(zero_cells, row, col) {
        proof {
            if count_ungrouped(orig) == 0 {
                lemma_count_zero_no_free(zero_cells@, row as int, col as int);
            }
        }
        let info = KmapInfo { rows, cols, group_type, amount };
        let ghost mut claimed_ps: Seq<(int, int)> = Seq::empty();
        let mut attempt: Option<Vec<Vec<Literal>>> = None;
        if vertical {
            attempt = check_vertically(zero_cells, row, col, info);
            proof {
                if attempt is Some {
                    if group_type == Groups::FourTwo {
                        if run_marked(
                            pre,
                            zero_cells@,
                            col_run_positions(
                                row as int,
                                col as int,
                                rows as int,
                                amount as nat,
                                true,
                            ) + col_run_positions(
                                row as int,
                                prev_idx(col as int, cols as int),
                                rows as int,
                                amount as nat,
                                true,
                            ),
                            attempt->0@,
                        ) {
                            claimed_ps = col_run_positions(
                                row as int,
                                col as int,
                                rows as int,
                                amount as nat,
                                true,
                            ) + col_run_positions(
                                row as int,
                                prev_idx(col as int, cols as int),
                                rows as int,
                                amount as nat,
                                true,
                            );
                        } else {
                            claimed_ps = col_run_positions(
                                row as int,
                                col as int,
                                rows as int,
                                amount as nat,
                                true,
                            ) + col_run_positions(
                                row as int,
                                next_idx(col as int, cols as int),
                                rows as int,
                                amount as nat,
                                true,
                            );
                        }
                    } else {
                        if run_marked(
                            pre,
                            zero_cells@,
                            col_run_positions(
                                row as int,
                                col as int,
                                rows as int,
                                amount as nat,
                                true,
                            ),
                            attempt->0@,
                        ) {
                            claimed_ps = col_run_positions(
                                row as int,
                                col as int,
                                rows as int,
                                amount as nat,
                                true,
                            );
                        } else {
                            claimed_ps = col_run_positions(
                                row as int,
                                col as int,
                                rows as int,
                                amount as nat,
                                false,
                            );
                        }
                    }
                    assert(run_marked(pre, zero_cells@, claimed_ps, attempt->0@));
                    assert(level_positions(
                        rows as int,
                        cols as int,
                        row as int,
                        col as int,
                        vertical,
                        horizontal,
                        square,
                        group_type,
                        amount as nat,
                        claimed_ps,
                    ));
                }
            }
        }
        if attempt.is_none() && horizontal {
            attempt = check_horizontally(zero_cells, row, col, info);
            proof {
                if attempt is Some {
                    if group_type == Groups::FourTwo {
                        if run_marked(
                            pre,
                            zero_cells@,
                            row_run_positions(
                                row as int,
                                col as int,
                                cols as int,
                                amount as nat,
                                true,
                            ) + row_run_positions(
                                prev_idx(row as int, rows as int),
                                col as int,
                                cols as int,
                                amount as nat,
                                true,
                            ),
                            attempt->0@,
                        ) {
                            claimed_ps = row_run_positions(
                                row as int,
                                col as int,
                                cols as int,
                                amount as nat,
                                true,
                            ) + row_run_positions(
                                prev_idx(row as int, rows as int),
                                col as int,
                                cols as int,
                                amount as nat,
                                true,
                            );
                        } else {
                            claimed_ps = row_run_positions(
                                row as int,
                                col as int,
                                cols as int,
                                amount as nat,
                                true,
                            ) + row_run_positions(
                                next_idx(row as int, rows as int),
                                col as int,
                                cols as int,
                                amount as nat,
                                true,
                            );
                        }
                    } else {
                        if run_marked(
                            pre,
                            zero_cells@,
                            row_run_positions(
                                row as int,
                                col as int,
                                cols as int,
                                amount as nat,
                                true,
                            ),
                            attempt->0@,
                        ) {
                            claimed_ps = row_run_positions(
                                row as int,
                                col as int,
                                cols as int,
                                amount as nat,
                                true,
                            );
                        } else {
                            claimed_ps = row_run_positions(
                                row as int,
                                col as int,
                                cols as int,
                                amount as nat,
                                false,
                            );
                        }
                    }
                    assert(run_marked(pre, zero_cells@, claimed_ps, attempt->0@));
                    assert(level_positions(
                        rows as int,
                        cols as int,
                        row as int,
                        col as int,
                        vertical,
                        horizontal,
                        square,
                        group_type,
                        amount as nat,
                        claimed_ps,
                    ));
                }
            }
        }
        if attempt.is_none() && square {
            attempt = check_square(zero_cells, row, col, info);
            proof {
                if attempt is Some {
                    if run_marked(
                        pre,
                        zero_cells@,
                        row_run_positions(row as int, col as int, cols as int, 2, true)
                            + row_run_positions(
                            prev_idx(row as int, rows as int),
                            col as int,
                            cols as int,
                            2,
                            true,
                        ),
                        attempt->0@,
                    ) {
                        claimed_ps = row_run_positions(
                            row as int,
                            col as int,
                            cols as int,
                            2,
                            true,
                        ) + row_run_positions(
                            prev_idx(row as int, rows as int),
                            col as int,
                            cols as int,
                            2,
                            true,
                        );
                    } else {
                        claimed_ps = row_run_positions(
                            row as int,
                            col as int,
                            cols as int,
                            2,
                            true,
                        ) + row_run_positions(
                            next_idx(row as int, rows as int),
                            col as int,
                            cols as int,
                            2,
                            true,
                        );
                    }
                    assert(run_marked(pre, zero_cells@, claimed_ps, attempt->0@));
                    assert(level_positions(
                        rows as int,
                        cols as int,
                        row as int,
                        col as int,
                        vertical,
                        horizontal,
                        square,
                        group_type,
                        amount as nat,
                        claimed_ps,
                    ));
                }
            }
        }
        match attempt {
            Some(forms) => {
                proof {
                    lemma_scan_claim_facts(
                        orig,
                        pre,
                        zero_cells@,
                        claimed_ps,
                        forms@,
                        row as int,
                        col as int,
                    );
                }
                let clause = intersect_forms(&forms);
                let ghost prev_clauses = clauses@;
                clauses.push(clause);
                proof {
                    lemma_scan_step(
                        orig,
                        pre,
                        zero_cells@,
                        claimed_ps,
                        forms@,
                        clause,
                        prev_clauses,
                        rows as int,
                        cols as int,
                        row as int,
                        col as int,
                        vertical,
                        horizontal,
                        square,
                        group_type,
                        amount as nat,
                    );
                    assert(clauses@ == prev_clauses.push(clause));
                }
            }
            None => {
                proof {
                    assert(zero_cells@ == pre);
                }
            }
        }
    }
    proof {
        assert(level_blocked(
            zero_cells@,
            rows as int,
            cols as int,
            row as int,
            col as int,
            vertical,
            horizontal,
            square,
            group_type,
            amount as nat,
        )) by {
            if pos_free(zero_cells@, row as int, col as int) {
                assert(pos_free(pre, row as int, col as int)) by {
                    lemma_pos_free_monotone(pre, zero_cells@);
                }
            }
        }
    }
}

fn scan_level(
    zero_cells: &mut Vec<Kmapzero>,
    rows: usize,
    cols: usize,
    vertical: bool,
    horizontal: bool,
    square: bool,
    group_type: Groups,
    amount: usize,
) -> (clauses: Vec<Vec<Literal>>)
    requires
        distinct_cells(old(zero_cells)@),
        rows == 2 || rows == 4,
        cols == 2 || cols == 4,
        1 <= amount,
        vertical ==> amount <= rows,
        horizontal ==> amount <= cols,
    ensures
        distinct_cells(final(zero_cells)@),
        marks_extended(old(zero_cells)@, final(zero_cells)@),
        clauses_ok(old(zero_cells)@, clauses@),
        clauses@.len() == 0 ==> final(zero_cells)@ == old(zero_cells)@,
        count_ungrouped(old(zero_cells)@) == 0 ==> final(zero_cells)@ == old(zero_cells)@
            && clauses@.len() == 0,
        forall|t: int|
            0 <= t < old(zero_cells)@.len() && !(#[trigger] old(zero_cells)@[t]).grouped
                && final(zero_cells)@[t].grouped ==> covered_by(
                clauses@,
                old(zero_cells)@[t].form@,
            ),
        forall|k: int|
            0 <= k < clauses@.len() ==> level_clause_from(
                old(zero_cells)@,
                final(zero_cells)@,
                rows as int,
                cols as int,
                vertical,
                horizontal,
                square,
                group_type,
                amount as nat,
                #[trigger] clauses@[k],
            ),
        forall|r2: int, c2: int|
            0 <= r2 < rows && 0 <= c2 < cols ==> #[trigger] level_blocked(
                final(zero_cells)@,
                rows as int,
                cols as int,
                r2,
                c2,
                vertical,
                horizontal,
                square,
                group_type,
                amount as nat,
            ),
{
    let ghost orig = zero_cells@;
    let mut clauses: Vec<Vec<Literal>> = Vec::new();
    let mut ri: usize = rows;
    while ri > 0
        invariant
            ri <= rows,
            rows == 2 || rows == 4,
            cols == 2 || cols == 4,
            1 <= amount,
            vertical ==> amount <= rows,
            horizontal ==> amount <= cols,
            distinct_cells(zero_cells@),
            marks_extended(orig, zero_cells@),
            clauses_ok(orig, clauses@),
            clauses@.len() == 0 ==> zero_cells@ == orig,
            count_ungrouped(orig) == 0 ==> zero_cells@ == orig && clauses@.len() == 0,
            forall|t: int|
                0 <= t < orig.len() && !(#[trigger] orig[t]).grouped && zero_cells@[t].grouped
                    ==> covered_by(clauses@, orig[t].form@),
            forall|k: int|
                0 <= k < clauses@.len() ==> level_clause_from(
                    orig,
                    zero_cells@,
                    rows as int,
                    cols as int,
                    vertical,
                    horizontal,
                    square,
                    group_type,
                    amount as nat,
                    #[trigger] clauses@[k],
                ),
            forall|r2: int, c2: int|
                ri <= r2 < rows && 0 <= c2 < cols ==> #[trigger] level_blocked(
                    zero_cells@,
                    rows as int,
                    cols as int,
                    r2,
                    c2,
                    vertical,
                    horizontal,
                    square,
                    group_type,
                    amount as nat,
                ),
        decreases ri,
    {
        let row = ri - 1;
        let mut ci: usize = cols;
        while ci > 0
            invariant
                ci <= cols,
                row < rows,
                row + 1 == ri,
                ri <= rows,
                rows == 2 || rows == 4,
                cols == 2 || cols == 4,
                1 <= amount,
                vertical ==> amount <= rows,
                horizontal ==> amount <= cols,
                distinct_cells(zero_cells@),
                marks_extended(orig, zero_cells@),
                clauses_ok(orig, clauses@),
                clauses@.len() == 0 ==> zero_cells@ == orig,
                count_ungrouped(orig) == 0 ==> zero_cells@ == orig && clauses@.len() == 0,
                forall|t: int|
                    0 <= t < orig.len() && !(#[trigger] orig[t]).grouped && zero_cells@[t].grouped
                        ==> covered_by(clauses@, orig[t].form@),
                forall|k: int|
                    0 <= k < clauses@.len() ==> level_clause_from(
                        orig,
                        zero_cells@,
                        rows as int,
                        cols as int,
                        vertical,
                        horizontal,
                        square,
                        group_type,
                        amount as nat,
                        #[trigger] clauses@[k],
                    ),
                forall|r2: int, c2: int|
                    ((ri <= r2 < rows && 0 <= c2 < cols) || (r2 == row as int && ci <= c2 < cols))
                        ==> #[trigger] level_blocked(
                        zero_cells@,
                        rows as int,
                        cols as int,
                        r2,
                        c2,
                        vertical,
                        horizontal,
                        square,
                        group_type,
                        amount as nat,
                    ),
            decreases ci,
        {
            let col = ci - 1;
            let ghost pre = zero_cells@;
            scan_anchor(
                zero_cells,
                &mut clauses,
                Ghost(orig),
                rows,
                cols,
                row,
                col,
                vertical,
                horizontal,
                square,
                group_type,
                amount,
            );
            proof {
                assert forall|r2: int, c2: int|
                    ((ri <= r2 < rows && 0 <= c2 < cols) || (r2 == row as int && ci - 1 <= c2
                        < cols)) implies #[trigger] level_blocked(
                    zero_cells@,
                    rows as int,
                    cols as int,
                    r2,
                    c2,
                    vertical,
                    horizontal,
                    square,
                    group_type,
                    amount as nat,
                ) by {
                    if r2 == row as int && c2 == col as int {
                    } else {
                        lemma_level_blocked_monotone(
                            pre,
                            zero_cells@,
                            rows as int,
                            cols as int,
                            r2,
                            c2,
                            vertical,
                            horizontal,
                            square,
                            group_type,
                            amount as nat,
                        );
                    }
                }
            }
            ci = ci - 1;
        }
        ri = ri - 1;
    }
    clauses
}

/// The eight-cell level: two full adjacent columns, or two full adjacent
/// rows, of a four-by-four grid.
pub fn create_8(zero_cells: &mut Vec<Kmapzero>, rows: usize, cols: usize) -> (clauses: Vec<
    Vec<Literal>,
>)
    requires
        distinct_cells(old(zero_cells)@),
        rows == 2 || rows == 4,
        cols == 2 || cols == 4,
    ensures
        distinct_cells(final(zero_cells)@),
        marks_extended(old(zero_cells)@, final(zero_cells)@),
        clauses_ok(old(zero_cells)@, clauses@),
        count_ungrouped(old(zero_cells)@) == 0 ==> final(zero_cells)@ == old(zero_cells)@
            && clauses@.len() == 0,
        clauses@.len() == 0 ==> final(zero_cells)@ == old(zero_cells)@,
        forall|t: int|
            0 <= t < old(zero_cells)@.len() && !(#[trigger] old(zero_cells)@[t]).grouped
                && final(zero_cells)@[t].grouped ==> covered_by(
                clauses@,
                old(zero_cells)@[t].form@,
            ),
        forall|k: int|
            0 <= k < clauses@.len() ==> level_clause_from(
                old(zero_cells)@,
                final(zero_cells)@,
                rows as int,
                cols as int,
                true,
                true,
                false,
                Groups::FourTwo,
                4,
                #[trigger] clauses@[k],
            ),
        rows == 4 && cols == 4 ==> (forall|r2: int, c2: int|
            0 <= r2 < rows && 0 <= c2 < cols ==> #[trigger] level_blocked(
                final(zero_cells)@,
                rows as int,
                cols as int,
                r2,
                c2,
                true,
                true,
                false,
                Groups::FourTwo,
                4,
            )),
{
    if rows == 4 && cols == 4 {
        scan_level(zero_cells, rows, cols, true, true, false, Groups::FourTwo, 4)
    } else {
        Vec::new()
    }
}

/// The four-cell level: a full column, a full row, or a two-by-two square.
pub fn create_4(zero_cells: &mut Vec<Kmapzero>, rows: usize, cols: usize) -> (clauses: Vec<
    Vec<Literal>,
>)
    requires
        distinct_cells(old(zero_cells)@),
        rows == 2 || rows == 4,
        cols == 2 || cols == 4,
    ensures
        distinct_cells(final(zero_cells)@),
        marks_extended(old(zero_cells)@, final(zero_cells)@),
        clauses_ok(old(zero_cells)@, clauses@),
        count_ungrouped(old(zero_cells)@) == 0 ==> final(zero_cells)@ == old(zero_cells)@
            && clauses@.len() == 0,
        clauses@.len() == 0 ==> final(zero_cells)@ == old(zero_cells)@,
        forall|t: int|
            0 <= t < old(zero_cells)@.len() && !(#[trigger] old(zero_cells)@[t]).grouped
                && final(zero_cells)@[t].grouped ==> covered_by(
                clauses@,
                old(zero_cells)@[t].form@,
            ),
        forall|k: int|
            0 <= k < clauses@.len() ==> level_clause_from(
                old(zero_cells)@,
                final(zero_cells)@,
                rows as int,
                cols as int,
                rows == 4,
                cols == 4,
                true,
                Groups::FourOne,
                4,
                #[trigger] clauses@[k],
            ),
        rows == 4 && cols == 4 ==> (forall|r2: int, c2: int|
            0 <= r2 < rows && 0 <= c2 < cols ==> #[trigger] level_blocked(
                final(zero_cells)@,
                rows as int,
                cols as int,
                r2,
                c2,
                true,
                true,
                true,
                Groups::FourOne,
                4,
            )),
        rows == 4 && cols == 2 ==> (forall|r2: int, c2: int|
            0 <= r2 < rows && 0 <= c2 < cols ==> #[trigger] level_blocked(
                final(zero_cells)@,
                rows as int,
                cols as int,
                r2,
                c2,
                true,
                false,
                true,
                Groups::FourOne,
                4,
            )),
        rows == 2 && cols == 4 ==> (forall|r2: int, c2: int|
            0 <= r2 < rows && 0 <= c2 < cols ==> #[trigger] level_blocked(
                final(zero_cells)@,
                rows as int,
                cols as int,
                r2,
                c2,
                false,
                true,
                true,
                Groups::FourOne,
                4,
            )),
        rows == 2 && cols == 2 ==> (forall|r2: int, c2: int|
            0 <= r2 < rows && 0 <= c2 < cols ==> #[trigger] level_blocked(
                final(zero_cells)@,
                rows as int,
                cols as int,
                r2,
                c2,
                false,
                false,
                true,
                Groups::FourOne,
                4,
            )),
{
    scan_level(
        zero_cells,
        rows,
        cols,
        rows == 4,
        cols == 4,
        true,
        Groups::FourOne,
        4,
    )
}

/// The two-cell level: a vertical or horizontal adjacent pair.
pub fn create_2(zero_cells: &mut Vec<Kmapzero>, rows: usize, cols: usize) -> (clauses: Vec<
    Vec<Literal>,
>)
    requires
        distinct_cells(old(zero_cells)@),
        rows == 2 || rows == 4,
        cols == 2 || cols == 4,
    ensures
        distinct_cells(final(zero_cells)@),
        marks_extended(old(zero_cells)@, final(zero_cells)@),
        clauses_ok(old(zero_cells)@, clauses@),
        count_ungrouped(old(zero_cells)@) == 0 ==> final(zero_cells)@ == old(zero_cells)@
            && clauses@.len() == 0,
        clauses@.len() == 0 ==> final(zero_cells)@ == old(zero_cells)@,
        forall|t: int|
            0 <= t < old(zero_cells)@.len() && !(#[trigger] old(zero_cells)@[t]).grouped
                && final(zero_cells)@[t].grouped ==> covered_by(
                clauses@,
                old(zero_cells)@[t].form@,
            ),
        forall|k: int|
            0 <= k < clauses@.len() ==> level_clause_from(
                old(zero_cells)@,
                final(zero_cells)@,
                rows as int,
                cols as int,
                true,
                true,
                false,
                Groups::TwoOne,
                2,
                #[trigger] clauses@[k],
            ),
        forall|r2: int, c2: int|
            0 <= r2 < rows && 0 <= c2 < cols ==> #[trigger] level_blocked(
                final(zero_cells)@,
                rows as int,
                cols as int,
                r2,
                c2,
                true,
                true,
                false,
                Groups::TwoOne,
                2,
            ),
{
    scan_level(zero_cells, rows, cols, true, true, false, Groups::TwoOne, 2)
}

/// The forms of the still-unclaimed cells, in input order.
pub open spec fn ungrouped_forms(cells: Seq<Kmapzero>) -> Seq<Seq<Literal>>
    decreases cells.len(),
{
    if cells.len() == 0 {
        Seq::empty()
    } else if cells.last().grouped {
        ungrouped_forms(cells.drop_last())
    } else {
        ungrouped_forms(cells.drop_last()).push(cells.last().form@)
    }
}

/// There are as many unclaimed forms as unclaimed cells.
pub proof fn lemma_ungrouped_forms_len(cells: Seq<Kmapzero>)
    ensures
        ungrouped_forms(cells).len() == count_ungrouped(cells),
    decreases cells.len(),
{
    if cells.len() > 0 {
        lemma_ungrouped_forms_len(cells.drop_last());
    }
}

/// Every unclaimed cell's form is among the unclaimed forms.
proof fn lemma_ungrouped_forms_contains(cells: Seq<Kmapzero>, t: int)
    requires
        0 <= t < cells.len(),
        !cells[t].grouped,
    ensures
        exists|k: int|
            0 <= k < ungrouped_forms(cells).len() && #[trigger] ungrouped_forms(cells)[k]
                == cells[t].form@,
    decreases cells.len(),
{
    if t == cells.len() - 1 {
        assert(ungrouped_forms(cells)[ungrouped_forms(cells).len() - 1] == cells[t].form@);
    } else {
        lemma_ungrouped_forms_contains(cells.drop_last(), t);
        let k = choose|k: int|
            0 <= k < ungrouped_forms(cells.drop_last()).len() && #[trigger] ungrouped_forms(
                cells.drop_last(),
            )[k] == cells.drop_last()[t].form@;
        assert(ungrouped_forms(cells)[k] == cells[t].form@);
    }
}

/// The single-cell level: every cell still unclaimed becomes a group of its
/// own, its whole form the clause, in input order.
pub fn create_1(zero_cells: &mut Vec<Kmapzero>) -> (clauses: Vec<Vec<Literal>>)
    requires
        distinct_cells(old(zero_cells)@),
        forall|t: int|
            0 <= t < old(zero_cells)@.len() ==> (#[trigger] old(zero_cells)@[t]).form@.len() >= 1,
    ensures
        distinct_cells(final(zero_cells)@),
        marks_extended(old(zero_cells)@, final(zero_cells)@),
        clauses_ok(old(zero_cells)@, clauses@),
        count_ungrouped(final(zero_cells)@) == 0,
        clauses@.len() == count_ungrouped(old(zero_cells)@),
        forall|k: int|
            0 <= k < clauses@.len() ==> (#[trigger] clauses@[k])@ == ungrouped_forms(
                old(zero_cells)@,
            )[k],
        clauses@.len() == 0 ==> final(zero_cells)@ == old(zero_cells)@,
        count_ungrouped(old(zero_cells)@) == 0 ==> final(zero_cells)@ == old(zero_cells)@
            && clauses@.len() == 0,
        forall|t: int|
            0 <= t < old(zero_cells)@.len() && !(#[trigger] old(zero_cells)@[t]).grouped
                && final(zero_cells)@[t].grouped ==> covered_by(
                clauses@,
                old(zero_cells)@[t].form@,
            ),
{
    let ghost orig = zero_cells@;
    proof {
        lemma_ungrouped_forms_len(orig);
    }
    let mut clauses: Vec<Vec<Literal>> = Vec::new();
    let mut i: usize = 0;
    while i < zero_cells.len()
        invariant
            i <= zero_cells@.len(),
            distinct_cells(zero_cells@),
            zero_cells@.len() == orig.len(),
            marks_extended(orig, zero_cells@),
            forall|t: int| 0 <= t < orig.len() ==> (#[trigger] orig[t]).form@.len() >= 1,
            forall|t: int| 0 <= t < i ==> (#[trigger] zero_cells@[t]).grouped,
            forall|t: int| i <= t < orig.len() ==> #[trigger] zero_cells@[t] == orig[t],
            clauses_ok(orig, clauses@),
            clauses@.len() == count_ungrouped(orig.take(i as int)),
            forall|k: int|
                0 <= k < clauses@.len() ==> (#[trigger] clauses@[k])@ == ungrouped_forms(
                    orig.take(i as int),
                )[k],
            clauses@.len() == 0 ==> zero_cells@ == orig,
            count_ungrouped(orig) == 0 ==> zero_cells@ == orig && clauses@.len() == 0,
        decreases zero_cells@.len() - i,
    {
        proof {
            assert(orig.take(i as int + 1).drop_last() =~= orig.take(i as int));
            assert(orig.take(i as int + 1).last() == orig[i as int]);
            lemma_ungrouped_forms_len(orig.take(i as int));
            lemma_ungrouped_forms_len(orig.take(i as int + 1));
        }
        if !zero_cells[i].grouped {
            proof {
                assert(zero_cells@[i as int] == orig[i as int]);
                if count_ungrouped(orig) == 0 {
                    lemma_count_zero_all_grouped(orig);
                    assert(false);
                }
            }
            let clause = copy_lits(&zero_cells[i].form);
            let ghost prev = clauses@;
            proof {
                assert(lits_subset(clause@, orig[i as int].form@)) by {
                    assert(clause@ == orig[i as int].form@);
                    assert(forall|u: int|
                        0 <= u < clause@.len() ==> orig[i as int].form@.contains(
                            #[trigger] clause@[u],
                        )) by {
                        assert(forall|u: int|
                            0 <= u < clause@.len() ==> orig[i as int].form@[u] == #[trigger] clause@[u]);
                    }
                }
            }
            clauses.push(clause);
            zero_cells[i].grouped = true;
            proof {
                assert forall|k: int|
                    0 <= k < clauses@.len() implies clause_of_cell(orig, #[trigger] clauses@[k]) by {
                    if k < prev.len() {
                        assert(clauses@[k] == prev[k]);
                    }
                }
                assert(ungrouped_forms(orig.take(i as int + 1)) == ungrouped_forms(
                    orig.take(i as int),
                ).push(orig[i as int].form@));
                assert forall|k: int|
                    0 <= k < clauses@.len() implies (#[trigger] clauses@[k])@ == ungrouped_forms(
                    orig.take(i as int + 1),
                )[k] by {
                    if k < prev.len() {
                        assert(clauses@[k] == prev[k]);
                    } else {
                        assert(clauses@[k] == clause);
                    }
                }
            }
        } else {
            proof {
                assert(zero_cells@[i as int] == orig[i as int]);
                assert(ungrouped_forms(orig.take(i as int + 1)) == ungrouped_forms(
                    orig.take(i as int),
                ));
            }
        }
        i = i + 1;
    }
    proof {
        assert(orig.take(orig.len() as int) =~= orig);
        lemma_count_zero_all_grouped(zero_cells@);
        lemma_ungrouped_forms_len(orig);
        // every cell claimed here carries its own form as a clause
        assert forall|t: int|
            0 <= t < orig.len() && !(#[trigger] orig[t]).grouped && zero_cells@[t].grouped implies covered_by(
            clauses@,
            orig[t].form@,
        ) by {
            lemma_ungrouped_forms_contains(orig, t);
            let k = choose|k: int|
                0 <= k < ungrouped_forms(orig).len() && #[trigger] ungrouped_forms(orig)[k]
                    == orig[t].form@;
            assert(clauses@[k]@ == orig[t].form@);
            assert(lits_subset(clauses@[k]@, orig[t].form@)) by {
                assert(forall|u: int|
                    0 <= u < clauses@[k]@.len() ==> orig[t].form@.contains(
                        #[trigger] clauses@[k]@[u],
                    )) by {
                    assert(forall|u: int|
                        0 <= u < clauses@[k]@.len() ==> orig[t].form@[u] == #[trigger] clauses@[k]@[u]);
                }
            }
        }
    }
    clauses
}

/// The text of one literal: its letter, then `!` for a complement.
pub open spec fn lit_text(l: Literal) -> Seq<char> {
    if l.negated {
        seq![l.name, '!']
    } else {
        seq![l.name]
    }
}

/// The body of a clause from literal `i` on, literals joined by `+`.
pub open spec fn clause_body_text(c: Seq<Literal>, i: int) -> Seq<char>
    decreases c.len() - i,
{
    if i < 0 || i >= c.len() {
        Seq::empty()
    } else if i == 0 {
        lit_text(c[0]) + clause_body_text(c, 1)
    } else {
        seq!['+'] + lit_text(c[i]) + clause_body_text(c, i + 1)
    }
}

/// The text of one clause: its body in parentheses.
pub open spec fn clause_text(c: Seq<Literal>) -> Seq<char> {
    seq!['('] + clause_body_text(c, 0) + seq![')']
}

/// The text of the clauses from index `k` on, concatenated.
pub open spec fn clauses_text(cs: Seq<Vec<Literal>>, k: int) -> Seq<char>
    decreases cs.len() - k,
{
    if k < 0 || k >= cs.len() {
        Seq::empty()
    } else {
        clause_text(cs[k]@) + clauses_text(cs, k + 1)
    }
}

/// Renders the clauses as the bracketed intermediate form: each clause a
/// parenthesized sum of its literals.
pub fn render_clauses(clauses: &Vec<Vec<Literal>>) -> (r: String)
    requires
        clauses@.len() >= 1,
    ensures
        r@ == clauses_text(clauses@, 0),
        r@.len() >= 1,
        r@[0] == '(',
{
    let mut out = String::new();
    let mut k: usize = 0;
    while k < clauses.len()
        invariant
            k <= clauses@.len(),
            clauses_text(clauses@, 0) == out@ + clauses_text(clauses@, k as int),
        decreases clauses@.len() - k,
    {
        let ghost at_clause = out@;
        crate::formula::push_char(&mut out, '(');
        let clause = &clauses[k];
        let mut i: usize = 0;
        while i < clause.len()
            invariant
                i <= clause@.len(),
                clause == &clauses@[k as int],
                k < clauses@.len(),
                out@ + clause_body_text(clause@, i as int) == at_clause + seq!['(']
                    + clause_body_text(clause@, 0),
            decreases clause@.len() - i,
        {
            if i > 0 {
                crate::formula::push_char(&mut out, '+');
            }
            crate::formula::push_char(&mut out, clause[i].name);
            if clause[i].negated {
                crate::formula::push_char(&mut out, '!');
            }
            proof {
                let ii = i as int;
                assert(clause_body_text(clause@, ii) =~= (if ii == 0 {
                    lit_text(clause@[0]) + clause_body_text(clause@, 1)
                } else {
                    seq!['+'] + lit_text(clause@[ii]) + clause_body_text(clause@, ii + 1)
                }));
                assert(out@ + clause_body_text(clause@, ii + 1) =~= at_clause + seq!['(']
                    + clause_body_text(clause@, 0));
            }
            i = i + 1;
        }
        crate::formula::push_char(&mut out, ')');
        proof {
            assert(clause_body_text(clause@, clause@.len() as int) =~= Seq::<char>::empty());
            assert(out@ =~= at_clause + clause_text(clause@));
            assert(clauses_text(clauses@, k as int) =~= clause_text(clauses@[k as int]@)
                + clauses_text(clauses@, k as int + 1));
            assert(clauses_text(clauses@, 0) =~= out@ + clauses_text(clauses@, k as int + 1));
        }
        k = k + 1;
    }
    proof {
        assert(clauses_text(clauses@, clauses@.len() as int) =~= Seq::<char>::empty());
        assert(out@ =~= clauses_text(clauses@, 0));
        assert(clauses_text(clauses@, 0) =~= clause_text(clauses@[0]@) + clauses_text(clauses@, 1));
        assert(clause_text(clauses@[0]@)[0] == '(');
        assert(out@[0] == '(');
    }
    out
}

/// Clauses drawn from an extended grid were drawn from the grid before.
proof fn lemma_clauses_ok_extended(
    old_cells: Seq<Kmapzero>,
    new_cells: Seq<Kmapzero>,
    clauses: Seq<Vec<Literal>>,
)
    requires
        marks_extended(old_cells, new_cells),
        clauses_ok(new_cells, clauses),
    ensures
        clauses_ok(old_cells, clauses),
{
    assert forall|k: int|
        0 <= k < clauses.len() implies clause_of_cell(old_cells, #[trigger] clauses[k]) by {
        assert(clause_of_cell(new_cells, clauses[k]));
        let t = choose|t: int|
            0 <= t < new_cells.len() && lits_subset(clauses[k]@, (#[trigger] new_cells[t]).form@);
        assert(new_cells[t].form@ == old_cells[t].form@);
        assert(lits_subset(clauses[k]@, old_cells[t].form@));
    }
}

/// Concatenating clause lists drawn from the grid keeps them drawn from it.
proof fn lemma_clauses_ok_concat(cells: Seq<Kmapzero>, a: Seq<Vec<Literal>>, b: Seq<Vec<Literal>>)
    requires
        clauses_ok(cells, a),
        clauses_ok(cells, b),
    ensures
        clauses_ok(cells, a + b),
{
    assert forall|k: int|
        0 <= k < (a + b).len() implies clause_of_cell(cells, #[trigger] (a + b)[k]) by {
        if k < a.len() {
            assert((a + b)[k] == a[k]);
        } else {
            assert((a + b)[k] == b[k - a.len()]);
        }
    }
}

/// A cover in the first list is a cover in the concatenation.
proof fn lemma_covered_by_concat_left(a: Seq<Vec<Literal>>, b: Seq<Vec<Literal>>, form: Seq<Literal>)
    requires
        covered_by(a, form),
    ensures
        covered_by(a + b, form),
{
    let k = choose|k: int| 0 <= k < a.len() && lits_subset((#[trigger] a[k])@, form);
    assert((a + b)[k] == a[k]);
}

/// A cover in the second list is a cover in the concatenation.
proof fn lemma_covered_by_concat_right(
    a: Seq<Vec<Literal>>,
    b: Seq<Vec<Literal>>,
    form: Seq<Literal>,
)
    requires
        covered_by(b, form),
    ensures
        covered_by(a + b, form),
{
    let k = choose|k: int| 0 <= k < b.len() && lits_subset((#[trigger] b[k])@, form);
    assert((a + b)[a.len() + k] == b[k]);
}

/// Groups the false cells level by level — whole grid, eight, four, two,
/// one — and renders the group clauses in the bracketed intermediate form.
/// A grid with no false cell yields `1`; a grid whose every position is a
/// false cell yields `0` and every cell claimed at once.
pub fn grouping(rows: usize, cols: usize, zero_cells: &mut Vec<Kmapzero>) -> (r: String)
    requires
        distinct_cells(old(zero_cells)@),
        rows == 2 || rows == 4,
        cols == 2 || cols == 4,
        forall|t: int|
            0 <= t < old(zero_cells)@.len() ==> (#[trigger] old(zero_cells)@[t]).form@.len() >= 1,
    ensures
        distinct_cells(final(zero_cells)@),
        marks_extended(old(zero_cells)@, final(zero_cells)@),
        count_ungrouped(final(zero_cells)@) == 0,
        count_ungrouped(old(zero_cells)@) == (rows * cols) as nat ==> r@ == seq!['0'],
        r@ == seq!['0'] ==> count_ungrouped(old(zero_cells)@) == (rows * cols) as nat,
        count_ungrouped(old(zero_cells)@) == 0 ==> r@ == seq!['1'],
        r@ == seq!['1'] ==> count_ungrouped(old(zero_cells)@) == 0,
        r@ == seq!['0'] || r@ == seq!['1'] || (exists|cs: Seq<Vec<Literal>>|
            #![auto]
            cs.len() >= 1 && clauses_ok(old(zero_cells)@, cs) && r@ == clauses_text(cs, 0) && (
            forall|t: int|
                0 <= t < old(zero_cells)@.len() && !(#[trigger] old(zero_cells)@[t]).grouped
                    ==> covered_by(cs, old(zero_cells)@[t].form@))),
{
    let ghost orig = zero_cells@;
    if missing_trues(zero_cells) == rows * cols {
        let marked = create_16(zero_cells);
        *zero_cells = marked;
        let mut s = String::new();
        crate::formula::push_char(&mut s, '0');
        proof {
            assert(s@ =~= seq!['0']);
            assert(s@[0] == '0');
            assert(s@ != seq!['1']) by {
                if s@ == seq!['1'] {
                    assert(s@[0] == '1');
                }
            }
        }
        return s;
    }
    let mut clauses = create_8(zero_cells, rows, cols);
    let ghost after8 = zero_cells@;
    let ghost seg8 = clauses@;
    if missing_trues(zero_cells) >= 1 {
        let mut more = create_4(zero_cells, rows, cols);
        proof {
            lemma_clauses_ok_extended(orig, after8, more@);
            lemma_marks_extended_trans(orig, after8, zero_cells@);
        }
        let ghost a = clauses@;
        let ghost b = more@;
        clauses.append(&mut more);
        proof {
            lemma_clauses_ok_concat(orig, a, b);
            assert forall|t: int|
                0 <= t < orig.len() && !(#[trigger] orig[t]).grouped && zero_cells@[t].grouped implies covered_by(
                clauses@,
                orig[t].form@,
            ) by {
                if after8[t].grouped {
                    lemma_covered_by_concat_left(a, b, orig[t].form@);
                } else {
                    assert(covered_by(b, after8[t].form@));
                    assert(after8[t].form@ == orig[t].form@);
                    lemma_covered_by_concat_right(a, b, orig[t].form@);
                }
            }
        }
    }
    let ghost after4 = zero_cells@;
    if missing_trues(zero_cells) >= 1 {
        let mut more = create_2(zero_cells, rows, cols);
        proof {
            lemma_clauses_ok_extended(orig, after4, more@);
            lemma_marks_extended_trans(orig, after4, zero_cells@);
        }
        let ghost a = clauses@;
        let ghost b = more@;
        clauses.append(&mut more);
        proof {
            lemma_clauses_ok_concat(orig, a, b);
            assert forall|t: int|
                0 <= t < orig.len() && !(#[trigger] orig[t]).grouped && zero_cells@[t].grouped implies covered_by(
                clauses@,
                orig[t].form@,
            ) by {
                if after4[t].grouped {
                    lemma_covered_by_concat_left(a, b, orig[t].form@);
                } else {
                    assert(covered_by(b, after4[t].form@));
                    assert(after4[t].form@ == orig[t].form@);
                    lemma_covered_by_concat_right(a, b, orig[t].form@);
                }
            }
        }
    }
    let ghost after2 = zero_cells@;
    if missing_trues(zero_cells) >= 1 {
        proof {
            assert(forall|t: int|
                0 <= t < after2.len() ==> (#[trigger] after2[t]).form@.len() >= 1);
        }
        let mut more = create_1(zero_cells);
        proof {
            lemma_clauses_ok_extended(orig, after2, more@);
            lemma_marks_extended_trans(orig, after2, zero_cells@);
        }
        let ghost a = clauses@;
        let ghost b = more@;
        clauses.append(&mut more);
        proof {
            lemma_clauses_ok_concat(orig, a, b);
            assert forall|t: int|
                0 <= t < orig.len() && !(#[trigger] orig[t]).grouped && zero_cells@[t].grouped implies covered_by(
                clauses@,
                orig[t].form@,
            ) by {
                if after2[t].grouped {
                    lemma_covered_by_concat_left(a, b, orig[t].form@);
                } else {
                    assert(covered_by(b, after2[t].form@));
                    assert(after2[t].form@ == orig[t].form@);
                    lemma_covered_by_concat_right(a, b, orig[t].form@);
                }
            }
        }
    }
    if clauses.len() == 0 {
        proof {
            // nothing was claimed at any level, so nothing was there to claim
            assert(seg8.len() == 0);
            assert(after8 == orig);
            assert(count_ungrouped(orig) == 0);
        }
        let mut s = String::new();
        crate::formula::push_char(&mut s, '1');
        proof {
            assert(s@ =~= seq!['1']);
            assert(s@[0] == '1');
            assert(s@ != seq!['0']) by {
                if s@ == seq!['0'] {
                    assert(s@[0] == '0');
                }
            }
        }
        return s;
    }
    let text = render_clauses(&clauses);
    proof {
        assert(text@[0] == '(');
        assert(text@ != seq!['0']) by {
            if text@ == seq!['0'] {
                assert(text@[0] == '0');
            }
        }
        assert(text@ != seq!['1']) by {
            if text@ == seq!['1'] {
                assert(text@[0] == '1');
            }
        }
        // every false cell was claimed by some level, under a clause of its form
        assert forall|t: int|
            0 <= t < orig.len() && !(#[trigger] orig[t]).grouped implies covered_by(
            clauses@,
            orig[t].form@,
        ) by {
            lemma_count_zero_all_grouped(zero_cells@);
            assert(zero_cells@[t].grouped);
        }
    }
    text
}

/// A run of one repeated character.
pub open spec fn repeat_char(c: char, n: nat) -> Seq<char>
    decreases n,
{
    if n == 0 {
        Seq::empty()
    } else {
        repeat_char(c, (n - 1) as nat).push(c)
    }
}

/// What the bracket-to-postfix conversion still produces when the scan
/// stands at `i`: `done` holds the finished clauses' postfix, `cur` the
/// literals of the open clause, `plus` its pending separators, and
/// `finished` counts the closed clauses. Each closed clause becomes its
/// literals followed by one disjunction symbol per separator; the clauses
/// are conjoined by one conjunction symbol per clause after the first. A
/// text that closes no clause passes through unchanged.
pub open spec fn spec_convert_from(
    s: Seq<char>,
    i: int,
    done: Seq<char>,
    cur: Seq<char>,
    plus: nat,
    finished: nat,
) -> Seq<char>
    decreases s.len() - i,
{
    if i < 0 || i >= s.len() {
        if finished == 0 {
            cur
        } else {
            done + repeat_char('&', (finished - 1) as nat)
        }
    } else {
        let c = s[i];
        if c == '(' {
            spec_convert_from(s, i + 1, done, cur, plus, finished)
        } else if c == '+' {
            spec_convert_from(s, i + 1, done, cur, plus + 1, finished)
        } else if c == ')' {
            if cur.len() > 0 {
                spec_convert_from(
                    s,
                    i + 1,
                    done + cur + repeat_char('|', plus),
                    Seq::empty(),
                    0,
                    finished + 1,
                )
            } else {
                spec_convert_from(s, i + 1, done, cur, 0, finished)
            }
        } else {
            spec_convert_from(s, i + 1, done, cur.push(c), plus, finished)
        }
    }
}

/// The postfix text of a bracketed group text.
pub open spec fn spec_convert(s: Seq<char>) -> Seq<char> {
    spec_convert_from(s, 0, Seq::empty(), Seq::empty(), 0, 0)
}

/// A single character that is no bracket or separator passes through the
/// conversion unchanged; in particular the constants `0` and `1` do.
pub proof fn lemma_convert_single(c: char)
    requires
        c != '(',
        c != ')',
        c != '+',
    ensures
        spec_convert(seq![c]) == seq![c],
{
    let s = seq![c];
    assert(s[0] == c);
    assert(Seq::<char>::empty().push(c) =~= s);
    assert(spec_convert_from(s, 1, Seq::empty(), s, 0, 0) == s);
}

/// Converts the bracketed intermediate form to postfix: each parenthesized
/// clause becomes its literals followed by one disjunction symbol per `+`,
/// and the clauses are conjoined with one conjunction symbol per clause
/// after the first. The constants `0` and `1` pass through unchanged.
pub fn convert_group_rpn(group: String) -> (r: String)
    ensures
        r@ == spec_convert(group@),
{
    let s = group.as_str();
    let n = s.unicode_len();
    let mut done = String::new();
    let mut cur = String::new();
    let mut plus: usize = 0;
    let mut finished: usize = 0;
    let mut i: usize = 0;
    while i < n
        invariant
            i <= n,
            n == group@.len(),
            s@ == group@,
            plus <= i,
            finished <= i,
            spec_convert(group@) == spec_convert_from(
                group@,
                i as int,
                done@,
                cur@,
                plus as nat,
                finished as nat,
            ),
        decreases n - i,
    {
        let c = s.get_char(i);
        if c == '(' {
        } else if c == '+' {
            plus = plus + 1;
        } else if c == ')' {
            if cur.as_str().unicode_len() > 0 {
                done.append(cur.as_str());
                let ghost with_cur = done@;
                let mut p: usize = 0;
                while p < plus
                    invariant
                        p <= plus,
                        done@ == with_cur + repeat_char('|', p as nat),
                    decreases plus - p,
                {
                    crate::formula::push_char(&mut done, '|');
                    proof {
                        assert(done@ =~= with_cur + repeat_char('|', p as nat + 1));
                    }
                    p = p + 1;
                }
                cur = String::new();
                plus = 0;
                finished = finished + 1;
            } else {
                plus = 0;
            }
        } else {
            crate::formula::push_char(&mut cur, c);
        }
        i = i + 1;
    }
    if finished == 0 {
        return cur;
    }
    let ghost base = done@;
    let mut p: usize = 1;
    while p < finished
        invariant
            1 <= p <= finished,
            done@ == base + repeat_char('&', (p - 1) as nat),
        decreases finished - p,
    {
        crate::formula::push_char(&mut done, '&');
        proof {
            assert(done@ =~= base + repeat_char('&', p as nat));
        }
        p = p + 1;
    }
    proof {
        assert(repeat_char('&', 0) =~= Seq::<char>::empty());
        assert(base + repeat_char('&', 0) =~= base);
    }
    done
}

/// The variables in strictly alphabetical order.
pub open spec fn sorted_vars(s: Seq<char>) -> bool {
    (forall|i: int| 0 <= i < s.len() ==> is_variable(#[trigger] s[i])) && (forall|i: int, j: int|
        0 <= i < j < s.len() ==> ((#[trigger] s[i]) as u32) < ((#[trigger] s[j]) as u32))
}

/// Characters with the same scalar value are the same character.
proof fn lemma_char_code_eq(a: char, b: char)
    requires
        a as u32 == b as u32,
    ensures
        a == b,
{
}

/// Sorts a list of variables into alphabetical order by sweeping the
/// alphabet and keeping each letter the list holds.
pub fn sort_letters(letters: &Vec<char>) -> (r: Vec<char>)
    requires
        forall|i: int| 0 <= i < letters@.len() ==> is_variable(#[trigger] letters@[i]),
    ensures
        sorted_vars(r@),
        forall|c: char| r@.contains(c) <==> letters@.contains(c),
{
    let mut out: Vec<char> = Vec::new();
    let mut code: u32 = 65;
    while code < 91
        invariant
            65 <= code <= 91,
            forall|i: int| 0 <= i < letters@.len() ==> is_variable(#[trigger] letters@[i]),
            forall|i: int|
                0 <= i < out@.len() ==> is_variable(#[trigger] out@[i]) && (out@[i] as u32) < code,
            forall|i: int, j: int|
                0 <= i < j < out@.len() ==> ((#[trigger] out@[i]) as u32) < ((
                #[trigger] out@[j]) as u32),
            forall|c: char|
                out@.contains(c) <==> (letters@.contains(c) && (c as u32) < code),
        decreases 91 - code,
    {
        let mut j: usize = 0;
        while j < letters.len() && letters[j] as u32 != code
            invariant
                j <= letters@.len(),
                forall|t: int| 0 <= t < j ==> ((#[trigger] letters@[t]) as u32) != code,
            decreases letters@.len() - j,
        {
            j = j + 1;
        }
        if j < letters.len() {
            let ch = letters[j];
            let ghost prev = out@;
            out.push(ch);
            proof {
                assert(letters@.contains(ch)) by {
                    assert(letters@[j as int] == ch);
                }
                assert forall|c: char| out@.contains(c) implies (letters@.contains(c) && (
                c as u32) < code + 1) by {
                    let w = choose|w: int| 0 <= w < out@.len() && out@[w] == c;
                    if w < prev.len() {
                        assert(prev[w] == c);
                        assert(prev.contains(c));
                    }
                }
                assert forall|c: char| letters@.contains(c) && (c as u32) < code + 1 implies out@.contains(
                    c,
                ) by {
                    if (c as u32) < code {
                        assert(prev.contains(c));
                        let w = choose|w: int| 0 <= w < prev.len() && prev[w] == c;
                        assert(out@[w] == c);
                    } else {
                        assert(c as u32 == code);
                        lemma_char_code_eq(c, ch);
                        assert(out@[prev.len() as int] == c);
                    }
                }
            }
        } else {
            proof {
                assert forall|c: char| letters@.contains(c) && (c as u32) < code + 1 implies out@.contains(
                    c,
                ) by {
                    if (c as u32) == code {
                        let w = choose|w: int| 0 <= w < letters@.len() && letters@[w] == c;
                        assert((letters@[w] as u32) != code);
                        assert(false);
                    }
                }
                assert(forall|c: char|
                    out@.contains(c) ==> (letters@.contains(c) && (c as u32) < code + 1));
            }
        }
        code = code + 1;
    }
    proof {
        assert forall|c: char| letters@.contains(c) implies out@.contains(c) by {
            let w = choose|w: int| 0 <= w < letters@.len() && letters@[w] == c;
            assert(is_variable(letters@[w]));
            assert((c as u32) < 91);
        }
    }
    out
}

/// Hands a character through unchanged; at the call boundary the verifier
/// re-learns that it is a valid character.
fn letter_value(c: char) -> (r: char)
    ensures
        r == c,
{
    c
}

/// The form of a truth-table row: each variable, and the complement flag of
/// its value there, position by position.
pub fn build_form(used: &Vec<char>, line: u64) -> (r: Vec<Literal>)
    requires
        1 <= used@.len() < 63,
    ensures
        r@.len() == used@.len(),
        forall|j: int|
            0 <= j < used@.len() ==> (#[trigger] r@[j]).name == used@[j] && r@[j].negated
                == line_bit(line as nat, j, used@.len() as int),
{
    let count = used.len();
    let mut out: Vec<Literal> = Vec::new();
    let mut j: usize = 0;
    while j < count
        invariant
            j <= count,
            count == used@.len() < 63,
            1 <= count,
            out@.len() == j,
            forall|u: int|
                0 <= u < j ==> (#[trigger] out@[u]).name == used@[u] && out@[u].negated
                    == line_bit(line as nat, u, count as int),
        decreases count - j,
    {
        let p = pow2_u64(count - 1 - j);
        let bit = (line / p) % 2;
        let name = letter_value(used[j]);
        out.push(Literal { name, negated: bit == 1 });
        j = j + 1;
    }
    out
}

/// The Gray code keeps small values small and is one-to-one on them.
proof fn lemma_gray_facts(a: u32, b: u32)
    requires
        a < 4,
        b < 4,
    ensures
        (a ^ (a >> 1u32)) < 4,
        a < 2 ==> (a ^ (a >> 1u32)) < 2,
        (a ^ (a >> 1u32)) == (b ^ (b >> 1u32)) ==> a == b,
{
    assert(a < 4 ==> (a ^ (a >> 1u32)) < 4) by (bit_vector);
    assert(a < 2 ==> (a ^ (a >> 1u32)) < 2) by (bit_vector);
    assert(a < 4 && b < 4 && (a ^ (a >> 1u32)) == (b ^ (b >> 1u32)) ==> a == b) by (bit_vector);
}

/// How many rows of the truth table below `upto` come out false.
pub open spec fn count_false_lines(s: Seq<char>, used: Seq<char>, upto: nat) -> nat
    decreases upto,
{
    if upto == 0 {
        0
    } else {
        count_false_lines(s, used, (upto - 1) as nat) + (if line_value(s, used, (upto - 1) as nat) {
            0nat
        } else {
            1nat
        })
    }
}

/// A truth table true everywhere has no false row; false everywhere, only
/// false rows.
proof fn lemma_count_false_lines_bounds(s: Seq<char>, used: Seq<char>, upto: nat)
    ensures
        (forall|line: nat| line < upto ==> #[trigger] line_value(s, used, line))
            ==> count_false_lines(s, used, upto) == 0,
        (forall|line: nat| line < upto ==> !(#[trigger] line_value(s, used, line)))
            ==> count_false_lines(s, used, upto) == upto,
    decreases upto,
{
    if upto > 0 {
        lemma_count_false_lines_bounds(s, used, (upto - 1) as nat);
    }
}

/// A grid of nothing but unclaimed cells has them all still to claim.
proof fn lemma_all_ungrouped_count(cells: Seq<Kmapzero>)
    requires
        forall|t: int| 0 <= t < cells.len() ==> !(#[trigger] cells[t]).grouped,
    ensures
        count_ungrouped(cells) == cells.len(),
    decreases cells.len(),
{
    if cells.len() > 0 {
        lemma_all_ungrouped_count(cells.drop_last());
        assert(forall|t: int|
            0 <= t < cells.len() - 1 ==> #[trigger] cells.drop_last()[t] == cells[t]);
    }
}

/// The grid row and column of a truth-table row: its index split by the
/// grid width, each part in Gray order.
pub open spec fn gray_of(n: u32) -> u32 {
    n ^ (n >> 1u32)
}

/// Builds the truth grid of a formula: one cell, holding the complemented
/// literal form of the assignment, for every row of the truth table that
/// comes out false, placed at the Gray-coded coordinates of its row index.
/// Fails exactly when some substituted row does not parse.
fn build_grid(formula: &str, used_char: &Vec<char>, rows: usize, cols: usize) -> (r: Result<
    Vec<Kmapzero>,
    FormulaError,
>)
    requires
        sorted_vars(used_char@),
        2 <= used_char@.len() <= 4,
        rows == 2 || rows == 4,
        cols == 2 || cols == 4,
        rows * cols == pow2(used_char@.len()),
    ensures
        r is Ok <==> (forall|line: nat|
            line < (rows * cols) as nat ==> #[trigger] line_parses(
                formula@,
                used_char@,
                line,
            )),
        r is Err ==> r->Err_0 == FormulaError::MalformedFormula,
        r is Ok ==> {
            &&& distinct_cells(r->Ok_0@)
            &&& forall|t: int|
                0 <= t < r->Ok_0@.len() ==> !(#[trigger] r->Ok_0@[t]).grouped
                    && r->Ok_0@[t].form@.len() == used_char@.len()
            &&& r->Ok_0@.len() == count_false_lines(formula@, used_char@, (rows * cols) as nat)
            &&& count_ungrouped(r->Ok_0@) == r->Ok_0@.len()
        },
{
    let total: u64 = (rows * cols) as u64;
    let width: u64 = cols as u64;
    let mut cells: Vec<Kmapzero> = Vec::new();
    let mut i: u64 = 0;
    while i < total
        invariant
            i <= total,
            total == (rows * cols) as u64,
            width == cols as u64,
            rows == 2 || rows == 4,
            cols == 2 || cols == 4,
            total <= 16,
            sorted_vars(used_char@),
            2 <= used_char@.len() <= 4,
            forall|line: nat| line < i as nat ==> #[trigger] line_parses(formula@, used_char@, line),
            cells@.len() == count_false_lines(formula@, used_char@, i as nat),
            forall|t: int|
                0 <= t < cells@.len() ==> !(#[trigger] cells@[t]).grouped && cells@[t].form@.len()
                    == used_char@.len(),
            forall|t: int|
                0 <= t < cells@.len() ==> (exists|line: nat|
                    line < i as nat && (#[trigger] cells@[t]).row == gray_of(
                        (line / width as nat) as u32,
                    ) as int && cells@[t].col == gray_of((line % width as nat) as u32) as int
                        && !line_value(formula@, used_char@, line)),
            distinct_cells(cells@),
        decreases total - i,
    {
        let node = match give_value_to_char(i as i64, formula, used_char.as_slice()) {
            Ok(node) => node,
            Err(e) => {
                proof {
                    assert(!line_parses(formula@, used_char@, i as nat));
                }
                return Err(FormulaError::MalformedFormula);
            }
        };
        proof {
            assert(line_parses(formula@, used_char@, i as nat));
            lemma_parse_round_trip(subst_text(formula@, used_char@, i as nat), true);
        }
        let val = match crate::eval::evaluate(&node) {
            Ok(v) => v,
            Err(_) => {
                proof {
                    assert(false);
                }
                return Err(FormulaError::MalformedFormula);
            }
        };
        if !val {
            proof {
                assert(val == crate::formula::eval_env(node, Map::empty()));
                assert(!line_value(formula@, used_char@, i as nat));
            }
            let row = gray_code((i / width) as u32) as usize;
            let col = gray_code((i % width) as u32) as usize;
            proof {
                lemma_gray_facts((i / width) as u32, (i % width) as u32);
            }
            let form = build_form(used_char, i);
            let ghost prev = cells@;
            proof {
                assert forall|t: int|
                    0 <= t < prev.len() implies !((#[trigger] prev[t]).row == row as int
                    && prev[t].col == col as int) by {
                    let line = choose|line: nat|
                        line < i as nat && (#[trigger] prev[t]).row == gray_of(
                            (line / width as nat) as u32,
                        ) as int && prev[t].col == gray_of((line % width as nat) as u32) as int
                            && !line_value(formula@, used_char@, line);
                    if prev[t].row == row as int && prev[t].col == col as int {
                        lemma_gray_facts((line / width as nat) as u32, (i / width) as u32);
                        lemma_gray_facts((line % width as nat) as u32, (i % width) as u32);
                        assert(line / width as nat == i as nat / width as nat);
                        assert(line % width as nat == i as nat % width as nat);
                        vstd::arithmetic::div_mod::lemma_fundamental_div_mod(
                            line as int,
                            width as int,
                        );
                        vstd::arithmetic::div_mod::lemma_fundamental_div_mod(
                            i as int,
                            width as int,
                        );
                        assert(line == i as nat);
                        assert(false);
                    }
                }
            }
            cells.push(Kmapzero { row, col, grouped: false, form });
            proof {
                assert(cells@.drop_last() =~= prev);
                assert forall|t: int|
                    0 <= t < cells@.len() implies (exists|line: nat|
                    line < i as nat + 1 && (#[trigger] cells@[t]).row == gray_of(
                        (line / width as nat) as u32,
                    ) as int && cells@[t].col == gray_of((line % width as nat) as u32) as int
                        && !line_value(formula@, used_char@, line)) by {
                    if t < prev.len() {
                        let line = choose|line: nat|
                            line < i as nat && (#[trigger] prev[t]).row == gray_of(
                                (line / width as nat) as u32,
                            ) as int && prev[t].col == gray_of((line % width as nat) as u32) as int
                                && !line_value(formula@, used_char@, line);
                        assert(cells@[t] == prev[t]);
                        assert(line < i as nat + 1);
                    } else {
                        assert(cells@[t].row == gray_of((i as nat / width as nat) as u32) as int);
                        assert(cells@[t].col == gray_of((i as nat % width as nat) as u32) as int);
                    }
                }
            }
        }
        proof {
            assert(count_false_lines(formula@, used_char@, i as nat + 1) == count_false_lines(
                formula@,
                used_char@,
                i as nat,
            ) + (if line_value(formula@, used_char@, i as nat) {
                0nat
            } else {
                1nat
            }));
        }
        i = i + 1;
    }
    proof {
        lemma_all_ungrouped_count(cells@);
    }
    Ok(cells)
}

/// Builds the grid for the given dimensions, groups its false cells, and
/// converts the clauses to postfix.
fn minimize_grid(formula: &str, used_char: &Vec<char>, rows: usize, cols: usize) -> (r: Result<
    String,
    FormulaError,
>)
    requires
        sorted_vars(used_char@),
        2 <= used_char@.len() <= 4,
        rows == 2 || rows == 4,
        cols == 2 || cols == 4,
        rows * cols == pow2(used_char@.len()),
    ensures
        r is Ok <==> (forall|line: nat|
            line < (rows * cols) as nat ==> #[trigger] line_parses(formula@, used_char@, line)),
        r is Err ==> r->Err_0 == FormulaError::MalformedFormula,
        (r is Ok && (forall|line: nat|
            line < (rows * cols) as nat ==> #[trigger] line_value(formula@, used_char@, line)))
            ==> r->Ok_0@ == seq!['1'],
        (r is Ok && (forall|line: nat|
            line < (rows * cols) as nat ==> !(#[trigger] line_value(
                formula@,
                used_char@,
                line,
            )))) ==> r->Ok_0@ == seq!['0'],
{
    let mut cells = match build_grid(formula, used_char, rows, cols) {
        Ok(cells) => cells,
        Err(e) => {
            return Err(e);
        }
    };
    proof {
        lemma_count_false_lines_bounds(formula@, used_char@, (rows * cols) as nat);
        assert(forall|t: int|
            0 <= t < cells@.len() ==> (#[trigger] cells@[t]).form@.len() >= 1);
    }
    let text = grouping(rows, cols, &mut cells);
    let ghost group_text = text@;
    let out = convert_group_rpn(text);
    proof {
        lemma_convert_single('0');
        lemma_convert_single('1');
        if forall|line: nat|
            line < (rows * cols) as nat ==> #[trigger] line_value(formula@, used_char@, line) {
            assert(group_text == seq!['1']);
            assert(out@ == seq!['1']);
        }
        if forall|line: nat|
            line < (rows * cols) as nat ==> !(#[trigger] line_value(
                formula@,
                used_char@,
                line,
            )) {
            assert(group_text == seq!['0']);
            assert(out@ == seq!['0']);
        }
    }
    Ok(out)
}

/// Minimizes a four-variable formula over its four-by-four truth grid. The
/// variables must come sorted and distinct; a tautology yields `1`, a
/// contradiction `0`.
pub fn karnaugh_map4(formula: &str, used_char: &mut Vec<char>) -> (r: Result<String, FormulaError>)
    requires
        sorted_vars(old(used_char)@),
        old(used_char)@.len() == 4,
    ensures
        final(used_char)@ == old(used_char)@,
        r is Ok <==> (forall|line: nat|
            line < 16 ==> #[trigger] line_parses(formula@, old(used_char)@, line)),
        r is Err ==> r->Err_0 == FormulaError::MalformedFormula,
        (r is Ok && (forall|line: nat|
            line < 16 ==> #[trigger] line_value(formula@, old(used_char)@, line))) ==> r->Ok_0@
            == seq!['1'],
        (r is Ok && (forall|line: nat|
            line < 16 ==> !(#[trigger] line_value(formula@, old(used_char)@, line)))) ==> r->Ok_0@
            == seq!['0'],
{
    proof {
        lemma2_to64();
    }
    minimize_grid(formula, used_char, 4, 4)
}

/// Minimizes a three-variable formula over its two-by-four truth grid, as
/// [`karnaugh_map4`] does.
pub fn karnaugh_map3(formula: &str, used_char: &mut Vec<char>) -> (r: Result<String, FormulaError>)
    requires
        sorted_vars(old(used_char)@),
        old(used_char)@.len() == 3,
    ensures
        final(used_char)@ == old(used_char)@,
        r is Ok <==> (forall|line: nat|
            line < 8 ==> #[trigger] line_parses(formula@, old(used_char)@, line)),
        r is Err ==> r->Err_0 == FormulaError::MalformedFormula,
        (r is Ok && (forall|line: nat|
            line < 8 ==> #[trigger] line_value(formula@, old(used_char)@, line))) ==> r->Ok_0@
            == seq!['1'],
        (r is Ok && (forall|line: nat|
            line < 8 ==> !(#[trigger] line_value(formula@, old(used_char)@, line)))) ==> r->Ok_0@
            == seq!['0'],
{
    proof {
        lemma2_to64();
    }
    minimize_grid(formula, used_char, 2, 4)
}

/// Minimizes a two-variable formula over its two-by-two truth grid, as
/// [`karnaugh_map4`] does.
pub fn karnaugh_map2(formula: &str, used_char: &mut Vec<char>) -> (r: Result<String, FormulaError>)
    requires
        sorted_vars(old(used_char)@),
        old(used_char)@.len() == 2,
    ensures
        final(used_char)@ == old(used_char)@,
        r is Ok <==> (forall|line: nat|
            line < 4 ==> #[trigger] line_parses(formula@, old(used_char)@, line)),
        r is Err ==> r->Err_0 == FormulaError::MalformedFormula,
        (r is Ok && (forall|line: nat|
            line < 4 ==> #[trigger] line_value(formula@, old(used_char)@, line))) ==> r->Ok_0@
            == seq!['1'],
        (r is Ok && (forall|line: nat|
            line < 4 ==> !(#[trigger] line_value(formula@, old(used_char)@, line)))) ==> r->Ok_0@
            == seq!['0'],
{
    proof {
        lemma2_to64();
    }
    minimize_grid(formula, used_char, 2, 2)
}

/// Minimizes a formula of two to four variables over its truth grid,
/// dispatching on the number of distinct variables. Fewer than two
/// variables or more than four are outside the grid's shapes and are
/// rejected; a character outside the alphabet is malformed.
pub fn karnaugh_map(formula: &str) -> (r: Result<String, FormulaError>)
    ensures
        !crate::parser::letters_ok(formula@) ==> (r is Err && r->Err_0
            == FormulaError::MalformedFormula),
        crate::parser::letters_ok(formula@) && crate::parser::distinct_letters(formula@).len() < 2
            ==> (r is Err && r->Err_0 == FormulaError::TooFewVariables),
        crate::parser::letters_ok(formula@) && crate::parser::distinct_letters(formula@).len() > 4
            ==> (r is Err && r->Err_0 == FormulaError::TooManyVariables),
        crate::parser::letters_ok(formula@) && 2 <= crate::parser::distinct_letters(
            formula@,
        ).len() <= 4 ==> (r is Ok <==> crate::parser::spec_parse(formula@, false) is Some),
{
    let letters = match parse_formula_char(formula) {
        Ok(letters) => letters,
        Err(e) => {
            return Err(e);
        }
    };
    proof {
        crate::parser::lemma_distinct_letters(formula@);
    }
    let mut sorted = sort_letters(&letters);
    proof {
        lemma_sorted_same_length(letters@, sorted@);
    }
    if sorted.len() < 2 {
        return Err(FormulaError::TooFewVariables);
    }
    if sorted.len() > 4 {
        return Err(FormulaError::TooManyVariables);
    }
    proof {
        // the sorted list holds every variable of the text, so a row
        // substitution parses exactly when the formula does
        assert forall|line: nat| #[trigger] line_parses(formula@, sorted@, line) <==> crate::parser::spec_parse(
            formula@,
            false,
        ) is Some by {
            assert(forall|c: char|
                #[trigger] formula@.contains(c) && is_variable(c) ==> sorted@.contains(c)) by {
                assert forall|c: char|
                    #[trigger] formula@.contains(c) && is_variable(c) implies sorted@.contains(
                    c,
                ) by {
                    crate::parser::lemma_distinct_letters_complete(formula@, c);
                }
            }
            crate::eval::lemma_subst_preserves_parse(formula@, sorted@, line);
        }
    }
    let result = if sorted.len() == 4 {
        karnaugh_map4(formula, &mut sorted)
    } else if sorted.len() == 3 {
        karnaugh_map3(formula, &mut sorted)
    } else {
        karnaugh_map2(formula, &mut sorted)
    };
    proof {
        if !(crate::parser::spec_parse(formula@, false) is Some) {
            assert(!line_parses(formula@, sorted@, 0nat));
        }
    }
    result
}

/// Two duplicate-free lists of the same characters have the same length.
proof fn lemma_sorted_same_length(a: Seq<char>, b: Seq<char>)
    requires
        forall|i: int, j: int| 0 <= i < j < a.len() ==> #[trigger] a[i] != #[trigger] a[j],
        forall|i: int, j: int|
            0 <= i < j < b.len() ==> ((#[trigger] b[i]) as u32) < ((#[trigger] b[j]) as u32),
        forall|c: char| a.contains(c) <==> b.contains(c),
    ensures
        a.len() == b.len(),
{
    broadcast use vstd::set::group_set_axioms;

    assert(a.no_duplicates()) by {
        assert(forall|i: int, j: int|
            (0 <= i < a.len() && 0 <= j < a.len() && i != j) ==> a[i] != a[j]) by {
            assert(forall|i: int, j: int|
                0 <= i < j < a.len() ==> #[trigger] a[i] != #[trigger] a[j]);
        }
    }
    assert(b.no_duplicates()) by {
        assert forall|i: int, j: int|
            (0 <= i < b.len() && 0 <= j < b.len() && i != j) implies b[i] != b[j] by {
            if i < j {
                assert((b[i] as u32) < (b[j] as u32));
            } else {
                assert((b[j] as u32) < (b[i] as u32));
            }
        }
    }
    a.unique_seq_to_set();
    b.unique_seq_to_set();
    assert(a.to_set() =~= b.to_set());
}

} // verus!
