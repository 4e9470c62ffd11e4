//! Uniform spatial grid: the integer side of it. Cells are numbered row by
//! row; entries are grouped by cell with a counting sort that keeps, within
//! a cell, the order the entries came in.

use vstd::prelude::*;

verus! {

/// Index of cell `(cx, cy)` on a grid of `cols` columns and `rows` rows,
/// numbered row by row; `usize::MAX` for a cell off the grid.
pub fn cell_index(cols: usize, rows: usize, cx: i32, cy: i32) -> (r: usize)
    requires
        cols * rows < usize::MAX,
    ensures
        0 <= cx < cols && 0 <= cy < rows ==> r == cy * cols + cx,
        !(0 <= cx < cols && 0 <= cy < rows) ==> r == usize::MAX,
{
    if cx < 0 || cy < 0 {
        return usize::MAX;
    }
    let x = cx as usize;
    let y = cy as usize;
    if x >= cols || y >= rows {
        return usize::MAX;
    }
    proof {
        assert(y * cols + x < cols * rows) by (nonlinear_arith)
            requires
                y < rows,
                x < cols,
        ;
    }
    y * cols + x
}

/// Number of the first `k` entries that lie in cell `c`.
pub open spec fn count_in(cells: Seq<usize>, c: int, k: int) -> nat
    decreases k,
{
    if k <= 0 {
        0
    } else {
        count_in(cells, c, k - 1) + if cells[k - 1] as int == c { 1nat } else { 0nat }
    }
}

/// Number of the first `k` entries that lie in a cell below `c`.
pub open spec fn below(cells: Seq<usize>, c: int, k: int) -> nat
    decreases k,
{
    if k <= 0 {
        0
    } else {
        below(cells, c, k - 1) + if (cells[k - 1] as int) < c { 1nat } else { 0nat }
    }
}

/// Where entry `i` goes: after the entries of the cells below its own and
/// after the earlier entries of its own cell.
pub open spec fn slot_of(cells: Seq<usize>, i: int) -> int {
    (below(cells, cells[i] as int, cells.len() as int) + count_in(cells, cells[i] as int, i)) as int
}

proof fn lemma_below_zero(cells: Seq<usize>, k: int)
    requires
        0 <= k <= cells.len(),
    ensures
        below(cells, 0, k) == 0,
    decreases k,
{
    if k > 0 {
        lemma_below_zero(cells, k - 1);
    }
}

proof fn lemma_below_step(cells: Seq<usize>, c: int, k: int)
    requires
        0 <= k <= cells.len(),
    ensures
        below(cells, c + 1, k) == below(cells, c, k) + count_in(cells, c, k),
    decreases k,
{
    if k > 0 {
        lemma_below_step(cells, c, k - 1);
    }
}

proof fn lemma_below_mono(cells: Seq<usize>, c1: int, c2: int, k: int)
    requires
        0 <= k <= cells.len(),
        c1 <= c2,
    ensures
        below(cells, c1, k) <= below(cells, c2, k),
    decreases k,
{
    if k > 0 {
        lemma_below_mono(cells, c1, c2, k - 1);
    }
}

proof fn lemma_count_mono(cells: Seq<usize>, c: int, k1: int, k2: int)
    requires
        0 <= k1 <= k2 <= cells.len(),
    ensures
        count_in(cells, c, k1) <= count_in(cells, c, k2),
        k1 < k2 && cells[k1] as int == c ==> count_in(cells, c, k1) < count_in(cells, c, k2),
    decreases k2 - k1,
{
    if k1 < k2 {
        lemma_count_mono(cells, c, k1, k2 - 1);
        if cells[k1] as int == c && k1 == k2 - 1 {
            assert(count_in(cells, c, k2) == count_in(cells, c, k1) + 1);
        }
    }
}

proof fn lemma_below_le(cells: Seq<usize>, c: int, k: int)
    requires
        0 <= k <= cells.len(),
    ensures
        below(cells, c, k) <= k,
        count_in(cells, c, k) <= k,
    decreases k,
{
    if k > 0 {
        lemma_below_le(cells, c, k - 1);
    }
}

/// Entries in cells below `total`, grouped by cell: entry `i` lands at
/// `slot_of(cells, i)`; cell `c` covers `ranges[c]`.
pub open spec fn grouped(cells: Seq<usize>, total: usize, order: Seq<usize>, ranges: Seq<(u32, u32)>) -> bool {
    &&& order.len() == below(cells, total as int, cells.len() as int)
    &&& ranges.len() == total
    &&& forall|c: int| 0 <= c < total ==> (#[trigger] ranges[c]).0 == below(cells, c, cells.len() as int)
        && ranges[c].1 == below(cells, c, cells.len() as int) + count_in(cells, c, cells.len() as int)
    &&& forall|i: int| 0 <= i < cells.len() && (cells[i] as int) < total ==> order[#[trigger] slot_of(cells, i)] == i
}

/// Two entries in cells below `total` go to different places, all of them
/// inside the grouped sequence.
pub proof fn law_slots_distinct(cells: Seq<usize>, total: usize, i: int, j: int)
    requires
        0 <= i < cells.len(),
        0 <= j < cells.len(),
        (cells[i] as int) < total,
        (cells[j] as int) < total,
        i != j,
    ensures
        slot_of(cells, i) != slot_of(cells, j),
        0 <= slot_of(cells, i) < below(cells, total as int, cells.len() as int),
{
    let n = cells.len() as int;
    lemma_slot_in_cell(cells, total, i);
    lemma_slot_in_cell(cells, total, j);
    let ci = cells[i] as int;
    let cj = cells[j] as int;
    if ci == cj {
        if i < j {
            lemma_count_mono(cells, ci, i, j);
        } else {
            lemma_count_mono(cells, ci, j, i);
        }
    } else if ci < cj {
        lemma_below_mono(cells, ci + 1, cj, n);
        lemma_below_step(cells, ci, n);
    } else {
        lemma_below_mono(cells, cj + 1, ci, n);
        lemma_below_step(cells, cj, n);
    }
}

proof fn lemma_slot_in_cell(cells: Seq<usize>, total: usize, i: int)
    requires
        0 <= i < cells.len(),
        (cells[i] as int) < total,
    ensures
        below(cells, cells[i] as int, cells.len() as int) <= slot_of(cells, i),
        slot_of(cells, i) < below(cells, cells[i] as int + 1, cells.len() as int),
        slot_of(cells, i) < below(cells, total as int, cells.len() as int),
{
    let n = cells.len() as int;
    let c = cells[i] as int;
    lemma_count_mono(cells, c, i, n);
    lemma_below_step(cells, c, n);
    lemma_below_mono(cells, c + 1, total as int, n);
}

/// Groups entries by cell, keeping the order of entries within a cell:
/// `cells[i]` is the cell of entry `i`; entries off the grid (a cell not
/// below `total_cells`) are left out. Gives the entry indices in grouped
/// order and, per cell, the range of positions its entries take.
pub fn group_by_cell(cells: &Vec<usize>, total_cells: usize) -> (r: (Vec<usize>, Vec<(u32, u32)>))
    requires
        cells@.len() <= u32::MAX,
    ensures
        grouped(cells@, total_cells, r.0@, r.1@),
{
    let ghost cs = cells@;
    let n = cells.len();
    let mut counts: Vec<usize> = Vec::new();
    let mut c: usize = 0;
    while c < total_cells
        invariant
            c <= total_cells,
            counts@.len() == c,
            forall|q: int| 0 <= q < c ==> #[trigger] counts@[q] == 0,
        decreases total_cells - c,
    {
        counts.push(0);
        c = c + 1;
    }
    let mut i: usize = 0;
    while i < n
        invariant
            n == cs.len(),
            cs == cells@,
            n <= u32::MAX,
            i <= n,
            counts@.len() == total_cells,
            forall|q: int| 0 <= q < total_cells ==> #[trigger] counts@[q] == count_in(cs, q, i as int),
        decreases n - i,
    {
        let cell = cells[i];
        proof {
            assert forall|q: int| 0 <= q < total_cells implies count_in(cs, q, i + 1) == count_in(cs, q, i as int)
                + if cs[i as int] as int == q { 1nat } else { 0nat } by {}
            lemma_below_le(cs, cell as int, i as int);
        }
        if cell < total_cells {
            let v = counts[cell];
            counts.set(cell, v + 1);
        }
        i = i + 1;
    }
    let mut starts: Vec<usize> = Vec::new();
    let mut ranges: Vec<(u32, u32)> = Vec::new();
    let mut running: usize = 0;
    let mut c: usize = 0;
    proof {
        lemma_below_zero(cs, n as int);
    }
    while c < total_cells
        invariant
            n == cs.len(),
            n <= u32::MAX,
            c <= total_cells,
            counts@.len() == total_cells,
            forall|q: int| 0 <= q < total_cells ==> #[trigger] counts@[q] == count_in(cs, q, n as int),
            starts@.len() == c,
            ranges@.len() == c,
            running == below(cs, c as int, n as int),
            forall|q: int| 0 <= q < c ==> #[trigger] starts@[q] == below(cs, q, n as int),
            forall|q: int| 0 <= q < c ==> (#[trigger] ranges@[q]).0 == below(cs, q, n as int)
                && ranges@[q].1 == below(cs, q, n as int) + count_in(cs, q, n as int),
        decreases total_cells - c,
    {
        proof {
            lemma_below_step(cs, c as int, n as int);
            lemma_below_le(cs, c as int + 1, n as int);
        }
        starts.push(running);
        let next = running + counts[c];
        ranges.push((running as u32, next as u32));
        running = next;
        c = c + 1;
    }
    let mut order: Vec<usize> = Vec::new();
    while order.len() < running
        invariant
            order@.len() <= running,
        decreases running - order@.len(),
    {
        order.push(0);
    }
    let mut write_pos = starts;
    let mut i: usize = 0;
    while i < n
        invariant
            n == cs.len(),
            cs == cells@,
            n <= u32::MAX,
            i <= n,
            running == below(cs, total_cells as int, n as int),
            order@.len() == running,
            write_pos@.len() == total_cells,
            forall|q: int| 0 <= q < total_cells ==> #[trigger] write_pos@[q] == below(cs, q, n as int) + count_in(cs, q, i as int),
            forall|j: int| 0 <= j < i && (cs[j] as int) < total_cells ==> order@[#[trigger] slot_of(cs, j)] == j,
        decreases n - i,
    {
        let cell = cells[i];
        if cell < total_cells {
            let p = write_pos[cell];
            proof {
                assert(p == slot_of(cs, i as int));
                lemma_slot_in_cell(cs, total_cells, i as int);
                assert forall|j: int| 0 <= j < i && (cs[j] as int) < total_cells implies slot_of(cs, j) != p by {
                    law_slots_distinct(cs, total_cells, j, i as int);
                }
                lemma_below_le(cs, cell as int, n as int);
                lemma_count_mono(cs, cell as int, i as int, n as int);
            }
            let ghost before = order@;
            order.set(p, i);
            write_pos.set(cell, p + 1);
            proof {
                assert forall|j: int| 0 <= j < i && (cs[j] as int) < total_cells implies order@[#[trigger] slot_of(cs, j)] == j by {
                    law_slots_distinct(cs, total_cells, j, i as int);
                    assert(before[slot_of(cs, j)] == j);
                }
            }
        }
        proof {
            assert forall|q: int| 0 <= q < total_cells implies count_in(cs, q, i + 1) == count_in(cs, q, i as int)
                + if cs[i as int] as int == q { 1nat } else { 0nat } by {}
        }
        i = i + 1;
    }
    (order, ranges)
}

} // verus!
