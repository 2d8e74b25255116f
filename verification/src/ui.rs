//! What the screen shows of a node, as far as it can be decided without
//! drawing: how the cores of a node are set out in columns, which cells stand
//! for which core, and how heavy a load is.

use crate::app::{CpuCoreArea, Rect};
use crate::numa_node::{CpuCore, Utilization};
use vstd::arithmetic::div_mod::lemma_multiply_divide_lt;
use vstd::prelude::*;

verus! {

/// In how many columns `cores` cores are listed: one for each 24 of them
/// begun, and no more than four.
pub open spec fn spec_column_count(cores: nat) -> nat {
    if cores <= 24 {
        1
    } else if cores <= 48 {
        2
    } else if cores <= 72 {
        3
    } else {
        4
    }
}

/// How many cores a column lists at most when `cores` cores are set out: the
/// cores shared out evenly over the columns, rounded up.
pub open spec fn spec_rows_per_column(cores: nat) -> nat {
    (cores + spec_column_count(cores) - 1) as nat / spec_column_count(cores)
}

/// In how many columns `cores` cores are listed.
pub fn column_count(cores: usize) -> (columns: usize)
    ensures
        columns == spec_column_count(cores as nat),
        1 <= columns <= 4,
{
    if cores <= 24 {
        1
    } else if cores <= 48 {
        2
    } else if cores <= 72 {
        3
    } else {
        4
    }
}

/// How many cores a column lists at most when `cores` cores are set out.
pub fn rows_per_column(cores: usize) -> (rows: usize)
    ensures
        rows == spec_rows_per_column(cores as nat),
        rows * spec_column_count(cores as nat) >= cores,
        cores > 0 ==> rows > 0,
{
    let columns: usize = column_count(cores);
    let full: usize = cores / columns;
    if cores % columns == 0 {
        full
    } else {
        full + 1
    }
}

/// The part of the whole that each of `count` equal parts is, in percent,
/// rounded down.
pub fn equal_share(count: usize) -> (percent: u16)
    requires
        count > 0,
    ensures
        percent == 100int / (count as int),
{
    if count > 100 {
        assert(100int / (count as int) == 0) by (nonlinear_arith)
            requires
                count > 100,
        ;
        0
    } else {
        100 / (count as u16)
    }
}

/// The cells that stand for the core at index `k` of `cores`: one row of the
/// column that lists it, as many rows down as cores stand above it there.
pub open spec fn core_cell(cores: Seq<CpuCore>, columns: Seq<Rect>, k: int) -> CpuCoreArea {
    let rows = spec_rows_per_column(cores.len()) as int;
    let column = columns[k / rows];
    CpuCoreArea {
        cpu_id: cores[k].id,
        area: Rect {
            x: column.x,
            y: (column.y + k % rows) as u16,
            width: column.width,
            height: 1,
        },
    }
}

/// The cells of every core of `cores`, in the order of the cores: the cores
/// fill the columns one after the other, each column from its top.
pub open spec fn core_cells(cores: Seq<CpuCore>, columns: Seq<Rect>) -> Seq<CpuCoreArea> {
    Seq::new(cores.len(), |k: int| core_cell(cores, columns, k))
}

/// Whether `columns` are the columns for `cores` cores, and the row of each
/// core is a row that the screen can have.
pub open spec fn cells_fit(cores: nat, columns: Seq<Rect>) -> bool {
    &&& columns.len() == spec_column_count(cores)
    &&& forall|k: int|
        0 <= k < cores ==> (#[trigger] columns[k / (spec_rows_per_column(cores) as int)]).y + k % (
        spec_rows_per_column(cores) as int) <= u16::MAX
}

/// Whether `columns` are the columns for `cores` cores, and the row of each
/// core is a row that the screen can have.
pub fn check_cells_fit(cores: usize, columns: &Vec<Rect>) -> (fit: bool)
    ensures
        fit == cells_fit(cores as nat, columns@),
{
    if columns.len() != column_count(cores) {
        return false;
    }
    let rows: usize = rows_per_column(cores);
    let mut k: usize = 0;
    while k < cores
        invariant
            k <= cores,
            rows == spec_rows_per_column(cores as nat),
            cores > 0 ==> rows > 0,
            rows * spec_column_count(cores as nat) >= cores,
            columns@.len() == spec_column_count(cores as nat),
            forall|j: int|
                0 <= j < k ==> (#[trigger] columns@[j / (rows as int)]).y + j % (rows as int)
                    <= u16::MAX,
        decreases cores - k,
    {
        proof {
            lemma_multiply_divide_lt(k as int, rows as int, columns@.len() as int);
        }
        let column: &Rect = &columns[k / rows];
        if k % rows > u16::MAX as usize || column.y as usize > u16::MAX as usize - k % rows {
            assert(columns@[k as int / (rows as int)].y + k as int % (rows as int) > u16::MAX);
            return false;
        }
        k += 1;
    }
    true
}

/// The cells that stand for each core of `cores`, listed in `columns`.
pub fn layout_core_cells(cores: &Vec<CpuCore>, columns: &Vec<Rect>) -> (areas: Vec<CpuCoreArea>)
    requires
        cells_fit(cores@.len(), columns@),
    ensures
        areas@ == core_cells(cores@, columns@),
{
    let mut areas: Vec<CpuCoreArea> = Vec::new();
    let rows: usize = rows_per_column(cores.len());
    let mut k: usize = 0;
    while k < cores.len()
        invariant
            k <= cores@.len(),
            rows == spec_rows_per_column(cores@.len()),
            rows * spec_column_count(cores@.len()) >= cores@.len(),
            cells_fit(cores@.len(), columns@),
            areas@ == core_cells(cores@, columns@).take(k as int),
        decreases cores@.len() - k,
    {
        proof {
            lemma_multiply_divide_lt(k as int, rows as int, columns@.len() as int);
            assert(columns@[k as int / (rows as int)].y + k as int % (rows as int) <= u16::MAX);
        }
        let column: &Rect = &columns[k / rows];
        let row: u16 = (k % rows) as u16;
        areas.push(
            CpuCoreArea {
                cpu_id: cores[k].id,
                area: Rect { x: column.x, y: column.y + row, width: column.width, height: 1 },
            },
        );
        assert(areas@ =~= core_cells(cores@, columns@).take(k + 1));
        k += 1;
    }
    assert(core_cells(cores@, columns@).take(k as int) == core_cells(cores@, columns@));
    areas
}

/// Where the cores of the column at index `column` start and end among
/// `cores` cores: the first index and the one behind the last. A column
/// that no core reaches is empty.
pub fn column_span(cores: usize, column: usize) -> (span: (usize, usize))
    requires
        column < spec_column_count(cores as nat),
    ensures
        span.0 <= span.1 <= cores,
        span.0 == if column * spec_rows_per_column(cores as nat) <= cores {
            column * spec_rows_per_column(cores as nat)
        } else {
            cores as int
        },
        span.1 == if (column + 1) * spec_rows_per_column(cores as nat) <= cores {
            (column + 1) * spec_rows_per_column(cores as nat)
        } else {
            cores as int
        },
{
    let rows: usize = rows_per_column(cores);
    let mut start: usize = 0;
    let mut c: usize = 0;
    while c < column
        invariant
            c <= column < 4,
            start == if c * rows <= cores {
                c * rows
            } else {
                cores as int
            },
        decreases column - c,
    {
        assert((c + 1) * rows == c * rows + rows) by (nonlinear_arith);
        start = if rows <= cores - start {
            start + rows
        } else {
            cores
        };
        c += 1;
    }
    assert((column + 1) * rows == column * rows + rows) by (nonlinear_arith);
    let end: usize = if rows <= cores - start {
        start + rows
    } else {
        cores
    };
    (start, end)
}

/// How heavy a load is, in four steps.
#[derive(Debug, Clone, Copy, PartialEq, Eq, Structural)]
pub enum Load {
    Low,
    Moderate,
    High,
    Critical,
}

/// How heavy the load of a core is: critical above 85 percent, high above
/// 65, moderate above 30.
pub open spec fn core_load_spec(utilization: Utilization) -> Load {
    if 100 * utilization.busy_ticks() > 85 * utilization.total_ticks() {
        Load::Critical
    } else if 100 * utilization.busy_ticks() > 65 * utilization.total_ticks() {
        Load::High
    } else if 100 * utilization.busy_ticks() > 30 * utilization.total_ticks() {
        Load::Moderate
    } else {
        Load::Low
    }
}

/// How heavy the load of a core is.
pub fn core_load(utilization: &Utilization) -> (load: Load)
    ensures
        load == core_load_spec(*utilization),
{
    if utilization.exceeds(85) {
        Load::Critical
    } else if utilization.exceeds(65) {
        Load::High
    } else if utilization.exceeds(30) {
        Load::Moderate
    } else {
        Load::Low
    }
}

/// How heavy the load of a node's memory is, with `used` of `total` in use:
/// critical above 85 percent, high above 65, else moderate. A node without
/// memory counts as unused.
pub open spec fn memory_load_spec(used: u64, total: u64) -> Load {
    if total > 0 && 100 * used > 85 * total {
        Load::Critical
    } else if total > 0 && 100 * used > 65 * total {
        Load::High
    } else {
        Load::Moderate
    }
}

/// How heavy the load of a node's memory is.
pub fn memory_load(used: u64, total: u64) -> (load: Load)
    ensures
        load == memory_load_spec(used, total),
{
    if total > 0 && 100 * (used as u128) > 85 * (total as u128) {
        Load::Critical
    } else if total > 0 && 100 * (used as u128) > 65 * (total as u128) {
        Load::High
    } else {
        Load::Moderate
    }
}

} // verus!
