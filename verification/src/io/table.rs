//! Snapshot tables: statics once per grid epoch, slim snapshots per step.
//!
//! Coordinates and static fields never change between regrids, so they are written
//! **once per grid epoch** and joined to snapshots by row order (block by block,
//! interior cells, dimension 0 fastest). Every snapshot names the epoch of the
//! statics its rows align with. Rows are assembled in **bounded row groups**, so the
//! writer's footprint is flat in domain size.

use vstd::prelude::*;

use crate::engine::observer::{snapshot_at, snapshot_due};
use crate::engine::state::{allocated_on, full_block, BlockValues, FieldHandle, FieldSpec, State};
use crate::engine::storage::{Real, StorageBackend};
use crate::geometry::cartesian::CartesianGrid;
use crate::geometry::grid::{lemma_interior_in_slab, slab_at, slab_fits, BlockId, Grid};
use crate::geometry::index::{
    box_cells, delin, in_ext, isizes, lemma_delin_lin, lemma_lin_bounds, lemma_lin_delin,
    lemma_volume_positive, lin, minus, origin, plus, volume,
};
use crate::geometry::view::{for_each_interior, Visitor};
use crate::util::text::{padded, push_padded};

verus! {

/// Rows per row group: bounds the writer's transient memory.
pub const ROWS_PER_GROUP: usize = 4_194_304;

/// Why a table cannot be written.
#[derive(Debug, Clone, Copy, PartialEq, Eq, Structural)]
pub enum ObserverError {
    /// The backend does not support this spatial dimension.
    InvalidDimension(usize),
    /// No fields were given to observe.
    NoValidFields,
}

/// Check that a table over `dims` coordinates and `fields` fields can be written:
/// one to three coordinates, and at least one field.
pub fn check_table(dims: usize, fields: usize) -> (r: Result<(), ObserverError>)
    ensures
        r is Ok <==> 1 <= dims <= 3 && fields > 0,
        r matches Err(e) ==> e == (if 1 <= dims <= 3 {
            ObserverError::NoValidFields
        } else {
            ObserverError::InvalidDimension(dims)
        }),
{
    if !(dims >= 1 && dims <= 3) {
        return Err(ObserverError::InvalidDimension(dims));
    }
    if fields == 0 {
        return Err(ObserverError::NoValidFields);
    }
    Ok(())
}

/// Which statics are written, and when snapshots fire.
#[derive(Debug, Clone, Copy)]
pub struct SnapshotLog {
    every: u64,
    statics: Option<u64>,
}

impl SnapshotLog {
    /// Steps between snapshots.
    pub closed spec fn cadence(&self) -> u64 {
        self.every
    }

    /// The epoch whose statics were written last.
    pub closed spec fn written(&self) -> Option<u64> {
        self.statics
    }

    /// Nothing is written yet; snapshots fire on step 1 and every `every` steps.
    pub fn new(every: u64) -> (r: Self)
        ensures
            r.cadence() == every,
            r.written() is None,
    {
        SnapshotLog { every, statics: None }
    }

    /// Whether a snapshot fires on this step.
    pub fn due(&self, step: u64) -> (r: bool)
        ensures
            r == snapshot_at(step, self.cadence()),
    {
        snapshot_due(step, self.every)
    }

    /// Whether the statics of an epoch have to be written before its snapshots.
    pub fn needs_statics(&self, epoch: u64) -> (r: bool)
        ensures
            r == (self.written() != Some(epoch)),
    {
        match self.statics {
            None => true,
            Some(e) => e != epoch,
        }
    }

    /// The statics of an epoch were written.
    pub fn statics_written(&mut self, epoch: u64)
        ensures
            final(self).written() == Some(epoch),
            final(self).cadence() == old(self).cadence(),
    {
        self.statics = Some(epoch);
    }
}

/// Name of the statics file of an epoch.
pub fn static_file(epoch: u64) -> (r: String)
    ensures
        r@ == "static_"@ + padded(epoch as nat, 7) + ".parquet"@,
{
    let mut s = String::new();
    s.append("static_");
    push_padded(&mut s, epoch, 7);
    s.append(".parquet");
    assert(s@ =~= "static_"@ + padded(epoch as nat, 7) + ".parquet"@);
    s
}

/// Name of the snapshot file of a step.
pub fn snapshot_file(step: u64) -> (r: String)
    ensures
        r@ == "snap_"@ + padded(step as nat, 7) + ".parquet"@,
{
    let mut s = String::new();
    s.append("snap_");
    push_padded(&mut s, step, 7);
    s.append(".parquet");
    assert(s@ =~= "snap_"@ + padded(step as nat, 7) + ".parquet"@);
    s
}

/// A column of doubles in a schema.
pub open spec fn double_column(name: Seq<char>) -> Seq<char> {
    "required double "@ + name + ";\n"@
}

/// The columns of the first `n` fields in a schema.
pub open spec fn field_columns<T: Real>(
    fields: Seq<(&'static str, FieldHandle<T>)>,
    n: nat,
) -> Seq<char>
    decreases n,
{
    if n == 0 {
        Seq::empty()
    } else {
        field_columns(fields, (n - 1) as nat) + double_column(fields[n - 1].0@)
    }
}

/// The columns of the first `n` coordinates in a schema.
pub open spec fn coordinate_columns(n: nat) -> Seq<char> {
    if n == 0 {
        Seq::empty()
    } else if n == 1 {
        double_column("x"@)
    } else if n == 2 {
        double_column("x"@) + double_column("y"@)
    } else {
        double_column("x"@) + double_column("y"@) + double_column("z"@)
    }
}

/// A schema with these columns.
pub open spec fn schema_of(columns: Seq<char>) -> Seq<char> {
    "message snapshot { "@ + columns + " }"@
}

fn push_column(s: &mut String, name: &str)
    ensures
        final(s)@ == old(s)@ + double_column(name@),
{
    s.append("required double ");
    s.append(name);
    s.append(";\n");
    assert(s@ =~= old(s)@ + double_column(name@));
}

fn push_fields<T: Real>(s: &mut String, fields: &[(&'static str, FieldHandle<T>)])
    ensures
        final(s)@ == old(s)@ + field_columns(fields@, fields@.len()),
{
    let ghost start = s@;
    let mut i: usize = 0;
    assert(s@ =~= start + field_columns(fields@, 0));
    while i < fields.len()
        invariant
            i <= fields@.len(),
            s@ == start + field_columns(fields@, i as nat),
        decreases fields.len() - i,
    {
        push_column(s, fields[i].0);
        assert(s@ =~= start + field_columns(fields@, (i + 1) as nat));
        i += 1;
    }
}

/// Schema of a statics file: the coordinates, then the static fields.
pub fn static_schema<T: Real>(dims: usize, fields: &[(&'static str, FieldHandle<T>)]) -> (r: String)
    requires
        1 <= dims <= 3,
    ensures
        r@ == schema_of(
            coordinate_columns(dims as nat) + field_columns(fields@, fields@.len()),
        ),
{
    let mut s = String::new();
    s.append("message snapshot { ");
    push_column(&mut s, "x");
    if dims >= 2 {
        push_column(&mut s, "y");
    }
    if dims >= 3 {
        push_column(&mut s, "z");
    }
    push_fields(&mut s, fields);
    s.append(" }");
    assert(s@ =~= schema_of(
        coordinate_columns(dims as nat) + field_columns(fields@, fields@.len()),
    ));
    s
}

/// Schema of a snapshot file: step, time and epoch, then the dynamic fields.
pub fn snapshot_schema<T: Real>(fields: &[(&'static str, FieldHandle<T>)]) -> (r: String)
    ensures
        r@ == schema_of(
            "required int64 step;\n"@ + "required double t;\n"@ + "required int64 epoch;\n"@
                + field_columns(fields@, fields@.len()),
        ),
{
    let mut s = String::new();
    s.append("message snapshot { ");
    s.append("required int64 step;\n");
    s.append("required double t;\n");
    s.append("required int64 epoch;\n");
    push_fields(&mut s, fields);
    s.append(" }");
    assert(s@ =~= schema_of(
        "required int64 step;\n"@ + "required double t;\n"@ + "required int64 epoch;\n"@
            + field_columns(fields@, fields@.len()),
    ));
    s
}

/// One row group: a run of blocks, column by column.
pub struct RowGroup<T> {
    /// The columns: coordinates first, if any, then fields.
    pub columns: Vec<Vec<T>>,
    /// The block after the last one of the group.
    pub next: usize,
}

/// Number of rows of one block.
pub open spec fn block_rows<T: Real, const D: usize>(grid: &CartesianGrid<T, D>) -> int {
    volume(grid.tile())
}

/// A group ends where it first holds `limit` rows, or at the last block.
pub open spec fn group_ends(first: int, next: int, blocks: int, rows: int, limit: int) -> bool {
    &&& first <= next <= blocks
    &&& first < blocks ==> first < next
    &&& next < blocks ==> (next - first) * rows >= limit
    &&& forall|e: int| first < e < next ==> #[trigger] ((e - first) * rows) < limit
}

/// Entry of column `c` at the `k`-th cell of block `b`: a coordinate of the cell's
/// center, or the value of a field there.
pub open spec fn table_entry<T: Real, const D: usize>(
    grid: &CartesianGrid<T, D>,
    specs: Seq<FieldSpec>,
    values: Seq<BlockValues<T>>,
    coords: int,
    fields: Seq<(&'static str, FieldHandle<T>)>,
    c: int,
    b: int,
    k: int,
) -> T {
    let idx = delin(k, grid.tile());
    if c < coords {
        grid.center_of(b, idx, c)
    } else {
        let f = fields[c - coords].1.pos();
        values[b].fields[f][slab_at(idx, grid.tile(), specs[f].halo as int)]
    }
}

/// Column `c` over a run of blocks, row by row.
pub open spec fn table_column<T: Real, const D: usize>(
    grid: &CartesianGrid<T, D>,
    specs: Seq<FieldSpec>,
    values: Seq<BlockValues<T>>,
    coords: int,
    fields: Seq<(&'static str, FieldHandle<T>)>,
    c: int,
    first: int,
    next: int,
) -> Seq<T> {
    Seq::new(
        ((next - first) * block_rows(grid)) as nat,
        |i: int|
            table_entry(
                grid,
                specs,
                values,
                coords,
                fields,
                c,
                first + i / block_rows(grid),
                i % block_rows(grid),
            ),
    )
}

/// The interior cells of a block, in row order.
pub(crate) fn row_cells<T: Real, const D: usize>(grid: &CartesianGrid<T, D>) -> (r: Vec<[isize; D]>)
    requires
        grid.valid(),
        slab_fits(grid.tile(), 0),
    ensures
        r@.len() == block_rows(grid),
        forall|k: int|
            0 <= k < r@.len() ==> isizes(#[trigger] r@[k]) == delin(k, grid.tile()) && in_ext(
                isizes(r@[k]),
                grid.tile(),
            ),
{
    let ghost ext = grid.tile();
    let mut cells: Vec<[isize; D]> = Vec::new();
    let interior = grid.block_cells();
    proof {
        crate::geometry::grid::lemma_extent_fits(ext, 0);
        assert forall|d: int| 0 <= d < D implies #[trigger] interior[d] <= isize::MAX by {
            assert(ext[d] + 2 * 0 <= isize::MAX);
            assert(ext[d] == interior[d]);
        }
    }
    for_each_interior(interior, &mut cells);
    proof {
        let o = origin(D as nat);
        crate::geometry::index::lemma_volume_positive(ext);
        assert(minus(ext, o) =~= ext);
        assert(!crate::geometry::index::empty_box(o, ext)) by {
            assert forall|d: int| 0 <= d < o.len() implies #[trigger] o[d] < ext[d] by {
                assert(ext[d] > 0);
            }
        }
        let listed = box_cells(o, ext);
        assert(cells.trace() =~= listed);
        assert forall|k: int| 0 <= k < cells@.len() implies isizes(#[trigger] cells@[k]) == delin(
            k,
            ext,
        ) && in_ext(isizes(cells@[k]), ext) by {
            assert(cells.trace()[k] == isizes(cells@[k]));
            lemma_lin_delin(k, ext);
            assert(plus(o, delin(k, ext)) =~= delin(k, ext));
        }
    }
    cells
}

/// Assemble the row group that starts at block `first`: the centers of the cells if
/// `with_coords`, and the fields, block by block, until the group holds `limit` rows
/// or the blocks are used up.
pub fn row_group<T: Real, S: StorageBackend<T>, const D: usize>(
    grid: &CartesianGrid<T, D>,
    state: &State<T, S>,
    with_coords: bool,
    fields: &[(&'static str, FieldHandle<T>)],
    first: usize,
    limit: usize,
) -> (r: RowGroup<T>)
    requires
        grid.valid(),
        slab_fits(grid.tile(), 0),
        allocated_on::<T, T, CartesianGrid<T, D>, D>(state.fields(), grid, state.values()),
        first <= grid.blocks(),
        grid.blocks() * block_rows(grid) <= usize::MAX,
        D + fields@.len() <= usize::MAX,
        forall|c: int|
            0 <= c < fields@.len() ==> 0 <= (#[trigger] fields@[c]).1.pos() < state.fields().len(),
    ensures
        group_ends(
            first as int,
            r.next as int,
            grid.blocks() as int,
            block_rows(grid),
            limit as int,
        ),
        r.columns@.len() == (if with_coords {
            D as int
        } else {
            0
        }) + fields@.len(),
        forall|c: int|
            0 <= c < r.columns@.len() ==> (#[trigger] r.columns@[c])@ == table_column(
                grid,
                state.fields(),
                state.values(),
                if with_coords {
                    D as int
                } else {
                    0
                },
                fields@,
                c,
                first as int,
                r.next as int,
            ),
{
    let ghost specs = state.fields();
    let ghost values = state.values();
    let ghost rows = block_rows(grid);
    let coords: usize = if with_coords {
        D
    } else {
        0
    };
    let blocks = grid.num_blocks();
    let cells = row_cells(grid);
    proof {
        crate::geometry::index::lemma_volume_positive(grid.tile());
        grid.lemma_blocks();
    }
    let width = coords + fields.len();
    let mut columns: Vec<Vec<T>> = Vec::new();
    while columns.len() < width
        invariant
            columns@.len() <= width,
            forall|c: int| 0 <= c < columns@.len() ==> (#[trigger] columns@[c])@.len() == 0,
        decreases width - columns.len(),
    {
        columns.push(Vec::new());
    }
    let mut next: usize = first;
    let mut held: usize = 0;
    proof {
        assert((first - first) * rows == 0);
        assert forall|c: int| 0 <= c < width implies (#[trigger] columns@[c])@ == table_column(
            grid,
            specs,
            values,
            coords as int,
            fields@,
            c,
            first as int,
            first as int,
        ) by {
            assert(columns@[c]@ =~= table_column(
                grid,
                specs,
                values,
                coords as int,
                fields@,
                c,
                first as int,
                first as int,
            ));
        }
    }
    while next < blocks && (next == first || held < limit)
        invariant
            first <= next <= blocks,
            blocks == grid.blocks(),
            blocks <= u32::MAX,
            rows == block_rows(grid),
            rows >= 1,
            rows == cells@.len(),
            blocks * rows <= usize::MAX,
            held == (next - first) * rows,
            forall|e: int| first < e < next ==> #[trigger] ((e - first) * rows) < limit,
            grid.valid(),
            allocated_on::<T, T, CartesianGrid<T, D>, D>(specs, grid, values),
            specs == state.fields(),
            values == state.values(),
            coords <= D,
            width == coords + fields@.len(),
            columns@.len() == width,
            forall|c: int|
                0 <= c < fields@.len() ==> 0 <= (#[trigger] fields@[c]).1.pos() < specs.len(),
            forall|k: int|
                0 <= k < cells@.len() ==> isizes(#[trigger] cells@[k]) == delin(k, grid.tile())
                    && in_ext(isizes(cells@[k]), grid.tile()),
            forall|c: int|
                0 <= c < width ==> (#[trigger] columns@[c])@ == table_column(
                    grid,
                    specs,
                    values,
                    coords as int,
                    fields@,
                    c,
                    first as int,
                    next as int,
                ),
        decreases blocks - next,
    {
        let mut c: usize = 0;
        while c < width
            invariant
                c <= width,
                first <= next < blocks,
                blocks == grid.blocks(),
                blocks <= u32::MAX,
                rows == block_rows(grid),
                rows >= 1,
                rows == cells@.len(),
                grid.valid(),
                allocated_on::<T, T, CartesianGrid<T, D>, D>(specs, grid, values),
                specs == state.fields(),
                values == state.values(),
                coords <= D,
                width == coords + fields@.len(),
                columns@.len() == width,
                forall|c: int|
                    0 <= c < fields@.len() ==> 0 <= (#[trigger] fields@[c]).1.pos() < specs.len(),
                forall|k: int|
                    0 <= k < cells@.len() ==> isizes(#[trigger] cells@[k]) == delin(k, grid.tile())
                        && in_ext(isizes(cells@[k]), grid.tile()),
                forall|e: int|
                    0 <= e < c ==> (#[trigger] columns@[e])@ == table_column(
                        grid,
                        specs,
                        values,
                        coords as int,
                        fields@,
                        e,
                        first as int,
                        next + 1,
                    ),
                forall|e: int|
                    c <= e < width ==> (#[trigger] columns@[e])@ == table_column(
                        grid,
                        specs,
                        values,
                        coords as int,
                        fields@,
                        e,
                        first as int,
                        next as int,
                    ),
            decreases width - c,
        {
            let block = BlockId(next as u32);
            let ghost before = columns@;
            let ghost head = columns@[c as int]@;
            if c < coords {
                push_centers(grid, block, c, &cells, &mut columns[c]);
            } else {
                proof {
                    assert(fields@[c - coords].1.pos() < specs.len());
                }
                push_values(grid, state, block, fields[c - coords].1, &cells, &mut columns[c]);
            }
            proof {
                let n = next - first;
                let col = columns@[c as int]@;
                let want = table_column(
                    grid,
                    specs,
                    values,
                    coords as int,
                    fields@,
                    c as int,
                    first as int,
                    next + 1,
                );
                assert((n + 1) * rows == n * rows + rows) by (nonlinear_arith);
                assert(0 <= n * rows) by (nonlinear_arith)
                    requires
                        n >= 0,
                        rows >= 1,
                ;
                assert(col.len() == want.len());
                assert forall|i: int| 0 <= i < want.len() implies #[trigger] col[i] == want[i] by {
                    if i < n * rows {
                        assert(col[i] == head[i]);
                    } else {
                        let k = i - n * rows;
                        assert(i / rows == n && i % rows == k) by (nonlinear_arith)
                            requires
                                i == n * rows + k,
                                0 <= k < rows,
                        ;
                    }
                }
                assert(col =~= want);
                assert forall|e: int| 0 <= e < width && e != c implies #[trigger] columns@[e]
                    == before[e] by {}
            }
            c += 1;
        }
        proof {
            let n = next - first;
            assert((n + 1) * rows == n * rows + rows) by (nonlinear_arith);
            assert((n + 1) * rows <= blocks * rows) by (nonlinear_arith)
                requires
                    0 <= n + 1 <= blocks,
                    rows >= 1,
            ;
        }
        held = held + cells.len();
        next += 1;
    }
    RowGroup { columns, next }
}

fn push_centers<T: Real, const D: usize>(
    grid: &CartesianGrid<T, D>,
    block: BlockId,
    d: usize,
    cells: &Vec<[isize; D]>,
    col: &mut Vec<T>,
)
    requires
        grid.valid(),
        block.id() < grid.blocks(),
        d < D,
    ensures
        final(col)@ == old(col)@ + Seq::new(
            cells@.len(),
            |k: int| grid.center_of(block.id(), isizes(cells@[k]), d as int),
        ),
{
    let ghost head = col@;
    let mut k: usize = 0;
    while k < cells.len()
        invariant
            k <= cells@.len(),
            grid.valid(),
            block.id() < grid.blocks(),
            d < D,
            col@.len() == head.len() + k,
            forall|i: int| 0 <= i < head.len() ==> #[trigger] col@[i] == head[i],
            forall|i: int|
                0 <= i < k ==> #[trigger] col@[head.len() + i] == grid.center_of(
                    block.id(),
                    isizes(cells@[i]),
                    d as int,
                ),
        decreases cells.len() - k,
    {
        let center = grid.cell_center(block, cells[k]);
        let ghost before = col@;
        col.push(center[d]);
        proof {
            assert forall|i: int| 0 <= i < k + 1 implies #[trigger] col@[head.len() + i]
                == grid.center_of(block.id(), isizes(cells@[i]), d as int) by {
                if i < k {
                    assert(before[head.len() + i] == col@[head.len() + i]);
                }
            }
        }
        k += 1;
    }
    assert(col@ =~= head + Seq::new(
        cells@.len(),
        |k: int| grid.center_of(block.id(), isizes(cells@[k]), d as int),
    )) by {
        assert forall|i: int| 0 <= i < col@.len() implies col@[i] == (head + Seq::new(
            cells@.len(),
            |k: int| grid.center_of(block.id(), isizes(cells@[k]), d as int),
        ))[i] by {
            if i >= head.len() {
                assert(col@[head.len() + (i - head.len())] == col@[i]);
            }
        }
    }
}

fn push_values<T: Real, S: StorageBackend<T>, const D: usize>(
    grid: &CartesianGrid<T, D>,
    state: &State<T, S>,
    block: BlockId,
    handle: FieldHandle<T>,
    cells: &Vec<[isize; D]>,
    col: &mut Vec<T>,
)
    requires
        grid.valid(),
        block.id() < grid.blocks(),
        allocated_on::<T, T, CartesianGrid<T, D>, D>(state.fields(), grid, state.values()),
        0 <= handle.pos() < state.fields().len(),
        forall|k: int|
            0 <= k < cells@.len() ==> in_ext(isizes(#[trigger] cells@[k]), grid.tile()),
    ensures
        final(col)@ == old(col)@ + Seq::new(
            cells@.len(),
            |k: int|
                state.values()[block.id()].fields[handle.pos()][slab_at(
                    isizes(cells@[k]),
                    grid.tile(),
                    state.fields()[handle.pos()].halo as int,
                )],
        ),
{
    let ghost head = col@;
    let ghost f = handle.pos();
    let ghost ext = grid.tile();
    let ghost g = state.fields()[f].halo as int;
    let ghost slab = state.values()[block.id()].fields[f];
    proof {
        assert(grid.extent_of(block.id()) == ext);
        assert(full_block(state.fields(), ext, state.values()[block.id()]));
        assert(slab_fits(ext, state.fields()[f].halo as int));
    }
    let view = state.view(grid, block, handle);
    let mut k: usize = 0;
    while k < cells.len()
        invariant
            k <= cells@.len(),
            view.valid(),
            view.ext() == ext,
            view.width() == g,
            view.data() == slab,
            forall|k: int| 0 <= k < cells@.len() ==> in_ext(isizes(#[trigger] cells@[k]), ext),
            col@.len() == head.len() + k,
            forall|i: int| 0 <= i < head.len() ==> #[trigger] col@[i] == head[i],
            forall|i: int|
                0 <= i < k ==> #[trigger] col@[head.len() + i] == slab[slab_at(
                    isizes(cells@[i]),
                    ext,
                    g,
                )],
        decreases cells.len() - k,
    {
        proof {
            assert(in_ext(isizes(cells@[k as int]), ext));
            lemma_interior_in_slab(isizes(cells@[k as int]), ext, g);
        }
        let x = view.get(cells[k]);
        let ghost before = col@;
        col.push(x);
        proof {
            assert forall|i: int| 0 <= i < k + 1 implies #[trigger] col@[head.len() + i]
                == slab[slab_at(isizes(cells@[i]), ext, g)] by {
                if i < k {
                    assert(before[head.len() + i] == col@[head.len() + i]);
                }
            }
        }
        k += 1;
    }
    assert(col@ =~= head + Seq::new(
        cells@.len(),
        |k: int| slab[slab_at(isizes(cells@[k]), ext, g)],
    )) by {
        assert forall|i: int| 0 <= i < col@.len() implies col@[i] == (head + Seq::new(
            cells@.len(),
            |k: int| slab[slab_at(isizes(cells@[k]), ext, g)],
        ))[i] by {
            if i >= head.len() {
                assert(col@[head.len() + (i - head.len())] == col@[i]);
            }
        }
    }
}

/// A column cut into two row groups, one after the other, is the column in one
/// piece: statics and snapshots join by row position whatever the group sizes.
pub proof fn grouping_keeps_the_rows<T: Real, const D: usize>(
    grid: &CartesianGrid<T, D>,
    specs: Seq<FieldSpec>,
    values: Seq<BlockValues<T>>,
    coords: int,
    fields: Seq<(&'static str, FieldHandle<T>)>,
    c: int,
    first: int,
    mid: int,
    next: int,
)
    requires
        grid.valid(),
        0 <= first <= mid <= next,
    ensures
        table_column(grid, specs, values, coords, fields, c, first, mid) + table_column(
            grid,
            specs,
            values,
            coords,
            fields,
            c,
            mid,
            next,
        ) == table_column(grid, specs, values, coords, fields, c, first, next),
{
    let rows = block_rows(grid);
    crate::geometry::index::lemma_volume_positive(grid.tile());
    let a = table_column(grid, specs, values, coords, fields, c, first, mid);
    let b = table_column(grid, specs, values, coords, fields, c, mid, next);
    let whole = table_column(grid, specs, values, coords, fields, c, first, next);
    let m = mid - first;
    let n = next - mid;
    assert((m + n) * rows == m * rows + n * rows) by (nonlinear_arith);
    assert(0 <= m * rows && 0 <= n * rows) by (nonlinear_arith)
        requires
            m >= 0,
            n >= 0,
            rows >= 1,
    ;
    assert forall|i: int| 0 <= i < whole.len() implies #[trigger] (a + b)[i] == whole[i] by {
        if i >= m * rows {
            let j = i - m * rows;
            vstd::arithmetic::div_mod::lemma_fundamental_div_mod(j, rows);
            let q = j / rows;
            let k = j % rows;
            assert(i / rows == m + q && i % rows == k) by (nonlinear_arith)
                requires
                    i == m * rows + rows * q + k,
                    0 <= k < rows,
            ;
        }
    }
    assert(a + b =~= whole);
}

/// A table has one row per interior cell of its blocks. The row of a cell stands at its
/// block's place and its own within the block, and holds in every column the coordinate
/// of the cell's center or the value of the field there.
pub proof fn rows_are_cells<T: Real, const D: usize>(
    grid: &CartesianGrid<T, D>,
    specs: Seq<FieldSpec>,
    values: Seq<BlockValues<T>>,
    coords: int,
    fields: Seq<(&'static str, FieldHandle<T>)>,
    c: int,
    first: int,
    next: int,
    b: int,
    idx: Seq<int>,
)
    requires
        grid.valid(),
        0 <= first <= b < next,
        in_ext(idx, grid.tile()),
    ensures
        ({
            let column = table_column(grid, specs, values, coords, fields, c, first, next);
            let n = volume(grid.tile());
            let row = (b - first) * n + lin(idx, grid.tile());
            &&& column.len() == (next - first) * n
            &&& 0 <= row < column.len()
            &&& c < coords ==> column[row] == grid.center_of(b, idx, c)
            &&& c >= coords ==> ({
                let f = fields[c - coords].1.pos();
                column[row] == values[b].fields[f][slab_at(
                    idx,
                    grid.tile(),
                    specs[f].halo as int,
                )]
            })
        }),
{
    let ext = grid.tile();
    let n = volume(ext);
    let k = lin(idx, ext);
    let (p, m) = (b - first, next - first);
    lemma_volume_positive(ext);
    lemma_lin_bounds(idx, ext);
    lemma_delin_lin(idx, ext);
    vstd::arithmetic::div_mod::lemma_fundamental_div_mod_converse(p * n + k, n, p, k);
    assert(0 <= p * n + k < m * n) by (nonlinear_arith)
        requires
            0 <= p < m,
            0 <= k < n,
    ;
}

} // verus!
