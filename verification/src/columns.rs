//! Column primitives on the model: gathering rows by (possibly null)
//! indices, all-null columns, and batch concatenation.

use vstd::prelude::*;

use crate::types::{
    cell_fits, cell_model, duplicate_cell, Batch, CellModel, CellValue, Column, DataType, Field,
    Schema,
};

verus! {

/// Gathers rows of `col` by nullable indices: a null index yields a
/// null cell, as when unmatched build rows are padded in an outer join.
pub fn take_nullable(col: &Column, indices: &Vec<Option<u64>>) -> (r: Column)
    requires
        col.wf(),
        forall|k: int|
            0 <= k < indices@.len() && (#[trigger] indices@[k]) is Some ==> (indices@[k]->0 as int)
                < col.cells().len(),
    ensures
        r.data_type == col.data_type,
        r.wf(),
        r.cells().len() == indices@.len(),
        forall|k: int|
            0 <= k < indices@.len() ==> #[trigger] r.cells()[k] == (match indices@[k] {
                Option::None => Option::<CellModel>::None,
                Option::Some(i) => col.cells()[i as int],
            }),
{
    let n = indices.len();
    let m = col.values.len();
    let mut vals: Vec<Option<CellValue>> = Vec::new();
    let mut k: usize = 0;
    while k < n
        invariant
            k <= n,
            n == indices@.len(),
            m == col.values@.len(),
            col.wf(),
            forall|kk: int|
                0 <= kk < indices@.len() && (#[trigger] indices@[kk]) is Some ==> (indices@[kk]->0
                    as int) < col.cells().len(),
            vals@.len() == k,
            forall|kk: int|
                0 <= kk < k ==> cell_model(#[trigger] vals@[kk]) == (match indices@[kk] {
                    Option::None => Option::<CellModel>::None,
                    Option::Some(i) => col.cells()[i as int],
                }),
        decreases n - k,
    {
        let c: Option<CellValue> = match &indices[k] {
            Option::None => Option::None,
            Option::Some(i) => {
                proof {
                    assert((*i as int) < m);
                }
                duplicate_cell(&col.values[*i as usize])
            },
        };
        vals.push(c);
        k = k + 1;
    }
    let r = Column { data_type: col.data_type, values: vals };
    proof {
        assert forall|kk: int| 0 <= kk < indices@.len() implies #[trigger] r.cells()[kk] == (
        match indices@[kk] {
            Option::None => Option::<CellModel>::None,
            Option::Some(i) => col.cells()[i as int],
        }) by {}
        assert forall|kk: int|
            0 <= kk < r.cells().len() && (#[trigger] r.cells()[kk]) is Some implies cell_fits(
            r.data_type,
            r.cells()[kk]->0,
        ) by {}
    }
    r
}

/// Gathers rows of `col` by plain indices.
pub fn take_indexed(col: &Column, indices: &Vec<u32>) -> (r: Column)
    requires
        col.wf(),
        forall|k: int|
            0 <= k < indices@.len() ==> (#[trigger] indices@[k] as int) < col.cells().len(),
    ensures
        r.data_type == col.data_type,
        r.wf(),
        r.cells().len() == indices@.len(),
        forall|k: int|
            0 <= k < indices@.len() ==> #[trigger] r.cells()[k] == col.cells()[indices@[k] as int],
{
    let n = indices.len();
    let mut vals: Vec<Option<CellValue>> = Vec::new();
    let mut k: usize = 0;
    while k < n
        invariant
            k <= n,
            n == indices@.len(),
            col.wf(),
            forall|kk: int|
                0 <= kk < indices@.len() ==> (#[trigger] indices@[kk] as int) < col.cells().len(),
            vals@.len() == k,
            forall|kk: int|
                0 <= kk < k ==> cell_model(#[trigger] vals@[kk]) == col.cells()[indices@[kk] as int],
        decreases n - k,
    {
        let i = indices[k];
        proof {
            assert((i as int) < col.values@.len());
        }
        let c = duplicate_cell(&col.values[i as usize]);
        vals.push(c);
        k = k + 1;
    }
    let r = Column { data_type: col.data_type, values: vals };
    proof {
        assert forall|kk: int| 0 <= kk < indices@.len() implies #[trigger] r.cells()[kk]
            == col.cells()[indices@[kk] as int] by {}
        assert forall|kk: int|
            0 <= kk < r.cells().len() && (#[trigger] r.cells()[kk]) is Some implies cell_fits(
            r.data_type,
            r.cells()[kk]->0,
        ) by {}
    }
    r
}

/// Gathers rows of `col` by plain 64-bit indices.
pub fn take_indexed_u64(col: &Column, indices: &Vec<u64>) -> (r: Column)
    requires
        col.wf(),
        forall|k: int|
            0 <= k < indices@.len() ==> ((#[trigger] indices@[k]) as int) < col.cells().len(),
    ensures
        r.data_type == col.data_type,
        r.wf(),
        r.cells().len() == indices@.len(),
        forall|k: int|
            0 <= k < indices@.len() ==> #[trigger] r.cells()[k] == col.cells()[indices@[k] as int],
{
    let n = indices.len();
    let m = col.values.len();
    let mut vals: Vec<Option<CellValue>> = Vec::new();
    let mut k: usize = 0;
    while k < n
        invariant
            k <= n,
            n == indices@.len(),
            m == col.values@.len(),
            col.wf(),
            forall|kk: int|
                0 <= kk < indices@.len() ==> ((#[trigger] indices@[kk]) as int) < col.cells().len(),
            vals@.len() == k,
            forall|kk: int|
                0 <= kk < k ==> cell_model(#[trigger] vals@[kk]) == col.cells()[indices@[kk] as int],
        decreases n - k,
    {
        let i = indices[k];
        proof {
            assert((i as int) < m);
        }
        let c = duplicate_cell(&col.values[i as usize]);
        vals.push(c);
        k = k + 1;
    }
    let r = Column { data_type: col.data_type, values: vals };
    proof {
        assert forall|kk: int| 0 <= kk < indices@.len() implies #[trigger] r.cells()[kk]
            == col.cells()[indices@[kk] as int] by {}
        assert forall|kk: int|
            0 <= kk < r.cells().len() && (#[trigger] r.cells()[kk]) is Some implies cell_fits(
            r.data_type,
            r.cells()[kk]->0,
        ) by {}
    }
    r
}

/// The contiguous rows `[offset, offset + len)` of a column.
pub fn slice_column(col: &Column, offset: usize, len: usize) -> (r: Column)
    requires
        offset + len <= col.cells().len(),
    ensures
        r.data_type == col.data_type,
        r.cells() == col.cells().subrange(offset as int, offset + len),
        col.wf() ==> r.wf(),
{
    let m = col.values.len();
    let mut vals: Vec<Option<CellValue>> = Vec::new();
    let mut k: usize = 0;
    while k < len
        invariant
            k <= len,
            offset + len <= m,
            m == col.values@.len(),
            vals@.len() == k,
            forall|q: int|
                0 <= q < k ==> cell_model(#[trigger] vals@[q]) == cell_model(
                    col.values@[offset + q],
                ),
        decreases len - k,
    {
        let c = duplicate_cell(&col.values[offset + k]);
        vals.push(c);
        k = k + 1;
    }
    let r = Column { data_type: col.data_type, values: vals };
    proof {
        assert(r.cells() =~= col.cells().subrange(offset as int, offset + len));
        if col.wf() {
            assert forall|q: int|
                0 <= q < r.cells().len() && (#[trigger] r.cells()[q]) is Some implies cell_fits(
                r.data_type,
                r.cells()[q]->0,
            ) by {
                assert(r.cells()[q] == col.cells()[offset + q]);
            }
        }
    }
    r
}

/// A column of `n` null cells.
pub fn new_null_column(dt: DataType, n: usize) -> (r: Column)
    ensures
        r.data_type == dt,
        r.wf(),
        r.cells().len() == n,
        forall|k: int| 0 <= k < n ==> (#[trigger] r.cells()[k]) is None,
{
    let mut vals: Vec<Option<CellValue>> = Vec::new();
    let mut k: usize = 0;
    while k < n
        invariant
            k <= n,
            vals@.len() == k,
            forall|kk: int| 0 <= kk < k ==> (#[trigger] vals@[kk]) is None,
        decreases n - k,
    {
        vals.push(Option::None);
        k = k + 1;
    }
    let r = Column { data_type: dt, values: vals };
    proof {
        assert forall|kk: int| 0 <= kk < n implies (#[trigger] r.cells()[kk]) is None by {}
    }
    r
}

/// An exact copy of a column.
pub fn duplicate_column(col: &Column) -> (r: Column)
    ensures
        r.data_type == col.data_type,
        r.cells() == col.cells(),
{
    let n = col.values.len();
    let mut vals: Vec<Option<CellValue>> = Vec::new();
    let mut k: usize = 0;
    while k < n
        invariant
            k <= n,
            n == col.values@.len(),
            vals@.len() == k,
            forall|kk: int|
                0 <= kk < k ==> cell_model(#[trigger] vals@[kk]) == cell_model(col.values@[kk]),
        decreases n - k,
    {
        let c = duplicate_cell(&col.values[k]);
        vals.push(c);
        k = k + 1;
    }
    let r = Column { data_type: col.data_type, values: vals };
    proof {
        assert(r.cells() =~= col.cells());
    }
    r
}

/// The total number of rows of the first `k` batches.
pub open spec fn total_rows(batches: Seq<Batch>, k: int) -> int
    decreases k,
{
    if k <= 0 {
        0
    } else {
        total_rows(batches, k - 1) + batches[k - 1].num_rows
    }
}

/// The concatenation of column `c` of the first `k` batches.
pub open spec fn concat_cells(batches: Seq<Batch>, c: int, k: int) -> Seq<Option<CellModel>>
    decreases k,
{
    if k <= 0 {
        Seq::empty()
    } else {
        concat_cells(batches, c, k - 1) + batches[k - 1].columns@[c].cells()
    }
}

/// Concatenates batches of one schema into a single batch, so row
/// indices into it are absolute.
pub fn concat_batches(schema: &Schema, batches: &Vec<Batch>) -> (r: Batch)
    requires
        forall|b: int| 0 <= b < batches@.len() ==> (#[trigger] batches@[b]).wf(),
        forall|b: int|
            0 <= b < batches@.len() ==> (#[trigger] batches@[b]).schema.fields@.len()
                == schema.fields@.len(),
        forall|b: int, c: int|
            0 <= b < batches@.len() && 0 <= c < schema.fields@.len()
                ==> (#[trigger] batches@[b].columns@[c]).data_type == schema.fields@[c].data_type,
        total_rows(batches@, batches@.len() as int) <= usize::MAX,
    ensures
        r.wf(),
        r.schema.fields@ == schema.fields@,
        r.columns@.len() == schema.fields@.len(),
        r.num_rows == total_rows(batches@, batches@.len() as int),
        forall|c: int|
            0 <= c < schema.fields@.len() ==> (#[trigger] r.columns@[c]).cells() == concat_cells(
                batches@,
                c,
                batches@.len() as int,
            ),
{
    let ncols = schema.fields.len();
    let nb = batches.len();
    let mut cols: Vec<Column> = Vec::new();
    let mut c: usize = 0;
    while c < ncols
        invariant
            c <= ncols,
            ncols == schema.fields@.len(),
            nb == batches@.len(),
            forall|b: int| 0 <= b < batches@.len() ==> (#[trigger] batches@[b]).wf(),
            forall|b: int|
                0 <= b < batches@.len() ==> (#[trigger] batches@[b]).schema.fields@.len()
                    == schema.fields@.len(),
            forall|b: int, cc: int|
                0 <= b < batches@.len() && 0 <= cc < schema.fields@.len()
                    ==> (#[trigger] batches@[b].columns@[cc]).data_type
                    == schema.fields@[cc].data_type,
            cols@.len() == c,
            forall|cc: int|
                0 <= cc < c ==> (#[trigger] cols@[cc]).data_type == schema.fields@[cc].data_type
                    && cols@[cc].wf() && cols@[cc].cells() == concat_cells(
                    batches@,
                    cc,
                    batches@.len() as int,
                ),
        decreases ncols - c,
    {
        let dt = schema.fields[c].data_type;
        let mut vals: Vec<Option<CellValue>> = Vec::new();
        let mut b: usize = 0;
        while b < nb
            invariant
                b <= nb,
                c < ncols,
                ncols == schema.fields@.len(),
                nb == batches@.len(),
                dt == schema.fields@[c as int].data_type,
                forall|bb: int| 0 <= bb < batches@.len() ==> (#[trigger] batches@[bb]).wf(),
                forall|bb: int|
                    0 <= bb < batches@.len() ==> (#[trigger] batches@[bb]).schema.fields@.len()
                        == schema.fields@.len(),
                forall|bb: int, cc: int|
                    0 <= bb < batches@.len() && 0 <= cc < schema.fields@.len()
                        ==> (#[trigger] batches@[bb].columns@[cc]).data_type
                        == schema.fields@[cc].data_type,
                vals@.len() == concat_cells(batches@, c as int, b as int).len(),
                forall|j: int|
                    0 <= j < vals@.len() ==> cell_model(#[trigger] vals@[j]) == concat_cells(
                        batches@,
                        c as int,
                        b as int,
                    )[j],
            decreases nb - b,
        {
            let ghost prev = concat_cells(batches@, c as int, b as int);
            let ghost next = concat_cells(batches@, c as int, b + 1);
            let batch = &batches[b];
            let col = &batch.columns[c];
            let m = col.values.len();
            proof {
                assert(next == prev + col.cells());
            }
            let mut i: usize = 0;
            while i < m
                invariant
                    i <= m,
                    m == col.values@.len(),
                    vals@.len() == prev.len() + i,
                    next == prev + col.cells(),
                    col.cells().len() == m,
                    forall|j: int|
                        0 <= j < prev.len() ==> cell_model(#[trigger] vals@[j]) == prev[j],
                    forall|j: int|
                        0 <= j < i ==> cell_model(#[trigger] vals@[prev.len() + j])
                            == col.cells()[j],
                decreases m - i,
            {
                let cell = duplicate_cell(&col.values[i]);
                vals.push(cell);
                i = i + 1;
            }
            proof {
                assert forall|j: int| 0 <= j < vals@.len() implies cell_model(#[trigger] vals@[j])
                    == next[j] by {
                    if j >= prev.len() {
                        assert(cell_model(vals@[prev.len() + (j - prev.len())]) == col.cells()[j
                            - prev.len()]);
                    }
                }
            }
            b = b + 1;
        }
        let col = Column { data_type: dt, values: vals };
        proof {
            let whole = concat_cells(batches@, c as int, nb as int);
            assert(col.cells() =~= whole);
            assert forall|b: int| 0 <= b < batches@.len() implies (c as int) < (
            #[trigger] batches@[b]).columns@.len() by {
                assert(batches@[b].wf());
            }
            lemma_concat_cells_wf(batches@, c as int, nb as int, dt);
        }
        cols.push(col);
        c = c + 1;
    }
    let mut total: usize = 0;
    let mut b2: usize = 0;
    while b2 < nb
        invariant
            b2 <= nb,
            nb == batches@.len(),
            total == total_rows(batches@, b2 as int),
            total_rows(batches@, batches@.len() as int) <= usize::MAX,
        decreases nb - b2,
    {
        proof {
            lemma_total_rows_mono(batches@, b2 + 1, nb as int);
        }
        total = total + batches[b2].num_rows;
        b2 = b2 + 1;
    }
    let r = Batch {
        schema: Schema { fields: schema_fields_copy(schema) },
        columns: cols,
        num_rows: total,
    };
    proof {
        assert forall|cc: int| 0 <= cc < ncols implies (#[trigger] r.columns@[cc]).cells().len()
            == r.num_rows by {
            assert forall|b: int| 0 <= b < batches@.len() implies cc < (
            #[trigger] batches@[b]).columns@.len() by {
                assert(batches@[b].wf());
            }
            lemma_concat_cells_len(batches@, cc, nb as int);
        }
    }
    r
}

/// Concatenated cells are as many as the total rows.
pub proof fn lemma_concat_cells_len(batches: Seq<Batch>, c: int, k: int)
    requires
        k <= batches.len(),
        0 <= c,
        forall|b: int| 0 <= b < batches.len() ==> (#[trigger] batches[b]).wf(),
        forall|b: int| 0 <= b < batches.len() ==> c < (#[trigger] batches[b]).columns@.len(),
    ensures
        concat_cells(batches, c, k).len() == total_rows(batches, k),
    decreases k,
{
    if k > 0 {
        lemma_concat_cells_len(batches, c, k - 1);
    }
}

/// Concatenated cells of well-formed columns fit the shared type.
proof fn lemma_concat_cells_wf(batches: Seq<Batch>, c: int, k: int, dt: DataType)
    requires
        k <= batches.len(),
        0 <= c,
        forall|b: int| 0 <= b < batches.len() ==> (#[trigger] batches[b]).wf(),
        forall|b: int| 0 <= b < batches.len() ==> c < (#[trigger] batches[b]).columns@.len(),
        forall|b: int|
            0 <= b < batches.len() ==> (#[trigger] batches[b]).columns@[c].data_type == dt,
    ensures
        forall|i: int|
            0 <= i < concat_cells(batches, c, k).len() && (#[trigger] concat_cells(
                batches,
                c,
                k,
            )[i]) is Some ==> cell_fits(dt, concat_cells(batches, c, k)[i]->0),
    decreases k,
{
    if k > 0 {
        lemma_concat_cells_wf(batches, c, k - 1, dt);
    }
}

/// Prefix sums of row counts grow.
pub proof fn lemma_total_rows_mono(batches: Seq<Batch>, a: int, b: int)
    requires
        0 <= a <= b <= batches.len(),
    ensures
        total_rows(batches, a) <= total_rows(batches, b),
    decreases b - a,
{
    if a < b {
        lemma_total_rows_mono(batches, a, b - 1);
    }
}

/// An exact copy of a schema's field list.
pub fn schema_fields_copy(schema: &Schema) -> (r: Vec<Field>)
    ensures
        r@ == schema.fields@,
{
    let n = schema.fields.len();
    let mut r: Vec<Field> = Vec::new();
    let mut i: usize = 0;
    while i < n
        invariant
            i <= n,
            n == schema.fields@.len(),
            r@ == schema.fields@.subrange(0, i as int),
        decreases n - i,
    {
        let f = &schema.fields[i];
        r.push(Field { name: f.name.clone(), data_type: f.data_type, nullable: f.nullable });
        proof {
            assert(r@ =~= schema.fields@.subrange(0, i + 1));
        }
        i = i + 1;
    }
    proof {
        assert(schema.fields@.subrange(0, n as int) =~= schema.fields@);
    }
    r
}

} // verus!
