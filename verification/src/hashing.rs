//! The seeded row hasher. Each non-null cell contributes the hash of
//! its native little-endian bytes (raw bytes for strings, one byte for
//! booleans); the per-column hashes of a row are folded left to right
//! with `combine_hashes`. Nulls leave the running hash untouched.

use vstd::prelude::*;

use crate::types::{CellModel, CellValue, Column, DataType, ExecError};

verus! {

/// The hash that the seeded byte hasher assigns to a byte string.
pub uninterp spec fn fingerprint_of(seed: u64, bytes: Seq<u8>) -> u64;

/// Relies on `ahash::RandomState::with_seeds` and `RandomState::hash_one`:
/// states built with the same seeds produce identical hashers, so the
/// result is a function of the seed and the bytes alone.
#[verifier::external_body]
fn hash_bytes_seeded(seed: u64, bytes: &Vec<u8>) -> (r: u64)
    ensures
        r == fingerprint_of(seed, bytes@),
{
    ahash::RandomState::with_seeds(seed, seed, seed, seed).hash_one(bytes.as_slice())
}

/// The little-endian bytes of the `n`-byte truncation of `v`.
pub open spec fn le_bytes(v: u64, n: nat) -> Seq<u8>
    decreases n,
{
    if n == 0 {
        Seq::empty()
    } else {
        seq![(v % 256) as u8] + le_bytes(v / 256, (n - 1) as nat)
    }
}

/// How many bytes a value of a fixed-width data type occupies.
pub open spec fn spec_byte_width(dt: DataType) -> nat {
    match dt {
        DataType::Boolean => 1,
        DataType::Int8 => 1,
        DataType::Int16 => 2,
        DataType::Int32 => 4,
        DataType::Int64 => 8,
        DataType::UInt8 => 1,
        DataType::UInt16 => 2,
        DataType::UInt32 => 4,
        DataType::UInt64 => 8,
        DataType::Date32 => 4,
        DataType::Date64 => 8,
        DataType::TimestampMillisecond => 8,
        DataType::TimestampMicrosecond => 8,
        DataType::TimestampNanosecond => 8,
        DataType::Utf8 => 0,
        DataType::LargeUtf8 => 0,
    }
}

/// The powers of 256: the number of values `n` bytes can hold.
pub open spec fn pow256(n: nat) -> nat
    decreases n,
{
    if n == 0 {
        1
    } else {
        256 * pow256((n - 1) as nat)
    }
}

/// The `n`-byte two's-complement image of a signed value: the value
/// itself if non-negative, else shifted up by `pow256(n)`.
pub open spec fn signed_image(v: i64, n: nat) -> u64 {
    if v >= 0 {
        v as u64
    } else {
        (pow256(n) + v) as u64
    }
}

/// The bytes a cell of type `dt` feeds to the hasher: little-endian
/// two's-complement bytes of the declared width for integer-like
/// types, a single 0/1 byte for booleans, the UTF-8 bytes for strings.
pub open spec fn cell_bytes(dt: DataType, c: CellModel) -> Seq<u8> {
    match c {
        CellModel::Int(v) => le_bytes(signed_image(v, spec_byte_width(dt)), spec_byte_width(dt)),
        CellModel::UInt(v) => le_bytes(v, spec_byte_width(dt)),
        CellModel::Bool(b) => seq![
            if b {
                1u8
            } else {
                0u8
            }
        ],
        CellModel::Str(s) => vstd::utf8::encode_utf8(s),
    }
}

/// Appends the little-endian bytes of the `n`-byte truncation of `v`.
pub(crate) fn push_le_bytes(out: &mut Vec<u8>, v: u64, n: usize)
    ensures
        final(out)@ == old(out)@ + le_bytes(v, n as nat),
{
    let mut cur: u64 = v;
    let mut idx: usize = 0;
    while idx < n
        invariant
            idx <= n,
            out@ + le_bytes(cur, (n - idx) as nat) == old(out)@ + le_bytes(v, n as nat),
        decreases n - idx,
    {
        out.push((cur % 256) as u8);
        cur = cur / 256;
        idx = idx + 1;
    }
    proof {
        assert(out@ + le_bytes(cur, 0) =~= out@);
        assert(out@ =~= old(out)@ + le_bytes(v, n as nat));
    }
}

/// Appends the hash bytes of one non-null cell.
pub(crate) fn push_cell_bytes(out: &mut Vec<u8>, dt: DataType, c: &CellValue)
    requires
        crate::types::cell_fits(dt, c@),
    ensures
        final(out)@ == old(out)@ + cell_bytes(dt, c@),
{
    match c {
        CellValue::Int(v) => {
            proof {
                lemma_pow256_values();
            }
            let w = byte_width(dt);
            let u: u64 = if *v >= 0 {
                *v as u64
            } else if w == 1 {
                (256 + *v) as u64
            } else if w == 2 {
                (65536 + *v) as u64
            } else if w == 4 {
                (0x1_0000_0000i64 + *v) as u64
            } else {
                u64::MAX - ((-(*v + 1)) as u64)
            };
            push_le_bytes(out, u, w);
        },
        CellValue::UInt(v) => {
            let w = byte_width(dt);
            push_le_bytes(out, *v, w);
        },
        CellValue::Bool(b) => {
            let byte: u8 = if *b {
                1
            } else {
                0
            };
            out.push(byte);
        },
        CellValue::Str(s) => {
            let bytes = s.as_str().as_bytes();
            let n = bytes.len();
            let mut i: usize = 0;
            while i < n
                invariant
                    i <= n,
                    n == bytes@.len(),
                    bytes@ == vstd::utf8::encode_utf8(s@),
                    out@ == old(out)@ + bytes@.subrange(0, i as int),
                decreases n - i,
            {
                out.push(bytes[i]);
                proof {
                    assert(out@ =~= old(out)@ + bytes@.subrange(0, i + 1));
                }
                i = i + 1;
            }
            proof {
                assert(bytes@.subrange(0, n as int) =~= bytes@);
            }
        },
    }
}

/// Powers of 256 are positive.
pub proof fn lemma_pow256_pos(n: nat)
    ensures
        pow256(n) >= 1,
    decreases n,
{
    if n > 0 {
        lemma_pow256_pos((n - 1) as nat);
    }
}

/// The first powers of 256 that correspond to the supported widths.
pub proof fn lemma_pow256_values()
    ensures
        pow256(0) == 1,
        pow256(1) == 0x100,
        pow256(2) == 0x10000,
        pow256(3) == 0x100_0000,
        pow256(4) == 0x1_0000_0000,
        pow256(5) == 0x100_0000_0000,
        pow256(6) == 0x1_0000_0000_0000,
        pow256(7) == 0x100_0000_0000_0000,
        pow256(8) == 0x1_0000_0000_0000_0000,
{
    assert(pow256(1) == 256 * pow256(0));
    assert(pow256(2) == 256 * pow256(1));
    assert(pow256(3) == 256 * pow256(2));
    assert(pow256(4) == 256 * pow256(3));
    assert(pow256(5) == 256 * pow256(4));
    assert(pow256(6) == 256 * pow256(5));
    assert(pow256(7) == 256 * pow256(6));
    assert(pow256(8) == 256 * pow256(7));
}

/// Powers of 256 grow with the exponent.
pub proof fn lemma_pow256_mono(a: nat, b: nat)
    requires
        a <= b,
    ensures
        pow256(a) <= pow256(b),
    decreases b,
{
    if a < b {
        lemma_pow256_mono(a, (b - 1) as nat);
        lemma_pow256_pos((b - 1) as nat);
    }
}

/// Executable byte width of a fixed-width data type.
pub(crate) fn byte_width(dt: DataType) -> (w: usize)
    ensures
        w == spec_byte_width(dt),
{
    match dt {
        DataType::Boolean => 1,
        DataType::Int8 => 1,
        DataType::Int16 => 2,
        DataType::Int32 => 4,
        DataType::Int64 => 8,
        DataType::UInt8 => 1,
        DataType::UInt16 => 2,
        DataType::UInt32 => 4,
        DataType::UInt64 => 8,
        DataType::Date32 => 4,
        DataType::Date64 => 8,
        DataType::TimestampMillisecond => 8,
        DataType::TimestampMicrosecond => 8,
        DataType::TimestampNanosecond => 8,
        DataType::Utf8 => 0,
        DataType::LargeUtf8 => 0,
    }
}

/// The fold `((17 * 37 + l) * 37 + r)` in wrapping 64-bit arithmetic.
pub open spec fn spec_combine(l: u64, r: u64) -> u64 {
    ((((17 * 37 + l) % 0x1_0000_0000_0000_0000) * 37 + r) % 0x1_0000_0000_0000_0000) as u64
}

/// Combines two hashes into one hash.
pub fn combine_hashes(l: u64, r: u64) -> (h: u64)
    ensures
        h == spec_combine(l, r),
{
    let hash = (17 * 37u64).wrapping_add(l);
    hash.wrapping_mul(37).wrapping_add(r)
}

/// The hash of one cell, if the cell is non-null.
pub open spec fn cell_hash(seed: u64, dt: DataType, c: Option<CellModel>) -> Option<u64> {
    match c {
        Option::None => Option::None,
        Option::Some(v) => Option::Some(fingerprint_of(seed, cell_bytes(dt, v))),
    }
}

/// The running hash of row `row` after folding the first `k` columns.
/// With a single column the cell hash is assigned directly; with more,
/// each non-null cell hash is combined into the accumulator.
pub open spec fn fold_row_hash(cols: Seq<Column>, k: int, row: int, seed: u64, multi: bool) -> u64
    decreases k,
{
    if k <= 0 {
        0
    } else {
        let prev = fold_row_hash(cols, k - 1, row, seed, multi);
        match cell_hash(seed, cols[k - 1].data_type, cols[k - 1].cells()[row]) {
            Option::None => prev,
            Option::Some(h) => if multi {
                spec_combine(h, prev)
            } else {
                h
            },
        }
    }
}

/// The hash of row `row` under all columns.
pub open spec fn row_hash(cols: Seq<Column>, row: int, seed: u64) -> u64 {
    fold_row_hash(cols, cols.len() as int, row, seed, cols.len() > 1)
}

/// Creates hash values for every row based on the values in the columns.
pub fn create_hashes(arrays: &Vec<Column>, seed: u64, hashes_buffer: &mut Vec<u64>) -> (r: Result<
    (),
    ExecError,
>)
    requires
        forall|k: int|
            0 <= k < arrays@.len() ==> (#[trigger] arrays@[k]).wf() && arrays@[k].cells().len()
                == old(hashes_buffer)@.len(),
        forall|i: int| 0 <= i < old(hashes_buffer)@.len() ==> old(hashes_buffer)@[i] == 0u64,
    ensures
        r is Ok,
        final(hashes_buffer)@.len() == old(hashes_buffer)@.len(),
        forall|i: int|
            0 <= i < final(hashes_buffer)@.len() ==> final(hashes_buffer)@[i] == row_hash(
                arrays@,
                i,
                seed,
            ),
{
    let multi_col = arrays.len() > 1;
    let ncols = arrays.len();
    let nrows = hashes_buffer.len();
    let mut k: usize = 0;
    while k < ncols
        invariant
            k <= ncols,
            ncols == arrays@.len(),
            nrows == hashes_buffer@.len(),
            multi_col == (arrays@.len() > 1),
            forall|kk: int|
                0 <= kk < arrays@.len() ==> (#[trigger] arrays@[kk]).wf() && arrays@[
                    kk
                ].cells().len() == nrows,
            forall|i: int|
                0 <= i < nrows ==> hashes_buffer@[i] == fold_row_hash(
                    arrays@,
                    k as int,
                    i,
                    seed,
                    multi_col,
                ),
        decreases ncols - k,
    {
        let col = &arrays[k];
        let mut i: usize = 0;
        while i < nrows
            invariant
                i <= nrows,
                k < ncols,
                ncols == arrays@.len(),
                nrows == hashes_buffer@.len(),
                multi_col == (arrays@.len() > 1),
                col == arrays@[k as int],
                forall|kk: int|
                    0 <= kk < arrays@.len() ==> (#[trigger] arrays@[kk]).wf() && arrays@[
                        kk
                    ].cells().len() == nrows,
                forall|j: int|
                    0 <= j < i ==> hashes_buffer@[j] == fold_row_hash(
                        arrays@,
                        k + 1,
                        j,
                        seed,
                        multi_col,
                    ),
                forall|j: int|
                    i <= j < nrows ==> hashes_buffer@[j] == fold_row_hash(
                        arrays@,
                        k as int,
                        j,
                        seed,
                        multi_col,
                    ),
            decreases nrows - i,
        {
            match &col.values[i] {
                Option::None => {},
                Option::Some(c) => {
                    proof {
                        assert(col.cells()[i as int] == Option::Some(c@));
                    }
                    let mut buf: Vec<u8> = Vec::new();
                    push_cell_bytes(&mut buf, col.data_type, c);
                    let h = hash_bytes_seeded(seed, &buf);
                    if multi_col {
                        let prev = hashes_buffer[i];
                        hashes_buffer.set(i, combine_hashes(h, prev));
                    } else {
                        hashes_buffer.set(i, h);
                    }
                },
            }
            i = i + 1;
        }
        k = k + 1;
    }
    Ok(())
}

/// Fills `hashes_buffer[i]` with the hash of the already encoded row
/// byte string `rows[i]`.
pub fn create_row_hashes(rows: &Vec<Vec<u8>>, seed: u64, hashes_buffer: &mut Vec<u64>) -> (r:
    Result<(), ExecError>)
    requires
        old(hashes_buffer)@.len() == rows@.len(),
    ensures
        r is Ok,
        final(hashes_buffer)@.len() == rows@.len(),
        forall|i: int|
            0 <= i < rows@.len() ==> final(hashes_buffer)@[i] == fingerprint_of(seed, rows@[i]@),
{
    let n = rows.len();
    let mut i: usize = 0;
    while i < n
        invariant
            i <= n,
            n == rows@.len(),
            hashes_buffer@.len() == rows@.len(),
            forall|j: int| 0 <= j < i ==> hashes_buffer@[j] == fingerprint_of(seed, rows@[j]@),
        decreases n - i,
    {
        let h = hash_bytes_seeded(seed, &rows[i]);
        hashes_buffer.set(i, h);
        i = i + 1;
    }
    Ok(())
}

/// Two rows that carry the same cells under the same column types hash
/// alike: the row hash depends on the cell values alone. In particular
/// `create_hashes` is deterministic and indifferent to how the same
/// rows are split into batches.
pub proof fn lemma_row_hash_from_cells(
    cols1: Seq<Column>,
    cols2: Seq<Column>,
    row1: int,
    row2: int,
    seed: u64,
)
    requires
        cols1.len() == cols2.len(),
        forall|k: int|
            0 <= k < cols1.len() ==> (#[trigger] cols1[k]).data_type == cols2[k].data_type,
        forall|k: int|
            0 <= k < cols1.len() ==> (#[trigger] cols1[k]).cells()[row1] == cols2[k].cells()[row2],
    ensures
        row_hash(cols1, row1, seed) == row_hash(cols2, row2, seed),
{
    lemma_fold_row_hash_from_cells(cols1, cols2, cols1.len() as int, row1, row2, seed, cols1.len() > 1);
}

proof fn lemma_fold_row_hash_from_cells(
    cols1: Seq<Column>,
    cols2: Seq<Column>,
    k: int,
    row1: int,
    row2: int,
    seed: u64,
    multi: bool,
)
    requires
        k <= cols1.len() == cols2.len(),
        forall|kk: int|
            0 <= kk < cols1.len() ==> (#[trigger] cols1[kk]).data_type == cols2[kk].data_type,
        forall|kk: int|
            0 <= kk < cols1.len() ==> (#[trigger] cols1[kk]).cells()[row1] == cols2[kk].cells()[row2],
    ensures
        fold_row_hash(cols1, k, row1, seed, multi) == fold_row_hash(cols2, k, row2, seed, multi),
    decreases k,
{
    if k > 0 {
        lemma_fold_row_hash_from_cells(cols1, cols2, k - 1, row1, row2, seed, multi);
    }
}

} // verus!
