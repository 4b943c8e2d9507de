//! The compact row layout: a minimal variable-width byte string used
//! as group identity. Each cell is a presence byte followed, for a
//! non-null cell, by its little-endian value bytes; strings carry an
//! eight-byte length prefix. Byte-for-byte equality of two encoded
//! rows of the same schema coincides with cell-for-cell equality.

use vstd::prelude::*;

use crate::hashing::{cell_bytes, le_bytes, pow256, signed_image, spec_byte_width};
use crate::types::{cell_fits, cell_models, CellModel, CellValue, Column, DataType};

verus! {

/// The value of a little-endian byte string.
pub open spec fn from_le(s: Seq<u8>) -> nat
    decreases s.len(),
{
    if s.len() == 0 {
        0
    } else {
        (s[0] + 256 * from_le(s.drop_first())) as nat
    }
}

/// `le_bytes` produces exactly `n` bytes.
pub proof fn lemma_le_bytes_len(v: u64, n: nat)
    ensures
        le_bytes(v, n).len() == n,
    decreases n,
{
    if n > 0 {
        lemma_le_bytes_len(v / 256, (n - 1) as nat);
    }
}

/// Reading little-endian bytes back gives the value modulo `pow256(n)`.
pub proof fn lemma_from_le_le_bytes(v: u64, n: nat)
    ensures
        from_le(le_bytes(v, n)) == (v as nat) % pow256(n),
    decreases n,
{
    if n == 0 {
        assert((v as nat) % pow256(0) == 0);
    } else {
        let tail = le_bytes(v / 256, (n - 1) as nat);
        assert(le_bytes(v, n).drop_first() =~= tail);
        lemma_from_le_le_bytes(v / 256, (n - 1) as nat);
        crate::hashing::lemma_pow256_pos((n - 1) as nat);
        let p = pow256((n - 1) as nat) as int;
        vstd::arithmetic::div_mod::lemma_breakdown(v as int, 256, p);
        assert(pow256(n) == 256 * pow256((n - 1) as nat));
    }
}

/// A value below `pow256(n)` round-trips through its bytes exactly.
pub proof fn lemma_from_le_le_bytes_exact(v: u64, n: nat)
    requires
        (v as nat) < pow256(n),
    ensures
        from_le(le_bytes(v, n)) == v,
{
    lemma_from_le_le_bytes(v, n);
    vstd::arithmetic::div_mod::lemma_small_mod(v as nat, pow256(n));
}

/// Whether values of the type have no fixed byte width.
pub open spec fn is_var_len(dt: DataType) -> bool {
    dt is Utf8 || dt is LargeUtf8
}

/// Whether the integer payload of the type is signed.
pub open spec fn is_signed(dt: DataType) -> bool {
    match dt {
        DataType::Int8 => true,
        DataType::Int16 => true,
        DataType::Int32 => true,
        DataType::Int64 => true,
        DataType::Date32 => true,
        DataType::Date64 => true,
        DataType::TimestampMillisecond => true,
        DataType::TimestampMicrosecond => true,
        DataType::TimestampNanosecond => true,
        _ => false,
    }
}

/// The compact encoding of one cell: a presence byte, then for
/// strings an eight-byte length prefix, then the value bytes.
pub open spec fn compact_cell(dt: DataType, c: Option<CellModel>) -> Seq<u8> {
    match c {
        Option::None => seq![0u8],
        Option::Some(v) => seq![1u8] + (match v {
            CellModel::Str(s) => le_bytes(vstd::utf8::encode_utf8(s).len() as u64, 8),
            _ => Seq::empty(),
        }) + cell_bytes(dt, v),
    }
}

/// The compact encoding of a row: its cells' encodings in field order.
pub open spec fn compact_row(dts: Seq<DataType>, cells: Seq<Option<CellModel>>) -> Seq<u8>
    decreases dts.len(),
{
    if dts.len() == 0 {
        Seq::empty()
    } else {
        compact_cell(dts[0], cells[0]) + compact_row(dts.drop_first(), cells.drop_first())
    }
}

/// The fixed-width cell a little-endian byte string denotes.
pub open spec fn decode_fixed(dt: DataType, vb: Seq<u8>) -> CellModel {
    if dt is Boolean {
        CellModel::Bool(from_le(vb) != 0)
    } else if is_signed(dt) {
        let u = from_le(vb) as int;
        let p = pow256(spec_byte_width(dt)) as int;
        CellModel::Int(
            if u < p / 2 {
                u as i64
            } else {
                (u - p) as i64
            },
        )
    } else {
        CellModel::UInt(from_le(vb) as u64)
    }
}

/// Parses one compact cell from the front of `bytes`, yielding the
/// cell and the number of bytes consumed.
pub open spec fn decode_cell(dt: DataType, bytes: Seq<u8>) -> Option<(Option<CellModel>, int)> {
    if bytes.len() < 1 {
        Option::None
    } else if bytes[0] == 0 {
        Option::Some((Option::None, 1))
    } else if bytes[0] != 1 {
        Option::None
    } else if is_var_len(dt) {
        if bytes.len() < 9 {
            Option::None
        } else {
            let slen = from_le(bytes.subrange(1, 9)) as int;
            if bytes.len() < 9 + slen {
                Option::None
            } else {
                let sbytes = bytes.subrange(9, 9 + slen);
                if vstd::utf8::valid_utf8(sbytes) {
                    Option::Some(
                        (Option::Some(CellModel::Str(vstd::utf8::decode_utf8(sbytes))), 9 + slen),
                    )
                } else {
                    Option::None
                }
            }
        }
    } else {
        let w = spec_byte_width(dt) as int;
        if bytes.len() < 1 + w {
            Option::None
        } else {
            Option::Some((Option::Some(decode_fixed(dt, bytes.subrange(1, 1 + w))), 1 + w))
        }
    }
}

/// Parses a whole compact row; the bytes must be consumed exactly.
pub open spec fn decode_row(dts: Seq<DataType>, bytes: Seq<u8>) -> Option<Seq<Option<CellModel>>>
    decreases dts.len(),
{
    if dts.len() == 0 {
        if bytes.len() == 0 {
            Option::Some(Seq::empty())
        } else {
            Option::None
        }
    } else {
        match decode_cell(dts[0], bytes) {
            Option::None => Option::None,
            Option::Some((c, used)) => match decode_row(
                dts.drop_first(),
                bytes.subrange(used, bytes.len() as int),
            ) {
                Option::None => Option::None,
                Option::Some(rest) => Option::Some(seq![c] + rest),
            },
        }
    }
}

/// A well-formed cell is recovered exactly from the front of its
/// encoding, whatever follows it.
proof fn lemma_decode_cell_prefix(dt: DataType, c: Option<CellModel>, tail: Seq<u8>)
    requires
        c is Some ==> cell_fits(dt, c->0),
    ensures
        decode_cell(dt, compact_cell(dt, c) + tail) == Option::Some(
            (c, compact_cell(dt, c).len() as int),
        ),
{
    crate::hashing::lemma_pow256_values();
    let bytes = compact_cell(dt, c) + tail;
    match c {
        Option::None => {
            assert(bytes[0] == 0);
        },
        Option::Some(v) => {
            assert(bytes[0] == 1);
            match v {
                CellModel::Str(s) => {
                    let sb = vstd::utf8::encode_utf8(s);
                    let lenb = le_bytes(sb.len() as u64, 8);
                    lemma_le_bytes_len(sb.len() as u64, 8);
                    assert(bytes.subrange(1, 9) =~= lenb);
                    lemma_from_le_le_bytes_exact(sb.len() as u64, 8);
                    let slen = from_le(bytes.subrange(1, 9)) as int;
                    assert(slen == sb.len());
                    assert(bytes.subrange(9, 9 + slen) =~= sb);
                    vstd::utf8::encode_utf8_valid_utf8(s);
                    vstd::utf8::encode_utf8_decode_utf8(s);
                    assert(compact_cell(dt, c).len() == 9 + slen);
                },
                CellModel::Bool(b) => {
                    let vb = cell_bytes(dt, v);
                    assert(vb =~= seq![
                        if b {
                            1u8
                        } else {
                            0u8
                        }
                    ]);
                    assert(bytes.subrange(1, 2) =~= vb);
                    assert(vb.drop_first() =~= Seq::<u8>::empty());
                    assert(from_le(vb.drop_first()) == 0);
                    assert(from_le(vb) == vb[0]);
                },
                CellModel::Int(x) => {
                    let w = spec_byte_width(dt);
                    let p = pow256(w) as int;
                    let img = signed_image(x, w);
                    lemma_le_bytes_len(img, w);
                    assert(bytes.subrange(1, 1 + w as int) =~= cell_bytes(dt, v));
                    assert((img as nat) < pow256(w));
                    lemma_from_le_le_bytes_exact(img, w);
                    let u = from_le(cell_bytes(dt, v)) as int;
                    assert(u == img);
                    if x >= 0 {
                        assert(u < p / 2);
                        assert(u as i64 == x);
                    } else {
                        assert(u == p + x);
                        assert(u >= p / 2);
                        assert((u - p) as i64 == x);
                    }
                },
                CellModel::UInt(x) => {
                    let w = spec_byte_width(dt);
                    lemma_le_bytes_len(x, w);
                    assert(bytes.subrange(1, 1 + w as int) =~= cell_bytes(dt, v));
                    assert((x as nat) < pow256(w));
                    lemma_from_le_le_bytes_exact(x, w);
                },
            }
        },
    }
}

/// Encoding a well-formed row and decoding it under the same types
/// gives the row back.
pub proof fn lemma_decode_compact_row(dts: Seq<DataType>, cells: Seq<Option<CellModel>>)
    requires
        cells.len() == dts.len(),
        forall|k: int|
            0 <= k < cells.len() && cells[k] is Some ==> cell_fits(dts[k], (#[trigger] cells[k])->0),
    ensures
        decode_row(dts, compact_row(dts, cells)) == Option::Some(cells),
    decreases dts.len(),
{
    if dts.len() == 0 {
        assert(decode_row(dts, compact_row(dts, cells)) == Option::Some(Seq::<
            Option<CellModel>,
        >::empty()));
        assert(cells =~= Seq::<Option<CellModel>>::empty());
    } else {
        let head = compact_cell(dts[0], cells[0]);
        let rest = compact_row(dts.drop_first(), cells.drop_first());
        let bytes = compact_row(dts, cells);
        assert(bytes == head + rest);
        lemma_decode_cell_prefix(dts[0], cells[0], rest);
        assert(bytes.subrange(head.len() as int, bytes.len() as int) =~= rest);
        lemma_decode_compact_row(dts.drop_first(), cells.drop_first());
        assert(seq![cells[0]] + cells.drop_first() =~= cells);
    }
}

/// Two well-formed rows of the same schema encode to the same bytes
/// exactly when they hold the same cells: the compact key is a
/// faithful group identity.
pub proof fn lemma_compact_row_injective(
    dts: Seq<DataType>,
    cells1: Seq<Option<CellModel>>,
    cells2: Seq<Option<CellModel>>,
)
    requires
        cells1.len() == dts.len(),
        cells2.len() == dts.len(),
        forall|k: int|
            0 <= k < cells1.len() && cells1[k] is Some ==> cell_fits(
                dts[k],
                (#[trigger] cells1[k])->0,
            ),
        forall|k: int|
            0 <= k < cells2.len() && cells2[k] is Some ==> cell_fits(
                dts[k],
                (#[trigger] cells2[k])->0,
            ),
        compact_row(dts, cells1) == compact_row(dts, cells2),
    ensures
        cells1 == cells2,
{
    lemma_decode_compact_row(dts, cells1);
    lemma_decode_compact_row(dts, cells2);
}

/// The data types of a sequence of columns, in order.
pub open spec fn col_types(cols: Seq<Column>) -> Seq<DataType> {
    cols.map_values(|c: Column| c.data_type)
}

/// The cells of row `row` across the columns.
pub open spec fn row_cells(cols: Seq<Column>, row: int) -> Seq<Option<CellModel>> {
    Seq::new(cols.len(), |k: int| cols[k].cells()[row])
}

/// A row encoding extends at the back, one field at a time.
proof fn lemma_compact_row_snoc(dts: Seq<DataType>, cells: Seq<Option<CellModel>>)
    requires
        dts.len() > 0,
        cells.len() == dts.len(),
    ensures
        compact_row(dts, cells) == compact_row(dts.drop_last(), cells.drop_last()) + compact_cell(
            dts.last(),
            cells.last(),
        ),
    decreases dts.len(),
{
    if dts.len() == 1 {
        assert(dts.drop_first() =~= Seq::<DataType>::empty());
        assert(compact_row(dts.drop_first(), cells.drop_first()) =~= Seq::<u8>::empty());
        assert(dts.drop_last() =~= Seq::<DataType>::empty());
        assert(compact_row(dts.drop_last(), cells.drop_last()) =~= Seq::<u8>::empty());
        assert(compact_row(dts, cells) =~= compact_cell(dts[0], cells[0]));
        assert(compact_row(dts.drop_last(), cells.drop_last()) + compact_cell(
            dts.last(),
            cells.last(),
        ) =~= compact_cell(dts[0], cells[0]));
    } else {
        let dtl = dts.drop_first();
        let cll = cells.drop_first();
        lemma_compact_row_snoc(dtl, cll);
        assert(dtl.drop_last() =~= dts.drop_last().drop_first());
        assert(cll.drop_last() =~= cells.drop_last().drop_first());
        assert(compact_row(dts.drop_last(), cells.drop_last()) == compact_cell(dts[0], cells[0])
            + compact_row(dts.drop_last().drop_first(), cells.drop_last().drop_first()));
        assert((compact_cell(dts[0], cells[0]) + (compact_row(dtl.drop_last(), cll.drop_last())
            + compact_cell(dtl.last(), cll.last()))) =~= ((compact_cell(dts[0], cells[0])
            + compact_row(dtl.drop_last(), cll.drop_last())) + compact_cell(
            dtl.last(),
            cll.last(),
        )));
    }
}

/// Encodes row `row` of the given columns in the compact layout.
pub fn encode_compact(cols: &Vec<Column>, row: usize) -> (r: Vec<u8>)
    requires
        forall|k: int|
            0 <= k < cols@.len() ==> (#[trigger] cols@[k]).wf() && row < cols@[k].cells().len(),
    ensures
        r@ == compact_row(col_types(cols@), row_cells(cols@, row as int)),
{
    let n = cols.len();
    let mut out: Vec<u8> = Vec::new();
    let mut k: usize = 0;
    while k < n
        invariant
            k <= n,
            n == cols@.len(),
            forall|kk: int|
                0 <= kk < cols@.len() ==> (#[trigger] cols@[kk]).wf() && row < cols@[
                    kk
                ].cells().len(),
            out@ == compact_row(
                col_types(cols@).subrange(0, k as int),
                row_cells(cols@, row as int).subrange(0, k as int),
            ),
        decreases n - k,
    {
        let ghost dts_pre = col_types(cols@).subrange(0, k as int);
        let ghost cells_pre = row_cells(cols@, row as int).subrange(0, k as int);
        let col = &cols[k];
        match &col.values[row] {
            Option::None => {
                out.push(0u8);
            },
            Option::Some(c) => {
                proof {
                    assert(col.cells()[row as int] == Option::Some(c@));
                }
                out.push(1u8);
                if let CellValue::Str(s) = c {
                    let bs = s.as_str().as_bytes();
                    let blen = bs.len();
                    crate::hashing::push_le_bytes(&mut out, blen as u64, 8);
                }
                crate::hashing::push_cell_bytes(&mut out, col.data_type, c);
            },
        }
        proof {
            let dts_now = col_types(cols@).subrange(0, k + 1);
            let cells_now = row_cells(cols@, row as int).subrange(0, k + 1);
            lemma_compact_row_snoc(dts_now, cells_now);
            assert(dts_now.drop_last() =~= dts_pre);
            assert(cells_now.drop_last() =~= cells_pre);
            assert(out@ =~= compact_row(dts_pre, cells_pre) + compact_cell(
                col.data_type,
                col.cells()[row as int],
            ));
        }
        k = k + 1;
    }
    proof {
        assert(col_types(cols@).subrange(0, n as int) =~= col_types(cols@));
        assert(row_cells(cols@, row as int).subrange(0, n as int) =~= row_cells(
            cols@,
            row as int,
        ));
    }
    out
}

/// Encodes every row of the given columns: the group keys of a batch.
pub fn create_group_rows(cols: &Vec<Column>, num_rows: usize) -> (r: Vec<Vec<u8>>)
    requires
        forall|k: int|
            0 <= k < cols@.len() ==> (#[trigger] cols@[k]).wf() && cols@[k].cells().len()
                == num_rows,
    ensures
        r@.len() == num_rows,
        forall|i: int|
            0 <= i < num_rows ==> (#[trigger] r@[i])@ == compact_row(
                col_types(cols@),
                row_cells(cols@, i),
            ),
{
    let mut r: Vec<Vec<u8>> = Vec::new();
    let mut i: usize = 0;
    while i < num_rows
        invariant
            i <= num_rows,
            forall|k: int|
                0 <= k < cols@.len() ==> (#[trigger] cols@[k]).wf() && cols@[k].cells().len()
                    == num_rows,
            r@.len() == i,
            forall|j: int|
                0 <= j < i ==> (#[trigger] r@[j])@ == compact_row(
                    col_types(cols@),
                    row_cells(cols@, j),
                ),
        decreases num_rows - i,
    {
        let enc = encode_compact(cols, i);
        r.push(enc);
        i = i + 1;
    }
    r
}

/// The value of `n` bytes is below `pow256(n)`.
proof fn lemma_from_le_bound(s: Seq<u8>)
    ensures
        from_le(s) < pow256(s.len()),
    decreases s.len(),
{
    if s.len() > 0 {
        lemma_from_le_bound(s.drop_first());
    }
}

/// Reads `w` little-endian bytes starting at `start`.
pub(crate) fn read_le_u64(bytes: &Vec<u8>, start: usize, w: usize) -> (u: u64)
    requires
        start + w <= bytes@.len(),
        w <= 8,
    ensures
        u as nat == from_le(bytes@.subrange(start as int, start + w)),
{
    proof {
        crate::hashing::lemma_pow256_values();
    }
    let blen = bytes.len();
    let mut acc: u64 = 0;
    let mut j: usize = w;
    while j > 0
        invariant
            j <= w,
            w <= 8,
            blen == bytes@.len(),
            start + w <= blen,
            acc as nat == from_le(bytes@.subrange(start + j, start + w)),
            acc < pow256((w - j) as nat),
        decreases j,
    {
        proof {
            crate::hashing::lemma_pow256_values();
            crate::hashing::lemma_pow256_mono((w - j) as nat, 7);
        }
        j = j - 1;
        proof {
            assert(bytes@.subrange(start + j, start + w).drop_first() =~= bytes@.subrange(
                start + j + 1,
                start + w,
            ));
        }
        acc = 256 * acc + (bytes[start + j] as u64);
    }
    proof {
        assert(bytes@.subrange(start as int, start + w) == bytes@.subrange(
            start + 0,
            start + w,
        ));
    }
    acc
}

/// Relies on `String::from_utf8`: it returns the string made of the
/// given bytes exactly when they are valid UTF-8, and refuses them
/// otherwise.
#[verifier::external_body]
fn string_from_utf8(bytes: Vec<u8>) -> (r: Option<String>)
    ensures
        match r {
            Option::Some(s) => vstd::utf8::valid_utf8(bytes@) && s@ == vstd::utf8::decode_utf8(
                bytes@,
            ),
            Option::None => !vstd::utf8::valid_utf8(bytes@),
        },
{
    String::from_utf8(bytes).ok()
}

/// A decoded row has one cell per field.
pub proof fn lemma_decode_row_len(dts: Seq<DataType>, bytes: Seq<u8>)
    requires
        decode_row(dts, bytes) is Some,
    ensures
        decode_row(dts, bytes)->0.len() == dts.len(),
    decreases dts.len(),
{
    if dts.len() > 0 {
        let cu = decode_cell(dts[0], bytes)->0;
        let used = cu.1;
        lemma_decode_row_len(dts.drop_first(), bytes.subrange(used, bytes.len() as int));
    }
}

/// Every cell of a decoded row fits its declared type.
pub proof fn lemma_decode_row_fits(dts: Seq<DataType>, bytes: Seq<u8>)
    requires
        decode_row(dts, bytes) is Some,
        bytes.len() < 0x1_0000_0000_0000_0000,
    ensures
        forall|k: int|
            0 <= k < dts.len() && (#[trigger] decode_row(dts, bytes)->0[k]) is Some ==> cell_fits(
                dts[k],
                decode_row(dts, bytes)->0[k]->0,
            ),
    decreases dts.len(),
{
    crate::hashing::lemma_pow256_values();
    if dts.len() > 0 {
        let full = decode_row(dts, bytes)->0;
        let (c, used) = decode_cell(dts[0], bytes)->0;
        let tail = bytes.subrange(used, bytes.len() as int);
        lemma_decode_row_len(dts.drop_first(), tail);
        lemma_decode_row_fits(dts.drop_first(), tail);
        let rest = decode_row(dts.drop_first(), tail)->0;
        assert(full =~= seq![c] + rest);
        if c is Some {
            lemma_decode_cell_fits(dts[0], bytes);
        }
        assert forall|k: int| 1 <= k < dts.len() && (#[trigger] full[k]) is Some implies cell_fits(
            dts[k],
            full[k]->0,
        ) by {
            assert(full[k] == rest[k - 1]);
            assert(dts[k] == dts.drop_first()[k - 1]);
        }
    }
}

/// A non-null cell parsed from the front of a byte string fits its type.
proof fn lemma_decode_cell_fits(dt: DataType, bytes: Seq<u8>)
    requires
        decode_cell(dt, bytes) is Some,
        (decode_cell(dt, bytes)->0).0 is Some,
        bytes.len() < 0x1_0000_0000_0000_0000,
    ensures
        cell_fits(dt, (decode_cell(dt, bytes)->0).0->0),
{
    crate::hashing::lemma_pow256_values();
    if is_var_len(dt) {
        let slen = from_le(bytes.subrange(1, 9)) as int;
        let sbytes = bytes.subrange(9, 9 + slen);
        vstd::utf8::decode_utf8_encode_utf8(sbytes);
    } else {
        let w = spec_byte_width(dt) as int;
        let vb = bytes.subrange(1, 1 + w);
        lemma_from_le_bound(vb);
    }
}

/// Decodes one compact row. The engine only decodes rows it encoded,
/// so the bytes are required to parse under the given types.
pub fn decode_row_exec(dts: &Vec<DataType>, bytes: &Vec<u8>) -> (cells: Vec<Option<CellValue>>)
    requires
        decode_row(dts@, bytes@) is Some,
    ensures
        cells@.len() == dts@.len(),
        cell_models(cells@) == decode_row(dts@, bytes@)->0,
{
    let ghost full = decode_row(dts@, bytes@)->0;
    proof {
        lemma_decode_row_len(dts@, bytes@);
        crate::hashing::lemma_pow256_values();
    }
    let n = dts.len();
    let len = bytes.len();
    proof {
        assert(dts@.subrange(0, n as int) =~= dts@);
        assert(bytes@.subrange(0, len as int) =~= bytes@);
        assert(full.subrange(0, n as int) =~= full);
        assert(cell_models(Seq::<Option<CellValue>>::empty()) =~= full.subrange(0, 0));
    }
    let mut cells: Vec<Option<CellValue>> = Vec::new();
    let mut pos: usize = 0;
    let mut k: usize = 0;
    while k < n
        invariant
            k <= n,
            n == dts@.len(),
            len == bytes@.len(),
            pos <= len,
            full == decode_row(dts@, bytes@)->0,
            full.len() == n,
            decode_row(dts@.subrange(k as int, n as int), bytes@.subrange(pos as int, len as int))
                == Option::Some(full.subrange(k as int, n as int)),
            cells@.len() == k,
            cell_models(cells@) == full.subrange(0, k as int),
        decreases n - k,
    {
        let ghost sdts = dts@.subrange(k as int, n as int);
        let ghost sbytes = bytes@.subrange(pos as int, len as int);
        let ghost (scell, sused) = decode_cell(sdts[0], sbytes)->0;
        proof {
            crate::hashing::lemma_pow256_values();
            assert(decode_cell(sdts[0], sbytes) is Some);
            assert(sbytes.len() >= 1);
            assert(sbytes[0] == bytes@[pos as int]);
            assert(sdts[0] == dts@[k as int]);
        }
        let dt = dts[k];
        let tag = bytes[pos];
        let cellv: Option<CellValue>;
        let used: usize;
        if tag == 0 {
            cellv = Option::None;
            used = 1;
        } else {
            proof {
                assert(tag == 1);
            }
            if is_var_len_exec(dt) {
                proof {
                    assert(sbytes.len() >= 9);
                }
                let slen64 = read_le_u64(bytes, pos + 1, 8);
                proof {
                    assert(bytes@.subrange(pos + 1, pos + 9) =~= sbytes.subrange(1, 9));
                    assert(sbytes.len() >= 9 + slen64);
                }
                let slen = slen64 as usize;
                let mut sb: Vec<u8> = Vec::new();
                let mut j: usize = 0;
                while j < slen
                    invariant
                        j <= slen,
                        pos + 9 + slen <= len,
                        len == bytes@.len(),
                        sb@ == bytes@.subrange(pos + 9, pos + 9 + j),
                    decreases slen - j,
                {
                    sb.push(bytes[pos + 9 + j]);
                    proof {
                        assert(sb@ =~= bytes@.subrange(pos + 9, pos + 9 + j + 1));
                    }
                    j = j + 1;
                }
                proof {
                    assert(sb@ =~= sbytes.subrange(9, 9 + slen64 as int));
                    assert(vstd::utf8::valid_utf8(sb@));
                }
                let s = match string_from_utf8(sb) {
                    Option::Some(s) => s,
                    Option::None => vstd::pervasive::unreached(),
                };
                cellv = Option::Some(CellValue::Str(s));
                used = 9 + slen;
            } else {
                let w = crate::hashing::byte_width(dt);
                proof {
                    assert(sbytes.len() >= 1 + w);
                }
                let u = read_le_u64(bytes, pos + 1, w);
                proof {
                    assert(bytes@.subrange(pos + 1, pos + 1 + w as int) =~= sbytes.subrange(
                        1,
                        1 + w as int,
                    ));
                    lemma_from_le_bound(sbytes.subrange(1, 1 + w as int));
                }
                let cv: CellValue = match dt {
                    DataType::Boolean => CellValue::Bool(u != 0),
                    DataType::UInt8 => CellValue::UInt(u),
                    DataType::UInt16 => CellValue::UInt(u),
                    DataType::UInt32 => CellValue::UInt(u),
                    DataType::UInt64 => CellValue::UInt(u),
                    _ => {
                        let half = half_pow(dt);
                        if u < half {
                            CellValue::Int(u as i64)
                        } else if w == 8 {
                            let d = (u - half) as i64;
                            CellValue::Int(i64::MIN + d)
                        } else {
                            CellValue::Int((u as i64) - (half as i64) - (half as i64))
                        }
                    },
                };
                cellv = Option::Some(cv);
                used = 1 + w;
            }
        }
        proof {
            let cm = match &cellv {
                Option::None => Option::<CellModel>::None,
                Option::Some(v) => Option::Some(v@),
            };
            assert(decode_cell(sdts[0], sbytes) == Option::Some((cm, used as int)));
            assert(scell == cm);
            assert(sused == used as int);
            assert(sdts.drop_first() =~= dts@.subrange(k + 1, n as int));
            assert(sbytes.subrange(used as int, sbytes.len() as int) =~= bytes@.subrange(
                pos + used,
                len as int,
            ));
            assert(decode_row(sdts, sbytes) == Option::Some(full.subrange(k as int, n as int)));
            let rest = decode_row(
                sdts.drop_first(),
                sbytes.subrange(used as int, sbytes.len() as int),
            );
            assert(rest is Some);
            assert(seq![scell] + rest->0 == full.subrange(k as int, n as int));
            assert((seq![scell] + rest->0)[0] == scell);
            assert(full.subrange(k as int, n as int)[0] == full[k as int]);
            assert(rest->0 =~= full.subrange(k as int, n as int).drop_first());
            assert(full.subrange(k as int, n as int).drop_first() =~= full.subrange(
                k + 1,
                n as int,
            ));
            assert(full[k as int] == scell);
            assert(cell_models(cells@.push(cellv)) =~= full.subrange(0, k + 1));
        }
        cells.push(cellv);
        pos = pos + used;
        k = k + 1;
    }
    proof {
        assert(cell_models(cells@) =~= full);
    }
    cells
}

/// Whether values of the type have no fixed byte width.
fn is_var_len_exec(dt: DataType) -> (r: bool)
    ensures
        r == is_var_len(dt),
{
    match dt {
        DataType::Utf8 => true,
        DataType::LargeUtf8 => true,
        _ => false,
    }
}

/// Half of `pow256` of the type's width: the first value whose
/// two's-complement image is negative.
fn half_pow(dt: DataType) -> (h: u64)
    requires
        is_signed(dt) || dt is Boolean,
    ensures
        h == pow256(spec_byte_width(dt)) / 2,
{
    proof {
        crate::hashing::lemma_pow256_values();
    }
    match dt {
        DataType::Boolean => 0x80,
        DataType::Int8 => 0x80,
        DataType::Int16 => 0x8000,
        DataType::Int32 => 0x8000_0000,
        DataType::Date32 => 0x8000_0000,
        _ => 0x8000_0000_0000_0000,
    }
}

/// Inflates a batch of columns from a sequence of compact row byte
/// strings. The rows must all parse under the given types.
pub fn read_as_batch(rows: &Vec<Vec<u8>>, dts: &Vec<DataType>) -> (cols: Vec<Column>)
    requires
        forall|i: int| 0 <= i < rows@.len() ==> decode_row(dts@, (#[trigger] rows@[i])@) is Some,
    ensures
        cols@.len() == dts@.len(),
        forall|k: int|
            0 <= k < cols@.len() ==> (#[trigger] cols@[k]).data_type == dts@[k] && cols@[k].wf()
                && cols@[k].cells().len() == rows@.len(),
        forall|k: int, i: int|
            0 <= k < cols@.len() && 0 <= i < rows@.len() ==> #[trigger] cols@[k].cells()[i]
                == decode_row(dts@, rows@[i]@)->0[k],
{
    let nrows = rows.len();
    let ncols = dts.len();
    let mut rowcells: Vec<Vec<Option<CellValue>>> = Vec::new();
    let mut i: usize = 0;
    while i < nrows
        invariant
            i <= nrows,
            nrows == rows@.len(),
            ncols == dts@.len(),
            forall|ii: int|
                0 <= ii < rows@.len() ==> decode_row(dts@, (#[trigger] rows@[ii])@) is Some,
            rowcells@.len() == i,
            forall|ii: int|
                0 <= ii < i ==> (#[trigger] rowcells@[ii])@.len() == ncols && cell_models(
                    rowcells@[ii]@,
                ) == decode_row(dts@, rows@[ii]@)->0,
        decreases nrows - i,
    {
        let rc = decode_row_exec(dts, &rows[i]);
        rowcells.push(rc);
        i = i + 1;
    }
    let mut cols: Vec<Column> = Vec::new();
    let mut k: usize = 0;
    while k < ncols
        invariant
            k <= ncols,
            nrows == rows@.len(),
            ncols == dts@.len(),
            forall|ii: int|
                0 <= ii < rows@.len() ==> decode_row(dts@, (#[trigger] rows@[ii])@) is Some,
            rowcells@.len() == nrows,
            forall|ii: int|
                0 <= ii < nrows ==> (#[trigger] rowcells@[ii])@.len() == ncols && cell_models(
                    rowcells@[ii]@,
                ) == decode_row(dts@, rows@[ii]@)->0,
            cols@.len() == k,
            forall|kk: int|
                0 <= kk < k ==> (#[trigger] cols@[kk]).data_type == dts@[kk] && cols@[kk].wf()
                    && cols@[kk].cells().len() == nrows,
            forall|kk: int, ii: int|
                0 <= kk < k && 0 <= ii < nrows ==> #[trigger] cols@[kk].cells()[ii] == decode_row(
                    dts@,
                    rows@[ii]@,
                )->0[kk],
        decreases ncols - k,
    {
        let dt = dts[k];
        let mut vals: Vec<Option<CellValue>> = Vec::new();
        let mut i2: usize = 0;
        while i2 < nrows
            invariant
                i2 <= nrows,
                k < ncols,
                nrows == rows@.len(),
                ncols == dts@.len(),
                dt == dts@[k as int],
                forall|ii: int|
                    0 <= ii < rows@.len() ==> decode_row(dts@, (#[trigger] rows@[ii])@) is Some,
                rowcells@.len() == nrows,
                forall|ii: int|
                    0 <= ii < nrows ==> (#[trigger] rowcells@[ii])@.len() == ncols && cell_models(
                        rowcells@[ii]@,
                    ) == decode_row(dts@, rows@[ii]@)->0,
                vals@.len() == i2,
                forall|ii: int|
                    0 <= ii < i2 ==> cell_models(vals@)[ii] == decode_row(
                        dts@,
                        (#[trigger] rows@[ii])@,
                    )->0[k as int],
            decreases nrows - i2,
        {
            let c = crate::types::duplicate_cell(&rowcells[i2][k]);
            proof {
                assert(cell_models(rowcells@[i2 as int]@)[k as int] == decode_row(
                    dts@,
                    rows@[i2 as int]@,
                )->0[k as int]);
            }
            vals.push(c);
            i2 = i2 + 1;
        }
        let col = Column { data_type: dt, values: vals };
        proof {
            let l = rows@.len() as int;
            assert forall|ii: int| 0 <= ii < nrows implies col.cells()[ii] == decode_row(
                dts@,
                (#[trigger] rows@[ii])@,
            )->0[k as int] by {}
            assert forall|ii: int|
                0 <= ii < col.cells().len() && (#[trigger] col.cells()[ii]) is Some implies cell_fits(
                col.data_type,
                col.cells()[ii]->0,
            ) by {
                let rl = rows@[ii].len();
                assert(rows@[ii]@.len() <= usize::MAX);
                lemma_decode_row_len(dts@, rows@[ii]@);
                lemma_decode_row_fits(dts@, rows@[ii]@);
            }
        }
        cols.push(col);
        k = k + 1;
    }
    cols
}

} // verus!
