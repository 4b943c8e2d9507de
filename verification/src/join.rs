//! The hash equi-join operator: the build side is drained into a hash
//! index of row positions keyed by row hash alone, then probe batches
//! stream through it; hash collisions are resolved by column-wise
//! value equality, so the emitted pairs depend only on the values.

use std::collections::HashMap;

use vstd::prelude::*;

use crate::bucket::{bucket_get, bucket_len, bucket_new, bucket_push, bucket_rows, RowBucket};
use crate::hashing::row_hash;
use crate::types::{Batch, CellModel, CellValue, Column, ExecError};

verus! {

/// Two cells joining: both non-null and equal; a null never equals
/// anything, not even another null.
pub open spec fn cells_equal(a: Option<CellModel>, b: Option<CellModel>) -> bool {
    a is Some && b is Some && a->0 == b->0
}

/// Rows `i` and `j` agree on every join column.
pub open spec fn rows_match(lcols: Seq<Column>, i: int, rcols: Seq<Column>, j: int) -> bool {
    forall|k: int|
        0 <= k < lcols.len() ==> cells_equal(
            (#[trigger] lcols[k]).cells()[i],
            rcols[k].cells()[j],
        )
}

/// One non-null cell equals another exactly when their values agree.
fn cell_value_eq(a: &CellValue, b: &CellValue) -> (r: bool)
    ensures
        r == (a@ == b@),
{
    match (a, b) {
        (CellValue::Int(x), CellValue::Int(y)) => *x == *y,
        (CellValue::UInt(x), CellValue::UInt(y)) => *x == *y,
        (CellValue::Bool(x), CellValue::Bool(y)) => *x == *y,
        (CellValue::Str(x), CellValue::Str(y)) => x.eq(y),
        _ => false,
    }
}

/// Left and right row have equal values on all join columns.
pub fn equal_rows(left: usize, right: usize, left_arrays: &Vec<Column>, right_arrays: &Vec<
    Column,
>) -> (r: bool)
    requires
        left_arrays@.len() == right_arrays@.len(),
        forall|k: int|
            0 <= k < left_arrays@.len() ==> (left as int) < (#[trigger] left_arrays@[k]).cells().len()
                && (right as int) < right_arrays@[k].cells().len(),
    ensures
        r == rows_match(left_arrays@, left as int, right_arrays@, right as int),
{
    let n = left_arrays.len();
    let mut k: usize = 0;
    while k < n
        invariant
            k <= n,
            n == left_arrays@.len(),
            left_arrays@.len() == right_arrays@.len(),
            forall|kk: int|
                0 <= kk < left_arrays@.len() ==> (left as int) < (
                #[trigger] left_arrays@[kk]).cells().len() && (right as int)
                    < right_arrays@[kk].cells().len(),
            forall|kk: int|
                0 <= kk < k ==> cells_equal(
                    (#[trigger] left_arrays@[kk]).cells()[left as int],
                    right_arrays@[kk].cells()[right as int],
                ),
        decreases n - k,
    {
        let lcol = &left_arrays[k];
        let rcol = &right_arrays[k];
        let ok: bool = match (&lcol.values[left], &rcol.values[right]) {
            (Option::Some(a), Option::Some(b)) => cell_value_eq(a, b),
            _ => false,
        };
        if !ok {
            proof {
                assert(!cells_equal(
                    left_arrays@[k as int].cells()[left as int],
                    right_arrays@[k as int].cells()[right as int],
                ));
            }
            return false;
        }
        proof {
            assert(cells_equal(
                left_arrays@[k as int].cells()[left as int],
                right_arrays@[k as int].cells()[right as int],
            ));
        }
        k = k + 1;
    }
    true
}

/// Matching rows hash alike: the row hash reads only the cell values,
/// and matching rows carry the same non-null values under the same
/// column types. This is what makes pruning by hash bucket safe.
pub proof fn lemma_rows_match_equal_hash(
    lcols: Seq<Column>,
    i: int,
    rcols: Seq<Column>,
    j: int,
    seed: u64,
)
    requires
        lcols.len() == rcols.len(),
        forall|k: int| 0 <= k < lcols.len() ==> (#[trigger] lcols[k]).data_type == rcols[k].data_type,
        rows_match(lcols, i, rcols, j),
    ensures
        row_hash(lcols, i, seed) == row_hash(rcols, j, seed),
{
    assert forall|k: int| 0 <= k < lcols.len() implies (#[trigger] lcols[k]).cells()[i]
        == rcols[k].cells()[j] by {
        assert(cells_equal(lcols[k].cells()[i], rcols[k].cells()[j]));
    }
    crate::hashing::lemma_row_hash_from_cells(lcols, rcols, i, j, seed);
}

/// The build-side index: a map from a `u64` row hash to the bucket of
/// build rows carrying that hash. The hash is the whole key; equality
/// of the actual join values is checked at probe time.
pub struct JoinIndex {
    pub map: HashMap<u64, RowBucket>,
}

impl JoinIndex {
    /// The rows filed under hash `h`, in insertion order.
    pub open spec fn rows_of(&self, h: u64) -> Seq<u64> {
        if self.map@.contains_key(h) {
            bucket_rows(self.map@[h])
        } else {
            Seq::empty()
        }
    }

    /// An empty index.
    pub fn new() -> (r: JoinIndex)
        ensures
            forall|h: u64| #[trigger] r.rows_of(h) == Seq::<u64>::empty(),
    {
        let r = JoinIndex { map: HashMap::new() };
        proof {
            assert forall|h: u64| #[trigger] r.rows_of(h) == Seq::<u64>::empty() by {
                assert(!r.map@.contains_key(h));
            }
        }
        r
    }

    /// Files `row` under hash `h`, at the back of its bucket.
    pub fn insert_row(&mut self, h: u64, row: u64)
        ensures
            final(self).rows_of(h) == old(self).rows_of(h).push(row),
            forall|h2: u64| h2 != h ==> #[trigger] final(self).rows_of(h2) == old(self).rows_of(h2),
    {
        let ghost pre = self.map@;
        match self.map.remove(&h) {
            Option::Some(mut b) => {
                bucket_push(&mut b, row);
                self.map.insert(h, b);
            },
            Option::None => {
                let mut b = bucket_new();
                bucket_push(&mut b, row);
                self.map.insert(h, b);
            },
        }
        proof {
            assert(self.rows_of(h) =~= old(self).rows_of(h).push(row));
            assert forall|h2: u64| h2 != h implies #[trigger] self.rows_of(h2) == old(
                self,
            ).rows_of(h2) by {}
        }
    }

    /// The bucket under hash `h`, if any row carries it.
    pub fn lookup(&self, h: u64) -> (r: Option<&RowBucket>)
        ensures
            match r {
                Option::Some(b) => bucket_rows(*b) == self.rows_of(h),
                Option::None => self.rows_of(h) == Seq::<u64>::empty(),
            },
    {
        match self.map.get(&h) {
            Option::Some(b) => Option::Some(b),
            Option::None => Option::None,
        }
    }
}

/// The build rows among the first `n`, taken at absolute positions
/// `offset + r`, whose key-column hash is `h`, in row order.
pub open spec fn index_rows(
    cols: Seq<Column>,
    n: int,
    offset: int,
    seed: u64,
    h: u64,
) -> Seq<u64>
    decreases n,
{
    if n <= 0 {
        Seq::empty()
    } else {
        let prev = index_rows(cols, n - 1, offset, seed, h);
        if row_hash(cols, n - 1, seed) == h {
            prev.push((offset + n - 1) as u64)
        } else {
            prev
        }
    }
}

/// Hashes the `nrows` rows of the key columns and files each row's
/// absolute position under its hash.
pub fn update_hash_columns(
    key_cols: &Vec<Column>,
    nrows: usize,
    hash: &mut JoinIndex,
    offset: usize,
    seed: u64,
) -> (r: Result<(), ExecError>)
    requires
        forall|k: int|
            0 <= k < key_cols@.len() ==> (#[trigger] key_cols@[k]).wf() && key_cols@[k].cells().len()
                == nrows,
        offset + nrows <= usize::MAX,
    ensures
        r is Ok,
        forall|h: u64|
            #[trigger] final(hash).rows_of(h) == old(hash).rows_of(h) + index_rows(
                key_cols@,
                nrows as int,
                offset as int,
                seed,
                h,
            ),
{
    let mut hashes_buffer: Vec<u64> = Vec::new();
    let mut z: usize = 0;
    while z < nrows
        invariant
            z <= nrows,
            hashes_buffer@.len() == z,
            forall|i: int| 0 <= i < z ==> hashes_buffer@[i] == 0u64,
        decreases nrows - z,
    {
        hashes_buffer.push(0);
        z = z + 1;
    }
    let hr = crate::hashing::create_hashes(key_cols, seed, &mut hashes_buffer);
    proof {
        assert(hr is Ok);
    }
    let mut row: usize = 0;
    while row < nrows
        invariant
            row <= nrows,
            hashes_buffer@.len() == nrows,
            offset + nrows <= usize::MAX,
            forall|i: int|
                0 <= i < nrows ==> hashes_buffer@[i] == row_hash(key_cols@, i, seed),
            forall|h: u64|
                #[trigger] hash.rows_of(h) == old(hash).rows_of(h) + index_rows(
                    key_cols@,
                    row as int,
                    offset as int,
                    seed,
                    h,
                ),
        decreases nrows - row,
    {
        let h = hashes_buffer[row];
        let ghost before = *hash;
        hash.insert_row(h, (offset + row) as u64);
        proof {
            assert forall|h2: u64|
                #[trigger] hash.rows_of(h2) == old(hash).rows_of(h2) + index_rows(
                    key_cols@,
                    row + 1,
                    offset as int,
                    seed,
                    h2,
                ) by {
                if h2 == h {
                    assert(hash.rows_of(h2) == before.rows_of(h2).push((offset + row) as u64));
                    assert(index_rows(key_cols@, row + 1, offset as int, seed, h2) == index_rows(
                        key_cols@,
                        row as int,
                        offset as int,
                        seed,
                        h2,
                    ).push((offset + row) as u64));
                    assert(old(hash).rows_of(h2) + index_rows(
                        key_cols@,
                        row as int,
                        offset as int,
                        seed,
                        h2,
                    ).push((offset + row) as u64) =~= (old(hash).rows_of(h2) + index_rows(
                        key_cols@,
                        row as int,
                        offset as int,
                        seed,
                        h2,
                    )).push((offset + row) as u64));
                } else {
                    assert(index_rows(key_cols@, row + 1, offset as int, seed, h2) == index_rows(
                        key_cols@,
                        row as int,
                        offset as int,
                        seed,
                        h2,
                    ));
                }
            }
        }
        row = row + 1;
    }
    Ok(())
}

/// Strictly ascending row indices.
pub open spec fn sorted_strict(s: Seq<u64>) -> bool {
    forall|t1: int, t2: int| 0 <= t1 < t2 < s.len() ==> s[t1] < s[t2]
}

/// A usable index for probing: buckets hold valid build rows in
/// ascending order, and every build row can be found under its own
/// key hash. An index that files extra rows under a hash is still
/// sound: probing rejects them by value.
pub open spec fn index_sound(idx: JoinIndex, cols: Seq<Column>, nl: int, seed: u64) -> bool {
    &&& forall|h: u64| sorted_strict(#[trigger] idx.rows_of(h))
    &&& forall|h: u64, t: int|
        0 <= t < idx.rows_of(h).len() ==> ((#[trigger] idx.rows_of(h)[t]) as int) < nl
    &&& forall|r: int|
        0 <= r < nl ==> (#[trigger] idx.rows_of(row_hash(cols, r, seed))).contains(r as u64)
}

/// An index that holds exactly the first `nl` build rows, each under
/// its key hash: what the build phase constructs.
pub open spec fn index_complete(idx: JoinIndex, cols: Seq<Column>, nl: int, seed: u64) -> bool {
    forall|h: u64| #[trigger] idx.rows_of(h) == index_rows(cols, nl, 0, seed, h)
}

/// The rows `index_rows` lists are ascending, below `n`, and exactly
/// those whose key hash is `h`.
pub proof fn lemma_index_rows_props(cols: Seq<Column>, n: int, offset: int, seed: u64, h: u64)
    requires
        0 <= offset,
        n <= 0 || offset + n <= u64::MAX + 1,
    ensures
        sorted_strict(index_rows(cols, n, offset, seed, h)),
        forall|t: int|
            0 <= t < index_rows(cols, n, offset, seed, h).len()
                ==> offset <= ((#[trigger] index_rows(cols, n, offset, seed, h)[t]) as int) < offset
                + n,
        forall|r: int|
            0 <= r < n && offset + r <= u64::MAX ==> (index_rows(cols, n, offset, seed, h).contains(
                (offset + r) as u64,
            ) <==> row_hash(cols, r, seed) == h),
    decreases n,
{
    if n > 0 {
        lemma_index_rows_props(cols, n - 1, offset, seed, h);
        let prev = index_rows(cols, n - 1, offset, seed, h);
        let cur = index_rows(cols, n, offset, seed, h);
        if row_hash(cols, n - 1, seed) == h {
            assert(cur == prev.push((offset + n - 1) as u64));
            assert forall|t1: int, t2: int| 0 <= t1 < t2 < cur.len() implies cur[t1]
                < cur[t2] by {
                if t2 == cur.len() - 1 {
                    assert(cur[t1] == prev[t1]);
                    assert((prev[t1] as int) < offset + n - 1);
                    assert(cur[t2] == (offset + n - 1) as u64);
                }
            }
        }
        assert forall|r: int| 0 <= r < n && offset + r <= u64::MAX implies (cur.contains(
            (offset + r) as u64,
        ) <==> row_hash(cols, r, seed) == h) by {
            if row_hash(cols, n - 1, seed) == h {
                assert(cur == prev.push((offset + n - 1) as u64));
                if r < n - 1 {
                    assert(cur.contains((offset + r) as u64) <==> prev.contains(
                        (offset + r) as u64,
                    )) by {
                        if prev.contains((offset + r) as u64) {
                            let t = choose|t: int|
                                0 <= t < prev.len() && prev[t] == (offset + r) as u64;
                            assert(cur[t] == (offset + r) as u64);
                        }
                        if cur.contains((offset + r) as u64) {
                            let t = choose|t: int|
                                0 <= t < cur.len() && cur[t] == (offset + r) as u64;
                            if t < prev.len() {
                                assert(prev[t] == (offset + r) as u64);
                            } else {
                                assert(cur[t] == (offset + n - 1) as u64);
                                assert(offset + r == offset + n - 1);
                            }
                        }
                    }
                } else {
                    assert(cur[cur.len() - 1] == (offset + n - 1) as u64);
                }
            } else {
                assert(cur == prev);
                if r == n - 1 && cur.contains((offset + r) as u64) {
                    let t = choose|t: int| 0 <= t < cur.len() && cur[t] == (offset + r) as u64;
                    assert((cur[t] as int) < offset + n - 1);
                }
            }
        }
    }
}

/// A freshly built index is sound for probing.
pub proof fn lemma_index_complete_sound(idx: JoinIndex, cols: Seq<Column>, nl: int, seed: u64)
    requires
        index_complete(idx, cols, nl, seed),
        nl <= u64::MAX,
        0 <= nl,
    ensures
        index_sound(idx, cols, nl, seed),
{
    assert forall|h: u64| sorted_strict(#[trigger] idx.rows_of(h)) by {
        lemma_index_rows_props(cols, nl, 0, seed, h);
    }
    assert forall|h: u64, t: int| 0 <= t < idx.rows_of(h).len() implies ((#[trigger] idx.rows_of(
        h,
    )[t]) as int) < nl by {
        lemma_index_rows_props(cols, nl, 0, seed, h);
    }
    assert forall|r: int| 0 <= r < nl implies (#[trigger] idx.rows_of(
        row_hash(cols, r, seed),
    )).contains(r as u64) by {
        lemma_index_rows_props(cols, nl, 0, seed, row_hash(cols, r, seed));
    }
}

/// The build rows below `nl` whose values match probe row `j`, ascending.
pub open spec fn matched_rows(lcols: Seq<Column>, rcols: Seq<Column>, nl: int, j: int) -> Seq<u64>
    decreases nl,
{
    if nl <= 0 {
        Seq::empty()
    } else {
        let p = matched_rows(lcols, rcols, nl - 1, j);
        if rows_match(lcols, nl - 1, rcols, j) {
            p.push((nl - 1) as u64)
        } else {
            p
        }
    }
}

/// The members of a bucket whose values match probe row `j`, in
/// bucket order.
pub open spec fn filter_matched(bucket: Seq<u64>, lcols: Seq<Column>, rcols: Seq<Column>, j: int) -> Seq<
    u64,
>
    decreases bucket.len(),
{
    if bucket.len() == 0 {
        Seq::empty()
    } else {
        let p = filter_matched(bucket.drop_last(), lcols, rcols, j);
        if rows_match(lcols, bucket.last() as int, rcols, j) {
            p.push(bucket.last())
        } else {
            p
        }
    }
}

/// Filtering keeps order and membership-with-match.
proof fn lemma_filter_matched_props(bucket: Seq<u64>, lcols: Seq<Column>, rcols: Seq<Column>, j: int)
    requires
        sorted_strict(bucket),
    ensures
        sorted_strict(filter_matched(bucket, lcols, rcols, j)),
        forall|e: u64|
            filter_matched(bucket, lcols, rcols, j).contains(e) <==> (bucket.contains(e)
                && rows_match(lcols, e as int, rcols, j)),
    decreases bucket.len(),
{
    if bucket.len() > 0 {
        let pre = bucket.drop_last();
        assert(sorted_strict(pre));
        lemma_filter_matched_props(pre, lcols, rcols, j);
        let fp = filter_matched(pre, lcols, rcols, j);
        let f = filter_matched(bucket, lcols, rcols, j);
        assert forall|e: u64| pre.contains(e) implies e < bucket.last() && bucket.contains(e) by {
            let t = choose|t: int| 0 <= t < pre.len() && pre[t] == e;
            assert(bucket[t] == e);
        }
        assert forall|e: u64| bucket.contains(e) && e != bucket.last() implies pre.contains(e) by {
            let t = choose|t: int| 0 <= t < bucket.len() && bucket[t] == e;
            assert(t < bucket.len() - 1);
            assert(pre[t] == e);
        }
        assert(bucket.contains(bucket.last()));
        if rows_match(lcols, bucket.last() as int, rcols, j) {
            assert(f == fp.push(bucket.last()));
            assert forall|t1: int, t2: int| 0 <= t1 < t2 < f.len() implies f[t1] < f[t2] by {
                if t2 == f.len() - 1 {
                    assert(f[t1] == fp[t1]);
                    assert(fp.contains(fp[t1]));
                    assert(pre.contains(fp[t1]));
                    assert(fp[t1] < bucket.last());
                    assert(f[t2] == bucket.last());
                }
            }
            assert forall|e: u64| f.contains(e) implies (bucket.contains(e) && rows_match(
                lcols,
                e as int,
                rcols,
                j,
            )) by {
                let t = choose|t: int| 0 <= t < f.len() && f[t] == e;
                if t < f.len() - 1 {
                    assert(fp.contains(e));
                }
            }
            assert forall|e: u64| bucket.contains(e) && rows_match(lcols, e as int, rcols, j)
                implies f.contains(e) by {
                if e != bucket.last() {
                    assert(fp.contains(e));
                    let t = choose|t: int| 0 <= t < fp.len() && fp[t] == e;
                    assert(f[t] == e);
                } else {
                    assert(f[f.len() - 1] == e);
                }
            }
        } else {
            assert(f == fp);
            assert forall|e: u64| bucket.contains(e) && rows_match(lcols, e as int, rcols, j)
                implies f.contains(e) by {
                assert(e != bucket.last());
                assert(pre.contains(e));
            }
        }
    }
}

/// The matched rows are ascending, below `nl`, and exactly the
/// matching ones.
proof fn lemma_matched_rows_props(lcols: Seq<Column>, rcols: Seq<Column>, nl: int, j: int)
    requires
        nl <= u64::MAX,
    ensures
        sorted_strict(matched_rows(lcols, rcols, nl, j)),
        forall|t: int|
            0 <= t < matched_rows(lcols, rcols, nl, j).len() ==> ((#[trigger] matched_rows(
                lcols,
                rcols,
                nl,
                j,
            )[t]) as int) < nl,
        forall|e: u64|
            matched_rows(lcols, rcols, nl, j).contains(e) <==> ((e as int) < nl && rows_match(
                lcols,
                e as int,
                rcols,
                j,
            )),
    decreases nl,
{
    if nl > 0 {
        lemma_matched_rows_props(lcols, rcols, nl - 1, j);
        let p = matched_rows(lcols, rcols, nl - 1, j);
        let m = matched_rows(lcols, rcols, nl, j);
        assert forall|e: u64| m.contains(e) implies ((e as int) < nl && rows_match(
            lcols,
            e as int,
            rcols,
            j,
        )) by {
            let t = choose|t: int| 0 <= t < m.len() && m[t] == e;
            if t < p.len() {
                assert(p.contains(e));
            }
        }
        assert forall|e: u64| (e as int) < nl && rows_match(lcols, e as int, rcols, j) implies
            m.contains(e) by {
            if (e as int) < nl - 1 {
                assert(p.contains(e));
                let t = choose|t: int| 0 <= t < p.len() && p[t] == e;
                assert(m[t] == e);
            } else {
                assert(m[m.len() - 1] == e);
            }
        }
    }
}

/// Two strictly ascending sequences with the same members are equal.
proof fn lemma_sorted_same_members(s1: Seq<u64>, s2: Seq<u64>)
    requires
        sorted_strict(s1),
        sorted_strict(s2),
        forall|e: u64| s1.contains(e) <==> s2.contains(e),
    ensures
        s1 == s2,
    decreases s1.len(),
{
    if s1.len() == 0 {
        if s2.len() > 0 {
            assert(s2.contains(s2[0]));
            assert(false);
        }
        assert(s1 =~= s2);
    } else {
        assert(s1.contains(s1[0]));
        assert(s2.len() > 0) by {
            assert(s2.contains(s1[0]));
        }
        assert(s1[0] == s2[0]) by {
            assert(s2.contains(s1[0]));
            let t = choose|t: int| 0 <= t < s2.len() && s2[t] == s1[0];
            assert(s2[0] <= s2[t]);
            assert(s1.contains(s2[0]));
            let u = choose|u: int| 0 <= u < s1.len() && s1[u] == s2[0];
            assert(s1[0] <= s1[u]);
        }
        let t1 = s1.drop_first();
        let t2 = s2.drop_first();
        assert(sorted_strict(t1)) by {
            assert forall|a: int, b: int| 0 <= a < b < t1.len() implies t1[a] < t1[b] by {
                assert(t1[a] == s1[a + 1] && t1[b] == s1[b + 1]);
            }
        }
        assert(sorted_strict(t2)) by {
            assert forall|a: int, b: int| 0 <= a < b < t2.len() implies t2[a] < t2[b] by {
                assert(t2[a] == s2[a + 1] && t2[b] == s2[b + 1]);
            }
        }
        assert forall|e: u64| t1.contains(e) implies t2.contains(e) by {
            let t = choose|t: int| 0 <= t < t1.len() && t1[t] == e;
            assert(s1[t + 1] == e);
            assert(e > s1[0]);
            assert(s2.contains(e));
            let u = choose|u: int| 0 <= u < s2.len() && s2[u] == e;
            assert(u > 0);
            assert(t2[u - 1] == e);
        }
        assert forall|e: u64| t2.contains(e) implies t1.contains(e) by {
            let t = choose|t: int| 0 <= t < t2.len() && t2[t] == e;
            assert(s2[t + 1] == e);
            assert(e > s2[0]);
            assert(s1.contains(e));
            let u = choose|u: int| 0 <= u < s1.len() && s1[u] == e;
            assert(u > 0);
            assert(t1[u - 1] == e);
        }
        lemma_sorted_same_members(t1, t2);
        assert forall|i: int| 0 <= i < s1.len() implies s1[i] == s2[i] by {
            if i > 0 {
                assert(t1[i - 1] == s1[i]);
                assert(t2[i - 1] == s2[i]);
            }
        }
        assert(s1 =~= s2);
    }
}

/// Scanning a sound bucket and keeping the value matches yields
/// exactly the matching build rows, in ascending order: extra rows
/// that merely share the hash are rejected, and no matching row can
/// be missed, because a matching row always shares the hash.
proof fn lemma_bucket_filter_is_matched(
    idx: JoinIndex,
    lcols: Seq<Column>,
    rcols: Seq<Column>,
    nl: int,
    j: int,
    seed: u64,
)
    requires
        index_sound(idx, lcols, nl, seed),
        lcols.len() == rcols.len(),
        forall|k: int|
            0 <= k < lcols.len() ==> (#[trigger] lcols[k]).data_type == rcols[k].data_type,
        nl <= u64::MAX,
    ensures
        filter_matched(idx.rows_of(row_hash(rcols, j, seed)), lcols, rcols, j) == matched_rows(
            lcols,
            rcols,
            nl,
            j,
        ),
{
    let h = row_hash(rcols, j, seed);
    let bucket = idx.rows_of(h);
    lemma_filter_matched_props(bucket, lcols, rcols, j);
    lemma_matched_rows_props(lcols, rcols, nl, j);
    let f = filter_matched(bucket, lcols, rcols, j);
    let m = matched_rows(lcols, rcols, nl, j);
    assert forall|e: u64| f.contains(e) implies m.contains(e) by {
        assert(bucket.contains(e));
        let t = choose|t: int| 0 <= t < bucket.len() && bucket[t] == e;
        assert((bucket[t] as int) < nl);
    }
    assert forall|e: u64| m.contains(e) implies f.contains(e) by {
        assert((e as int) < nl && rows_match(lcols, e as int, rcols, j));
        lemma_rows_match_equal_hash(lcols, e as int, rcols, j, seed);
        assert(row_hash(lcols, e as int, seed) == h);
        assert(idx.rows_of(row_hash(lcols, e as int, seed)).contains(e));
    }
    lemma_sorted_same_members(f, m);
}

/// The build-side half of the inner-join pairs for the first `j`
/// probe rows: for each probe row in order, the matching build rows
/// ascending.
pub open spec fn inner_lefts(lcols: Seq<Column>, rcols: Seq<Column>, nl: int, j: int) -> Seq<
    Option<u64>,
>
    decreases j,
{
    if j <= 0 {
        Seq::empty()
    } else {
        inner_lefts(lcols, rcols, nl, j - 1) + matched_rows(lcols, rcols, nl, j - 1).map_values(
            |x: u64| Option::Some(x),
        )
    }
}

/// The probe-side half of the inner-join pairs for the first `j`
/// probe rows.
pub open spec fn inner_rights(lcols: Seq<Column>, rcols: Seq<Column>, nl: int, j: int) -> Seq<u32>
    decreases j,
{
    if j <= 0 {
        Seq::empty()
    } else {
        inner_rights(lcols, rcols, nl, j - 1) + Seq::new(
            matched_rows(lcols, rcols, nl, j - 1).len(),
            |t: int| (j - 1) as u32,
        )
    }
}

/// What one probe row contributes to the build side of a right or
/// full join: its value matches when it has any, else exactly one
/// null-padded row.
pub open spec fn rf_row_lefts(lcols: Seq<Column>, rcols: Seq<Column>, nl: int, j: int) -> Seq<
    Option<u64>,
> {
    let m = matched_rows(lcols, rcols, nl, j);
    if m.len() == 0 {
        seq![Option::<u64>::None]
    } else {
        m.map_values(|x: u64| Option::Some(x))
    }
}

/// How many output rows one probe row contributes.
pub open spec fn rf_row_len(lcols: Seq<Column>, rcols: Seq<Column>, nl: int, j: int) -> int {
    let m = matched_rows(lcols, rcols, nl, j);
    if m.len() == 0 {
        1
    } else {
        m.len() as int
    }
}

/// The build-side half of a right or full join for the first `j`
/// probe rows.
pub open spec fn rf_lefts(lcols: Seq<Column>, rcols: Seq<Column>, nl: int, j: int) -> Seq<
    Option<u64>,
>
    decreases j,
{
    if j <= 0 {
        Seq::empty()
    } else {
        rf_lefts(lcols, rcols, nl, j - 1) + rf_row_lefts(lcols, rcols, nl, j - 1)
    }
}

/// The probe-side half of a right or full join for the first `j`
/// probe rows.
pub open spec fn rf_rights(lcols: Seq<Column>, rcols: Seq<Column>, nl: int, j: int) -> Seq<u32>
    decreases j,
{
    if j <= 0 {
        Seq::empty()
    } else {
        rf_rights(lcols, rcols, nl, j - 1) + Seq::new(
            rf_row_len(lcols, rcols, nl, j - 1) as nat,
            |t: int| (j - 1) as u32,
        )
    }
}

/// Returns the joined row pairs for one probe batch, as parallel
/// vectors of build-side and probe-side row positions: a null
/// build-side entry pads the probe row with nulls. For `Inner` and
/// `Left` the pairs are exactly the value matches; for `Right` and
/// `Full` a probe row additionally contributes exactly one
/// null-padded row when nothing matches its values. Either way the
/// output depends only on the column values, not on how the index
/// bucketed the rows.
pub fn build_join_indexes_columns(
    index: &JoinIndex,
    left_cols: &Vec<Column>,
    right_cols: &Vec<Column>,
    nl: usize,
    nr: usize,
    join_type: crate::types::JoinType,
    seed: u64,
) -> (r: (Vec<Option<u64>>, Vec<u32>))
    requires
        left_cols@.len() == right_cols@.len(),
        forall|k: int|
            0 <= k < left_cols@.len() ==> (#[trigger] left_cols@[k]).wf() && left_cols@[
                k
            ].cells().len() == nl && left_cols@[k].data_type == right_cols@[k].data_type,
        forall|k: int|
            0 <= k < right_cols@.len() ==> (#[trigger] right_cols@[k]).wf() && right_cols@[
                k
            ].cells().len() == nr,
        nr <= u32::MAX,
        nl <= u64::MAX,
        index_sound(*index, left_cols@, nl as int, seed),
    ensures
        r.0@.len() == r.1@.len(),
        (join_type is Inner || join_type is Left) ==> r.0@ == inner_lefts(
            left_cols@,
            right_cols@,
            nl as int,
            nr as int,
        ) && r.1@ == inner_rights(left_cols@, right_cols@, nl as int, nr as int),
        (join_type is Right || join_type is Full) ==> r.0@ == rf_lefts(
            left_cols@,
            right_cols@,
            nl as int,
            nr as int,
        ) && r.1@ == rf_rights(left_cols@, right_cols@, nl as int, nr as int),
        forall|t: int|
            0 <= t < r.0@.len() && (#[trigger] r.0@[t]) is Some ==> ((r.0@[t]->0) as int) < nl,
        forall|t: int| 0 <= t < r.1@.len() ==> ((#[trigger] r.1@[t]) as int) < nr,
{
    let mut hashes_buffer: Vec<u64> = Vec::new();
    let mut z: usize = 0;
    while z < nr
        invariant
            z <= nr,
            hashes_buffer@.len() == z,
            forall|i: int| 0 <= i < z ==> hashes_buffer@[i] == 0u64,
        decreases nr - z,
    {
        hashes_buffer.push(0);
        z = z + 1;
    }
    let hr = crate::hashing::create_hashes(right_cols, seed, &mut hashes_buffer);
    proof {
        assert(hr is Ok);
    }
    let mut left_out: Vec<Option<u64>> = Vec::new();
    let mut right_out: Vec<u32> = Vec::new();
    let inner_like = match join_type {
        crate::types::JoinType::Inner => true,
        crate::types::JoinType::Left => true,
        crate::types::JoinType::Right => false,
        crate::types::JoinType::Full => false,
    };
    let mut j: usize = 0;
    while j < nr
        invariant
            j <= nr,
            nr <= u32::MAX,
            nl <= u64::MAX,
            hashes_buffer@.len() == nr,
            forall|i: int| 0 <= i < nr ==> hashes_buffer@[i] == row_hash(right_cols@, i, seed),
            left_cols@.len() == right_cols@.len(),
            forall|k: int|
                0 <= k < left_cols@.len() ==> (#[trigger] left_cols@[k]).wf() && left_cols@[
                    k
                ].cells().len() == nl && left_cols@[k].data_type == right_cols@[k].data_type,
            forall|k: int|
                0 <= k < right_cols@.len() ==> (#[trigger] right_cols@[k]).wf() && right_cols@[
                    k
                ].cells().len() == nr,
            index_sound(*index, left_cols@, nl as int, seed),
            inner_like == (join_type is Inner || join_type is Left),
            left_out@.len() == right_out@.len(),
            inner_like ==> left_out@ == inner_lefts(left_cols@, right_cols@, nl as int, j as int)
                && right_out@ == inner_rights(left_cols@, right_cols@, nl as int, j as int),
            !inner_like ==> left_out@ == rf_lefts(left_cols@, right_cols@, nl as int, j as int)
                && right_out@ == rf_rights(left_cols@, right_cols@, nl as int, j as int),
            forall|t: int|
                0 <= t < left_out@.len() && (#[trigger] left_out@[t]) is Some ==> ((left_out@[t]->0)
                    as int) < nl,
            forall|t: int| 0 <= t < right_out@.len() ==> ((#[trigger] right_out@[t]) as int) < nr,
        decreases nr - j,
    {
        let h = hashes_buffer[j];
        let ghost bucket_spec = index.rows_of(h);
        let ghost pre_left = left_out@;
        let ghost pre_right = right_out@;
        let ghost fm = filter_matched(bucket_spec, left_cols@, right_cols@, j as int);
        proof {
            lemma_bucket_filter_is_matched(
                *index,
                left_cols@,
                right_cols@,
                nl as int,
                j as int,
                seed,
            );
        }
        // collect the value matches of this probe row, in build order
        let mut matched_any = false;
        match index.lookup(h) {
            Option::None => {
                proof {
                    assert(bucket_spec =~= Seq::<u64>::empty());
                    assert(filter_matched(bucket_spec, left_cols@, right_cols@, j as int)
                        =~= Seq::<u64>::empty());
                }
            },
            Option::Some(bucket) => {
                let bl = bucket_len(bucket);
                proof {
                    assert(bucket_spec.subrange(0, 0) =~= Seq::<u64>::empty());
                    assert(filter_matched(
                        bucket_spec.subrange(0, 0),
                        left_cols@,
                        right_cols@,
                        j as int,
                    ) == Seq::<u64>::empty());
                    assert(pre_left + Seq::<u64>::empty().map_values(|x: u64| Option::Some(x))
                        =~= pre_left);
                    assert(pre_right + Seq::new(0, |q: int| j as u32) =~= pre_right);
                }
                let mut t: usize = 0;
                while t < bl
                    invariant
                        t <= bl,
                        j < nr,
                        nr <= u32::MAX,
                        nl <= u64::MAX,
                        bl == bucket_rows(*bucket).len(),
                        bucket_rows(*bucket) == bucket_spec,
                        bucket_spec == index.rows_of(row_hash(right_cols@, j as int, seed)),
                        left_cols@.len() == right_cols@.len(),
                        forall|k: int|
                            0 <= k < left_cols@.len() ==> (#[trigger] left_cols@[k]).wf()
                                && left_cols@[k].cells().len() == nl && left_cols@[k].data_type
                                == right_cols@[k].data_type,
                        forall|k: int|
                            0 <= k < right_cols@.len() ==> (#[trigger] right_cols@[k]).wf()
                                && right_cols@[k].cells().len() == nr,
                        index_sound(*index, left_cols@, nl as int, seed),
                        left_out@.len() == right_out@.len(),
                        left_out@ == pre_left + filter_matched(
                            bucket_spec.subrange(0, t as int),
                            left_cols@,
                            right_cols@,
                            j as int,
                        ).map_values(|x: u64| Option::Some(x)),
                        right_out@ == pre_right + Seq::new(
                            filter_matched(
                                bucket_spec.subrange(0, t as int),
                                left_cols@,
                                right_cols@,
                                j as int,
                            ).len(),
                            |q: int| j as u32,
                        ),
                        matched_any == (filter_matched(
                            bucket_spec.subrange(0, t as int),
                            left_cols@,
                            right_cols@,
                            j as int,
                        ).len() > 0),
                        forall|tt: int|
                            0 <= tt < left_out@.len() && (#[trigger] left_out@[tt]) is Some ==> ((
                            left_out@[tt]->0) as int) < nl,
                        forall|tt: int|
                            0 <= tt < right_out@.len() ==> ((#[trigger] right_out@[tt]) as int) < nr,
                    decreases bl - t,
                {
                    let i = bucket_get(bucket, t);
                    proof {
                        assert(bucket_spec[t as int] == i);
                        assert((i as int) < nl);
                        assert(bucket_spec.subrange(0, t + 1).drop_last() =~= bucket_spec.subrange(
                            0,
                            t as int,
                        ));
                        assert(bucket_spec.subrange(0, t + 1).last() == i);
                    }
                    let is_match = equal_rows(i as usize, j, left_cols, right_cols);
                    if is_match {
                        left_out.push(Option::Some(i));
                        right_out.push(j as u32);
                        matched_any = true;
                    }
                    proof {
                        let sub1 = bucket_spec.subrange(0, t + 1);
                        let f0 = filter_matched(
                            bucket_spec.subrange(0, t as int),
                            left_cols@,
                            right_cols@,
                            j as int,
                        );
                        let f1 = filter_matched(sub1, left_cols@, right_cols@, j as int);
                        if is_match {
                            assert(f1 == f0.push(i));
                            assert(left_out@ =~= pre_left + f1.map_values(
                                |x: u64| Option::Some(x),
                            ));
                            assert(right_out@ =~= pre_right + Seq::new(
                                f1.len(),
                                |q: int| j as u32,
                            ));
                        } else {
                            assert(f1 == f0);
                        }
                    }
                    t = t + 1;
                }
                proof {
                    assert(bucket_spec.subrange(0, bl as int) =~= bucket_spec);
                }
            },
        }
        // a right or full join pads an unmatched probe row with nulls
        if !inner_like && !matched_any {
            left_out.push(Option::None);
            right_out.push(j as u32);
        }
        proof {
            let m = matched_rows(left_cols@, right_cols@, nl as int, j as int);
            assert(fm == m);
            if inner_like {
                assert(left_out@ =~= inner_lefts(left_cols@, right_cols@, nl as int, j + 1));
                assert(right_out@ =~= inner_rights(left_cols@, right_cols@, nl as int, j + 1));
            } else {
                if m.len() == 0 {
                    assert(pre_left + m.map_values(|x: u64| Option::Some(x)) =~= pre_left);
                    assert(pre_right + Seq::new(m.len(), |q: int| j as u32) =~= pre_right);
                    assert(rf_row_lefts(left_cols@, right_cols@, nl as int, j as int) =~= seq![
                        Option::<u64>::None
                    ]);
                    assert(left_out@ =~= pre_left + rf_row_lefts(
                        left_cols@,
                        right_cols@,
                        nl as int,
                        j as int,
                    ));
                    assert(right_out@ =~= pre_right + Seq::new(
                        rf_row_len(left_cols@, right_cols@, nl as int, j as int) as nat,
                        |q: int| j as u32,
                    ));
                } else {
                    assert(rf_row_lefts(left_cols@, right_cols@, nl as int, j as int)
                        == m.map_values(|x: u64| Option::Some(x)));
                    assert(rf_row_len(left_cols@, right_cols@, nl as int, j as int) == m.len());
                }
                assert(left_out@ =~= rf_lefts(left_cols@, right_cols@, nl as int, j + 1));
                assert(right_out@ =~= rf_rights(left_cols@, right_cols@, nl as int, j + 1));
            }
        }
        j = j + 1;
    }
    (left_out, right_out)
}

/// No field of the schema carries the given name.
pub open spec fn no_field_named(fields: Seq<crate::types::Field>, nm: Seq<char>) -> bool {
    forall|j: int| 0 <= j < fields.len() ==> (#[trigger] fields[j]).name@ != nm
}

/// Some requested name is carried by no field.
pub open spec fn name_missing(fields: Seq<crate::types::Field>, names: Seq<String>) -> bool {
    exists|k: int| 0 <= k < names.len() && no_field_named(fields, (#[trigger] names[k])@)
}

/// Whether `idxs` resolves each name to the first field carrying it.
pub open spec fn resolve_ok(fields: Seq<crate::types::Field>, names: Seq<String>, idxs: Seq<usize>) -> bool {
    &&& idxs.len() == names.len()
    &&& forall|k: int|
        0 <= k < names.len() ==> ((#[trigger] idxs[k]) as int) < fields.len() && fields[idxs[k] as int].name@
            == names[k]@ && (forall|j: int| 0 <= j < idxs[k] as int ==> fields[j].name@ != names[k]@)
}

/// The columns a resolution selects out of a batch.
pub open spec fn selected_cols(batch: Batch, idxs: Seq<usize>) -> Seq<Column> {
    idxs.map_values(|i: usize| batch.columns@[i as int])
}

/// Resolution is a function of the schema and the names.
pub proof fn lemma_resolve_unique(
    fields: Seq<crate::types::Field>,
    names: Seq<String>,
    i1: Seq<usize>,
    i2: Seq<usize>,
)
    requires
        resolve_ok(fields, names, i1),
        resolve_ok(fields, names, i2),
    ensures
        i1 == i2,
{
    assert forall|k: int| 0 <= k < names.len() implies i1[k] == i2[k] by {
        if (i1[k] as int) < (i2[k] as int) {
            assert(fields[i1[k] as int].name@ != names[k]@);
        }
        if (i2[k] as int) < (i1[k] as int) {
            assert(fields[i2[k] as int].name@ != names[k]@);
        }
    }
    assert(i1 =~= i2);
}

/// Finds each name's first field, or reports the internal error of a
/// join column that exists in no field.
pub fn resolve_on_indices(schema: &crate::types::Schema, names: &Vec<String>) -> (r: Result<
    Vec<usize>,
    ExecError,
>)
    ensures
        match r {
            Result::Ok(idxs) => resolve_ok(schema.fields@, names@, idxs@),
            Result::Err(e) => e is Internal && name_missing(schema.fields@, names@),
        },
{
    let n = names.len();
    let mut idxs: Vec<usize> = Vec::new();
    let mut k: usize = 0;
    while k < n
        invariant
            k <= n,
            n == names@.len(),
            idxs@.len() == k,
            forall|kk: int|
                0 <= kk < k ==> ((#[trigger] idxs@[kk]) as int) < schema.fields@.len()
                    && schema.fields@[idxs@[kk] as int].name@ == names@[kk]@ && (forall|j: int|
                    0 <= j < idxs@[kk] as int ==> schema.fields@[j].name@ != names@[kk]@),
        decreases n - k,
    {
        match schema.index_of(&names[k]) {
            Option::Some(i) => {
                idxs.push(i);
            },
            Option::None => {
                proof {
                    assert(no_field_named(schema.fields@, names@[k as int]@));
                }
                return Result::Err(ExecError::Internal);
            },
        }
        k = k + 1;
    }
    Result::Ok(idxs)
}

/// Copies the resolved key columns out of a batch.
pub fn select_columns(batch: &Batch, idxs: &Vec<usize>) -> (r: Vec<Column>)
    requires
        batch.wf(),
        forall|k: int| 0 <= k < idxs@.len() ==> ((#[trigger] idxs@[k]) as int) < batch.columns@.len(),
    ensures
        r@.len() == idxs@.len(),
        forall|k: int|
            0 <= k < idxs@.len() ==> (#[trigger] r@[k]).data_type == batch.columns@[idxs@[k] as int].data_type
                && r@[k].cells() == batch.columns@[idxs@[k] as int].cells() && r@[k].wf()
                && r@[k].cells().len() == batch.num_rows,
{
    let n = idxs.len();
    let mut r: Vec<Column> = Vec::new();
    let mut k: usize = 0;
    while k < n
        invariant
            k <= n,
            n == idxs@.len(),
            batch.wf(),
            forall|kk: int|
                0 <= kk < idxs@.len() ==> ((#[trigger] idxs@[kk]) as int) < batch.columns@.len(),
            r@.len() == k,
            forall|kk: int|
                0 <= kk < k ==> (#[trigger] r@[kk]).data_type == batch.columns@[idxs@[kk] as int].data_type
                    && r@[kk].cells() == batch.columns@[idxs@[kk] as int].cells() && r@[kk].wf()
                    && r@[kk].cells().len() == batch.num_rows,
        decreases n - k,
    {
        let c = crate::columns::duplicate_column(&batch.columns[idxs[k]]);
        r.push(c);
        k = k + 1;
    }
    r
}

/// Row hashes read only data types and cells, so any two column
/// sequences agreeing on both index alike.
pub proof fn lemma_index_rows_congruent(
    cols1: Seq<Column>,
    cols2: Seq<Column>,
    n: int,
    offset: int,
    seed: u64,
    h: u64,
)
    requires
        cols1.len() == cols2.len(),
        forall|k: int|
            0 <= k < cols1.len() ==> (#[trigger] cols1[k]).data_type == cols2[k].data_type
                && cols1[k].cells() == cols2[k].cells(),
    ensures
        index_rows(cols1, n, offset, seed, h) == index_rows(cols2, n, offset, seed, h),
    decreases n,
{
    if n > 0 {
        lemma_index_rows_congruent(cols1, cols2, n - 1, offset, seed, h);
        crate::hashing::lemma_row_hash_from_cells(cols1, cols2, n - 1, n - 1, seed);
    }
}

/// Information about the index and placement (left or right) of the
/// columns of the join output.
pub struct ColumnIndex {
    /// Index of the column in its input side.
    pub index: usize,
    /// Whether the column is at the left or right side.
    pub is_left: bool,
}

/// The build side of a join, ready for probing: the row index and the
/// single concatenated build batch it points into.
pub struct JoinLeftData {
    pub index: JoinIndex,
    pub batch: Batch,
}

/// The cell of the joined output at column `c`, output row `t`.
pub open spec fn joined_cell(
    lbatch: Batch,
    rbatch: Batch,
    colidx: Seq<ColumnIndex>,
    lidx: Seq<Option<u64>>,
    ridx: Seq<u32>,
    c: int,
    t: int,
) -> Option<CellModel> {
    if colidx[c].is_left {
        match lidx[t] {
            Option::None => Option::<CellModel>::None,
            Option::Some(i) => lbatch.columns@[colidx[c].index as int].cells()[i as int],
        }
    } else {
        rbatch.columns@[colidx[c].index as int].cells()[ridx[t] as int]
    }
}

/// Returns a new batch by combining the `left` and `right` rows named
/// by the index pair, arranging columns as `column_indices` says. A
/// null left index fills the build-side columns of that row with
/// nulls.
pub fn build_batch_from_indices(
    schema: &crate::types::Schema,
    left: &Batch,
    right: &Batch,
    left_indices: &Vec<Option<u64>>,
    right_indices: &Vec<u32>,
    column_indices: &Vec<ColumnIndex>,
) -> (r: Batch)
    requires
        left.wf(),
        right.wf(),
        left_indices@.len() == right_indices@.len(),
        column_indices@.len() == schema.fields@.len(),
        forall|c: int|
            0 <= c < column_indices@.len() ==> {
                let ci = #[trigger] column_indices@[c];
                if ci.is_left {
                    (ci.index as int) < left.columns@.len() && left.columns@[ci.index as int].data_type
                        == schema.fields@[c].data_type
                } else {
                    (ci.index as int) < right.columns@.len() && right.columns@[ci.index as int].data_type
                        == schema.fields@[c].data_type
                }
            },
        forall|t: int|
            0 <= t < left_indices@.len() && (#[trigger] left_indices@[t]) is Some ==> (
            left_indices@[t]->0 as int) < left.num_rows,
        forall|t: int|
            0 <= t < right_indices@.len() ==> ((#[trigger] right_indices@[t]) as int)
                < right.num_rows,
    ensures
        r.wf(),
        r.schema.fields@ == schema.fields@,
        r.num_rows == left_indices@.len(),
        r.columns@.len() == schema.fields@.len(),
        forall|c: int, t: int|
            0 <= c < r.columns@.len() && 0 <= t < r.num_rows ==> (#[trigger] r.columns@[c].cells()[t])
                == joined_cell(*left, *right, column_indices@, left_indices@, right_indices@, c, t),
{
    let ncols = column_indices.len();
    let nrows = left_indices.len();
    let mut cols: Vec<Column> = Vec::new();
    let mut c: usize = 0;
    while c < ncols
        invariant
            c <= ncols,
            ncols == column_indices@.len(),
            ncols == schema.fields@.len(),
            nrows == left_indices@.len(),
            left_indices@.len() == right_indices@.len(),
            left.wf(),
            right.wf(),
            forall|cc: int|
                0 <= cc < column_indices@.len() ==> {
                    let ci = #[trigger] column_indices@[cc];
                    if ci.is_left {
                        (ci.index as int) < left.columns@.len() && left.columns@[ci.index as int].data_type
                            == schema.fields@[cc].data_type
                    } else {
                        (ci.index as int) < right.columns@.len() && right.columns@[ci.index as int].data_type
                            == schema.fields@[cc].data_type
                    }
                },
            forall|t: int|
                0 <= t < left_indices@.len() && (#[trigger] left_indices@[t]) is Some ==> (
                left_indices@[t]->0 as int) < left.num_rows,
            forall|t: int|
                0 <= t < right_indices@.len() ==> ((#[trigger] right_indices@[t]) as int)
                    < right.num_rows,
            cols@.len() == c,
            forall|cc: int|
                0 <= cc < c ==> (#[trigger] cols@[cc]).data_type == schema.fields@[cc].data_type
                    && cols@[cc].wf() && cols@[cc].cells().len() == nrows,
            forall|cc: int, t: int|
                0 <= cc < c && 0 <= t < nrows ==> (#[trigger] cols@[cc].cells()[t]) == joined_cell(
                    *left,
                    *right,
                    column_indices@,
                    left_indices@,
                    right_indices@,
                    cc,
                    t,
                ),
        decreases ncols - c,
    {
        let ci = &column_indices[c];
        let col: Column = if ci.is_left {
            crate::columns::take_nullable(&left.columns[ci.index], left_indices)
        } else {
            crate::columns::take_indexed(&right.columns[ci.index], right_indices)
        };
        cols.push(col);
        c = c + 1;
    }
    Batch {
        schema: crate::types::Schema { fields: crate::columns::schema_fields_copy(schema) },
        columns: cols,
        num_rows: nrows,
    }
}

/// The build rows not yet visited, ascending.
pub open spec fn unmatched_rows(visited: Seq<bool>, n: int) -> Seq<u64>
    decreases n,
{
    if n <= 0 {
        Seq::empty()
    } else {
        let p = unmatched_rows(visited, n - 1);
        if !visited[n - 1] {
            p.push((n - 1) as u64)
        } else {
            p
        }
    }
}

/// The unmatched rows are valid build rows.
pub proof fn lemma_unmatched_rows_bounds(visited: Seq<bool>, n: int)
    requires
        0 <= n <= u64::MAX,
    ensures
        forall|t: int|
            0 <= t < unmatched_rows(visited, n).len() ==> ((#[trigger] unmatched_rows(
                visited,
                n,
            )[t]) as int) < n,
    decreases n,
{
    if n > 0 {
        lemma_unmatched_rows_bounds(visited, n - 1);
        let p = unmatched_rows(visited, n - 1);
        let cur = unmatched_rows(visited, n);
        assert forall|t: int| 0 <= t < cur.len() implies ((cur[t]) as int) < n by {
            if t < p.len() {
                assert(cur[t] == p[t]);
            } else {
                assert(!visited[n - 1] && cur[t] == (n - 1) as u64);
            }
        }
    }
}

/// Produces the final batch of a left or full join: the build rows
/// never visited during probing, with every probe-side column null.
pub fn produce_unmatched(
    visited_left_side: &Vec<bool>,
    schema: &crate::types::Schema,
    column_indices: &Vec<ColumnIndex>,
    left_data: &JoinLeftData,
) -> (r: Batch)
    requires
        left_data.batch.wf(),
        visited_left_side@.len() == left_data.batch.num_rows,
        column_indices@.len() == schema.fields@.len(),
        forall|c: int|
            0 <= c < column_indices@.len() && (#[trigger] column_indices@[c]).is_left ==> (
            column_indices@[c].index as int) < left_data.batch.columns@.len()
                && left_data.batch.columns@[column_indices@[c].index as int].data_type
                == schema.fields@[c].data_type,
    ensures
        r.wf(),
        r.schema.fields@ == schema.fields@,
        r.columns@.len() == schema.fields@.len(),
        r.num_rows == unmatched_rows(visited_left_side@, visited_left_side@.len() as int).len(),
        forall|c: int, t: int|
            0 <= c < r.columns@.len() && 0 <= t < r.num_rows ==> (#[trigger] r.columns@[c].cells()[t])
                == (if column_indices@[c].is_left {
                left_data.batch.columns@[column_indices@[c].index as int].cells()[unmatched_rows(
                    visited_left_side@,
                    visited_left_side@.len() as int,
                )[t] as int]
            } else {
                Option::<CellModel>::None
            }),
{
    let n = visited_left_side.len();
    let mut unmatched: Vec<u64> = Vec::new();
    let mut i: usize = 0;
    while i < n
        invariant
            i <= n,
            n == visited_left_side@.len(),
            unmatched@ == unmatched_rows(visited_left_side@, i as int),
        decreases n - i,
    {
        if !visited_left_side[i] {
            unmatched.push(i as u64);
        }
        i = i + 1;
    }
    proof {
        lemma_unmatched_rows_bounds(visited_left_side@, n as int);
    }
    let num_rows = unmatched.len();
    let ncols = column_indices.len();
    let mut cols: Vec<Column> = Vec::new();
    let mut c: usize = 0;
    while c < ncols
        invariant
            c <= ncols,
            ncols == column_indices@.len(),
            ncols == schema.fields@.len(),
            left_data.batch.wf(),
            n == visited_left_side@.len(),
            n == left_data.batch.num_rows,
            unmatched@ == unmatched_rows(visited_left_side@, n as int),
            num_rows == unmatched@.len(),
            forall|t: int| 0 <= t < unmatched@.len() ==> ((#[trigger] unmatched@[t]) as int) < n,
            forall|cc: int|
                0 <= cc < column_indices@.len() && (#[trigger] column_indices@[cc]).is_left ==> (
                column_indices@[cc].index as int) < left_data.batch.columns@.len()
                    && left_data.batch.columns@[column_indices@[cc].index as int].data_type
                    == schema.fields@[cc].data_type,
            cols@.len() == c,
            forall|cc: int|
                0 <= cc < c ==> (#[trigger] cols@[cc]).data_type == schema.fields@[cc].data_type
                    && cols@[cc].wf() && cols@[cc].cells().len() == num_rows,
            forall|cc: int, t: int|
                0 <= cc < c && 0 <= t < num_rows ==> (#[trigger] cols@[cc].cells()[t]) == (
                if column_indices@[cc].is_left {
                    left_data.batch.columns@[column_indices@[cc].index as int].cells()[unmatched@[t] as int]
                } else {
                    Option::<CellModel>::None
                }),
        decreases ncols - c,
    {
        let ci = &column_indices[c];
        let col: Column = if ci.is_left {
            crate::columns::take_indexed_u64(&left_data.batch.columns[ci.index], &unmatched)
        } else {
            crate::columns::new_null_column(schema.fields[c].data_type, num_rows)
        };
        cols.push(col);
        c = c + 1;
    }
    Batch {
        schema: crate::types::Schema { fields: crate::columns::schema_fields_copy(schema) },
        columns: cols,
        num_rows,
    }
}

/// Whether an on-pair shares one name on both sides, so that the
/// non-primary copy of the column is left out of the join schema.
pub open spec fn dropped_name(on: Seq<(String, String)>, nm: Seq<char>) -> bool {
    exists|p: int| 0 <= p < on.len() && (#[trigger] on[p]).0@ == nm && on[p].1@ == nm
}

/// The fields that survive same-name key dropping, in order.
pub open spec fn filter_fields(fs: Seq<crate::types::Field>, on: Seq<(String, String)>) -> Seq<
    crate::types::Field,
>
    decreases fs.len(),
{
    if fs.len() == 0 {
        Seq::empty()
    } else {
        let p = filter_fields(fs.drop_last(), on);
        if dropped_name(on, fs.last().name@) {
            p
        } else {
            p.push(fs.last())
        }
    }
}

/// The output fields of a join: both sides' fields, the probe-facing
/// copy of every same-name key column dropped. The primary side, the
/// one a name lookup prefers, keeps its copy: the left side for
/// `Inner`, `Left` and `Full`, the right side for `Right`.
pub open spec fn join_fields(
    lf: Seq<crate::types::Field>,
    rf: Seq<crate::types::Field>,
    on: Seq<(String, String)>,
    jt: crate::types::JoinType,
) -> Seq<crate::types::Field> {
    if jt is Right {
        filter_fields(lf, on) + rf
    } else {
        lf + filter_fields(rf, on)
    }
}

/// Whether a name appears as the shared name of some on-pair.
fn is_dropped_name(on: &Vec<(String, String)>, nm: &String) -> (r: bool)
    ensures
        r == dropped_name(on@, nm@),
{
    let n = on.len();
    let mut p: usize = 0;
    while p < n
        invariant
            p <= n,
            n == on@.len(),
            forall|q: int| 0 <= q < p ==> !((#[trigger] on@[q]).0@ == nm@ && on@[q].1@ == nm@),
        decreases n - p,
    {
        if on[p].0.eq(nm) && on[p].1.eq(nm) {
            return true;
        }
        p = p + 1;
    }
    false
}

/// The fields of one side that the join schema keeps.
fn filter_fields_exec(fs: &Vec<crate::types::Field>, on: &Vec<(String, String)>) -> (r: Vec<
    crate::types::Field,
>)
    ensures
        r@ == filter_fields(fs@, on@),
{
    let n = fs.len();
    let mut r: Vec<crate::types::Field> = Vec::new();
    let mut i: usize = 0;
    while i < n
        invariant
            i <= n,
            n == fs@.len(),
            r@ == filter_fields(fs@.subrange(0, i as int), on@),
        decreases n - i,
    {
        let f = &fs[i];
        let keep = !is_dropped_name(on, &f.name);
        proof {
            assert(fs@.subrange(0, i + 1).drop_last() =~= fs@.subrange(0, i as int));
            assert(fs@.subrange(0, i + 1).last() == fs@[i as int]);
        }
        if keep {
            r.push(
                crate::types::Field {
                    name: f.name.clone(),
                    data_type: f.data_type,
                    nullable: f.nullable,
                },
            );
            proof {
                assert(r@ =~= filter_fields(fs@.subrange(0, i + 1), on@));
            }
        }
        i = i + 1;
    }
    proof {
        assert(fs@.subrange(0, n as int) =~= fs@);
    }
    r
}

/// Builds the output schema of a join from the two input schemas.
pub fn build_join_schema(
    left: &crate::types::Schema,
    right: &crate::types::Schema,
    on: &Vec<(String, String)>,
    join_type: crate::types::JoinType,
) -> (r: crate::types::Schema)
    ensures
        r.fields@ == join_fields(left.fields@, right.fields@, on@, join_type),
{
    let fields: Vec<crate::types::Field> = match join_type {
        crate::types::JoinType::Right => {
            let mut f = filter_fields_exec(&left.fields, on);
            let mut rf = crate::columns::schema_fields_copy(right);
            let ghost fpart = f@;
            let n = rf.len();
            let mut i: usize = 0;
            while i < n
                invariant
                    i <= n,
                    n == rf@.len(),
                    rf@ == right.fields@,
                    f@ == fpart + right.fields@.subrange(0, i as int),
                decreases n - i,
            {
                let fld = &rf[i];
                f.push(
                    crate::types::Field {
                        name: fld.name.clone(),
                        data_type: fld.data_type,
                        nullable: fld.nullable,
                    },
                );
                proof {
                    assert(f@ =~= fpart + right.fields@.subrange(0, i + 1));
                }
                i = i + 1;
            }
            proof {
                assert(right.fields@.subrange(0, n as int) =~= right.fields@);
            }
            f
        },
        _ => {
            let mut f = crate::columns::schema_fields_copy(left);
            let rfiltered = filter_fields_exec(&right.fields, on);
            let ghost fpart = f@;
            let n = rfiltered.len();
            let mut i: usize = 0;
            while i < n
                invariant
                    i <= n,
                    n == rfiltered@.len(),
                    rfiltered@ == filter_fields(right.fields@, on@),
                    f@ == fpart + rfiltered@.subrange(0, i as int),
                decreases n - i,
            {
                let fld = &rfiltered[i];
                f.push(
                    crate::types::Field {
                        name: fld.name.clone(),
                        data_type: fld.data_type,
                        nullable: fld.nullable,
                    },
                );
                proof {
                    assert(f@ =~= fpart + rfiltered@.subrange(0, i + 1));
                }
                i = i + 1;
            }
            proof {
                assert(rfiltered@.subrange(0, n as int) =~= rfiltered@);
            }
            f
        },
    };
    crate::types::Schema { fields }
}

/// The left halves of the on-pairs.
pub open spec fn left_names(on: Seq<(String, String)>) -> Seq<String> {
    on.map_values(|p: (String, String)| p.0)
}

/// The right halves of the on-pairs.
pub open spec fn right_names(on: Seq<(String, String)>) -> Seq<String> {
    on.map_values(|p: (String, String)| p.1)
}

/// Whether every on-pair resolves in both schemas to columns of one
/// data type: the condition under which the join can run.
pub open spec fn on_pairs_valid(
    lf: Seq<crate::types::Field>,
    rf: Seq<crate::types::Field>,
    on: Seq<(String, String)>,
) -> bool {
    exists|li: Seq<usize>, ri: Seq<usize>|
        resolve_ok(lf, left_names(on), li) && resolve_ok(rf, right_names(on), ri) && (forall|k: int|
            0 <= k < on.len() ==> (#[trigger] lf[li[k] as int]).data_type == rf[ri[k] as int].data_type)
}

/// Join execution plan: holds the two input schemas, the equi-join
/// columns, and the derived output schema.
pub struct HashJoinExec {
    /// left (build) side which gets hashed
    left: crate::types::Schema,
    /// right (probe) side which are filtered by the hash table
    right: crate::types::Schema,
    /// Set of common columns used to join on
    on: Vec<(String, String)>,
    /// How the join is performed
    join_type: crate::types::JoinType,
    /// The schema once the join is applied
    schema: crate::types::Schema,
    /// Partitioning mode to use
    mode: crate::types::PartitionMode,
    /// Seed shared by the build and probe hashers
    seed: u64,
}

impl HashJoinExec {
    /// Tries to create a new join plan over the two input schemas.
    /// It errors when some `on` column is missing from its side or
    /// when a pair's column types differ.
    pub fn try_new(
        left: crate::types::Schema,
        right: crate::types::Schema,
        on: &Vec<(String, String)>,
        join_type: crate::types::JoinType,
        partition_mode: crate::types::PartitionMode,
    ) -> (r: Result<HashJoinExec, ExecError>)
        ensures
            match r {
                Result::Ok(e) => on_pairs_valid(left.fields@, right.fields@, on@)
                    && e.left_schema_spec().fields@ == left.fields@ && e.right_schema_spec().fields@
                    == right.fields@ && e.on_spec() == on@ && e.join_type_spec() == join_type
                    && e.mode_spec() == partition_mode && e.schema_spec().fields@ == join_fields(
                    left.fields@,
                    right.fields@,
                    on@,
                    join_type,
                ),
                Result::Err(e) => e is Internal && !on_pairs_valid(
                    left.fields@,
                    right.fields@,
                    on@,
                ),
            },
    {
        let n = on.len();
        let mut lnames: Vec<String> = Vec::new();
        let mut rnames: Vec<String> = Vec::new();
        let mut k: usize = 0;
        while k < n
            invariant
                k <= n,
                n == on@.len(),
                lnames@.len() == k,
                rnames@.len() == k,
                forall|q: int| 0 <= q < k ==> (#[trigger] lnames@[q])@ == on@[q].0@,
                forall|q: int| 0 <= q < k ==> (#[trigger] rnames@[q])@ == on@[q].1@,
            decreases n - k,
        {
            lnames.push(on[k].0.clone());
            rnames.push(on[k].1.clone());
            k = k + 1;
        }
        let li = match resolve_on_indices(&left, &lnames) {
            Result::Ok(v) => v,
            Result::Err(_) => {
                proof {
                    lemma_missing_name_no_resolution(left.fields@, lnames@, on@, true);
                }
                return Result::Err(ExecError::Internal);
            },
        };
        let ri = match resolve_on_indices(&right, &rnames) {
            Result::Ok(v) => v,
            Result::Err(_) => {
                proof {
                    lemma_missing_name_no_resolution(right.fields@, rnames@, on@, false);
                }
                return Result::Err(ExecError::Internal);
            },
        };
        let mut k2: usize = 0;
        while k2 < n
            invariant
                k2 <= n,
                n == on@.len(),
                li@.len() == n,
                ri@.len() == n,
                resolve_ok(left.fields@, lnames@, li@),
                resolve_ok(right.fields@, rnames@, ri@),
                forall|q: int| 0 <= q < n ==> (#[trigger] lnames@[q])@ == on@[q].0@,
                forall|q: int| 0 <= q < n ==> (#[trigger] rnames@[q])@ == on@[q].1@,
                forall|q: int|
                    0 <= q < k2 ==> (#[trigger] left.fields@[li@[q] as int]).data_type
                        == right.fields@[ri@[q] as int].data_type,
            decreases n - k2,
        {
            let lf = &left.fields[li[k2]];
            let rf = &right.fields[ri[k2]];
            let same = match (lf.data_type, rf.data_type) {
                (a, b) => a == b,
            };
            if !same {
                proof {
                    lemma_type_mismatch_no_resolution(
                        left.fields@,
                        right.fields@,
                        on@,
                        lnames@,
                        rnames@,
                        li@,
                        ri@,
                        k2 as int,
                    );
                }
                return Result::Err(ExecError::Internal);
            }
            k2 = k2 + 1;
        }
        let schema = build_join_schema(&left, &right, on, join_type);
        let mut on_copy: Vec<(String, String)> = Vec::new();
        let mut k3: usize = 0;
        while k3 < n
            invariant
                k3 <= n,
                n == on@.len(),
                on_copy@ == on@.subrange(0, k3 as int),
            decreases n - k3,
        {
            on_copy.push((on[k3].0.clone(), on[k3].1.clone()));
            proof {
                assert(on@[k3 as int] == (on@[k3 as int].0, on@[k3 as int].1));
                assert(on_copy@ =~= on@.subrange(0, k3 + 1));
            }
            k3 = k3 + 1;
        }
        proof {
            assert(on@.subrange(0, n as int) =~= on@);
            assert(resolve_ok(left.fields@, left_names(on@), li@)) by {
                assert(lnames@.len() == left_names(on@).len());
                assert forall|q: int| 0 <= q < n implies (#[trigger] left_names(on@)[q])@
                    == lnames@[q]@ by {}
            }
            assert(resolve_ok(right.fields@, right_names(on@), ri@)) by {
                assert forall|q: int| 0 <= q < n implies (#[trigger] right_names(on@)[q])@
                    == rnames@[q]@ by {}
            }
        }
        Result::Ok(
            HashJoinExec {
                left,
                right,
                on: on_copy,
                join_type,
                schema,
                mode: partition_mode,
                seed: 0,
            },
        )
    }

    /// The build-side schema in specifications.
    pub closed spec fn left_schema_spec(&self) -> crate::types::Schema {
        self.left
    }

    /// The probe-side schema in specifications.
    pub closed spec fn right_schema_spec(&self) -> crate::types::Schema {
        self.right
    }

    /// The on-pairs in specifications.
    pub closed spec fn on_spec(&self) -> Seq<(String, String)> {
        self.on@
    }

    /// The join type in specifications.
    pub closed spec fn join_type_spec(&self) -> crate::types::JoinType {
        self.join_type
    }

    /// The partition mode in specifications.
    pub closed spec fn mode_spec(&self) -> crate::types::PartitionMode {
        self.mode
    }

    /// The output schema in specifications.
    pub closed spec fn schema_spec(&self) -> crate::types::Schema {
        self.schema
    }

    /// The hash seed in specifications.
    pub closed spec fn seed_spec(&self) -> u64 {
        self.seed
    }

    /// left (build) side which gets hashed
    pub fn left(&self) -> (r: &crate::types::Schema)
        ensures
            r == self.left_schema_spec(),
    {
        &self.left
    }

    /// right (probe) side which are filtered by the hash table
    pub fn right(&self) -> (r: &crate::types::Schema)
        ensures
            r == self.right_schema_spec(),
    {
        &self.right
    }

    /// Set of common columns used to join on
    pub fn on(&self) -> (r: &Vec<(String, String)>)
        ensures
            r@ == self.on_spec(),
    {
        &self.on
    }

    /// How the join is performed
    pub fn join_type(&self) -> (r: &crate::types::JoinType)
        ensures
            *r == self.join_type_spec(),
    {
        &self.join_type
    }

    /// The schema once the join is applied.
    pub fn schema(&self) -> (r: &crate::types::Schema)
        ensures
            *r == self.schema_spec(),
    {
        &self.schema
    }
}

/// A name absent from the fields admits no resolution of the on-pairs.
proof fn lemma_missing_name_no_resolution(
    fields: Seq<crate::types::Field>,
    names: Seq<String>,
    on: Seq<(String, String)>,
    is_left: bool,
)
    requires
        name_missing(fields, names),
        is_left ==> names.len() == on.len() && forall|q: int|
            0 <= q < on.len() ==> (#[trigger] names[q])@ == on[q].0@,
        !is_left ==> names.len() == on.len() && forall|q: int|
            0 <= q < on.len() ==> (#[trigger] names[q])@ == on[q].1@,
    ensures
        is_left ==> forall|li: Seq<usize>| !resolve_ok(fields, left_names(on), li),
        !is_left ==> forall|ri: Seq<usize>| !resolve_ok(fields, right_names(on), ri),
{
    let k = choose|k: int| 0 <= k < names.len() && no_field_named(fields, (#[trigger] names[k])@);
    if is_left {
        assert forall|li: Seq<usize>| !resolve_ok(fields, left_names(on), li) by {
            if resolve_ok(fields, left_names(on), li) {
                let i = li[k];
                assert((i as int) < fields.len());
                assert(fields[i as int].name@ == left_names(on)[k]@);
                assert(left_names(on)[k] == on[k].0);
                assert(names[k]@ == on[k].0@);
            }
        }
    } else {
        assert forall|ri: Seq<usize>| !resolve_ok(fields, right_names(on), ri) by {
            if resolve_ok(fields, right_names(on), ri) {
                let i = ri[k];
                assert((i as int) < fields.len());
                assert(fields[i as int].name@ == right_names(on)[k]@);
                assert(right_names(on)[k] == on[k].1);
                assert(names[k]@ == on[k].1@);
            }
        }
    }
}

/// A type mismatch on some resolved pair refutes `on_pairs_valid`.
proof fn lemma_type_mismatch_no_resolution(
    lf: Seq<crate::types::Field>,
    rf: Seq<crate::types::Field>,
    on: Seq<(String, String)>,
    lnames: Seq<String>,
    rnames: Seq<String>,
    li: Seq<usize>,
    ri: Seq<usize>,
    k: int,
)
    requires
        lnames.len() == on.len(),
        rnames.len() == on.len(),
        forall|q: int| 0 <= q < on.len() ==> (#[trigger] lnames[q])@ == on[q].0@,
        forall|q: int| 0 <= q < on.len() ==> (#[trigger] rnames[q])@ == on[q].1@,
        resolve_ok(lf, lnames, li),
        resolve_ok(rf, rnames, ri),
        0 <= k < on.len(),
        lf[li[k] as int].data_type != rf[ri[k] as int].data_type,
    ensures
        !on_pairs_valid(lf, rf, on),
{
    if on_pairs_valid(lf, rf, on) {
        let (li2, ri2) = choose|li2: Seq<usize>, ri2: Seq<usize>|
            resolve_ok(lf, left_names(on), li2) && resolve_ok(rf, right_names(on), ri2) && (forall|
                q: int,
            |
                0 <= q < on.len() ==> (#[trigger] lf[li2[q] as int]).data_type == rf[ri2[q] as int].data_type);
        assert(resolve_ok(lf, lnames, li2)) by {
            assert forall|q: int| 0 <= q < lnames.len() implies (#[trigger] lnames[q])@
                == left_names(on)[q]@ by {}
            lemma_resolve_same_names(lf, left_names(on), lnames, li2);
        }
        lemma_resolve_unique(lf, lnames, li, li2);
        assert(resolve_ok(rf, rnames, ri2)) by {
            assert forall|q: int| 0 <= q < rnames.len() implies (#[trigger] rnames[q])@
                == right_names(on)[q]@ by {}
            lemma_resolve_same_names(rf, right_names(on), rnames, ri2);
        }
        lemma_resolve_unique(rf, rnames, ri, ri2);
        assert(lf[li2[k] as int].data_type == rf[ri2[k] as int].data_type);
    }
}

/// Resolution depends only on the characters of the names.
proof fn lemma_resolve_same_names(
    fields: Seq<crate::types::Field>,
    names1: Seq<String>,
    names2: Seq<String>,
    idxs: Seq<usize>,
)
    requires
        names1.len() == names2.len(),
        forall|q: int| 0 <= q < names1.len() ==> (#[trigger] names1[q])@ == names2[q]@,
        resolve_ok(fields, names1, idxs),
    ensures
        resolve_ok(fields, names2, idxs),
{
}

/// `i` is the first field carrying the name.
pub open spec fn first_named(fields: Seq<crate::types::Field>, nm: Seq<char>, i: usize) -> bool {
    &&& (i as int) < fields.len()
    &&& fields[i as int].name@ == nm
    &&& forall|j: int| 0 <= j < i as int ==> (#[trigger] fields[j]).name@ != nm
}

/// The placement an output column must get: looked up in the primary
/// schema first (the right one for `Right` joins, else the left one),
/// then in the secondary one.
pub open spec fn placement_ok(
    lf: Seq<crate::types::Field>,
    rf: Seq<crate::types::Field>,
    of: Seq<crate::types::Field>,
    jt: crate::types::JoinType,
    ci: ColumnIndex,
    c: int,
) -> bool {
    let nm = of[c].name@;
    if jt is Right {
        if !no_field_named(rf, nm) {
            !ci.is_left && first_named(rf, nm, ci.index)
        } else {
            ci.is_left && first_named(lf, nm, ci.index)
        }
    } else {
        if !no_field_named(lf, nm) {
            ci.is_left && first_named(lf, nm, ci.index)
        } else {
            !ci.is_left && first_named(rf, nm, ci.index)
        }
    }
}

/// Whether the output column's name can be placed on some side with
/// the declared output type.
pub open spec fn field_placeable(
    lf: Seq<crate::types::Field>,
    rf: Seq<crate::types::Field>,
    of: Seq<crate::types::Field>,
    jt: crate::types::JoinType,
    c: int,
) -> bool {
    let nm = of[c].name@;
    let dt = of[c].data_type;
    if jt is Right {
        if !no_field_named(rf, nm) {
            forall|i: usize| first_named(rf, nm, i) ==> (#[trigger] rf[i as int]).data_type == dt
        } else if !no_field_named(lf, nm) {
            forall|i: usize| first_named(lf, nm, i) ==> (#[trigger] lf[i as int]).data_type == dt
        } else {
            false
        }
    } else {
        if !no_field_named(lf, nm) {
            forall|i: usize| first_named(lf, nm, i) ==> (#[trigger] lf[i as int]).data_type == dt
        } else if !no_field_named(rf, nm) {
            forall|i: usize| first_named(rf, nm, i) ==> (#[trigger] rf[i as int]).data_type == dt
        } else {
            false
        }
    }
}

impl HashJoinExec {
    /// Calculates column indices and left/right placement from the
    /// input and output schemas and the join type. During execution
    /// it is an internal error for an output column to be found on
    /// neither side, or only with another type. Refusing the type
    /// mismatch here is deliberate: deferring it would only move the
    /// failure into the column operations that gather the output.
    pub fn column_indices_from_schema(&self) -> (r: Result<Vec<ColumnIndex>, ExecError>)
        ensures
            match r {
                Result::Ok(v) => {
                    &&& v@.len() == self.schema_spec().fields@.len()
                    &&& forall|c: int|
                        0 <= c < v@.len() ==> placement_ok(
                            self.left_schema_spec().fields@,
                            self.right_schema_spec().fields@,
                            self.schema_spec().fields@,
                            self.join_type_spec(),
                            #[trigger] v@[c],
                            c,
                        )
                    &&& forall|c: int|
                        0 <= c < v@.len() ==> (if (#[trigger] v@[c]).is_left {
                            (v@[c].index as int) < self.left_schema_spec().fields@.len()
                                && self.left_schema_spec().fields@[v@[c].index as int].data_type
                                == self.schema_spec().fields@[c].data_type
                        } else {
                            (v@[c].index as int) < self.right_schema_spec().fields@.len()
                                && self.right_schema_spec().fields@[v@[c].index as int].data_type
                                == self.schema_spec().fields@[c].data_type
                        })
                },
                Result::Err(e) => e is Internal && exists|c: int|
                    0 <= c < self.schema_spec().fields@.len() && !field_placeable(
                        self.left_schema_spec().fields@,
                        self.right_schema_spec().fields@,
                        self.schema_spec().fields@,
                        self.join_type_spec(),
                        c,
                    ),
            },
    {
        let primary_is_left = match self.join_type {
            crate::types::JoinType::Right => false,
            _ => true,
        };
        let n = self.schema.fields.len();
        let mut v: Vec<ColumnIndex> = Vec::new();
        let mut c: usize = 0;
        while c < n
            invariant
                c <= n,
                n == self.schema.fields@.len(),
                primary_is_left == !(self.join_type is Right),
                self.schema_spec() == self.schema,
                self.left_schema_spec() == self.left,
                self.right_schema_spec() == self.right,
                self.join_type_spec() == self.join_type,
                v@.len() == c,
                forall|cc: int|
                    0 <= cc < c ==> placement_ok(
                        self.left.fields@,
                        self.right.fields@,
                        self.schema.fields@,
                        self.join_type,
                        #[trigger] v@[cc],
                        cc,
                    ),
                forall|cc: int|
                    0 <= cc < c ==> (if (#[trigger] v@[cc]).is_left {
                        (v@[cc].index as int) < self.left.fields@.len()
                            && self.left.fields@[v@[cc].index as int].data_type
                            == self.schema.fields@[cc].data_type
                    } else {
                        (v@[cc].index as int) < self.right.fields@.len()
                            && self.right.fields@[v@[cc].index as int].data_type
                            == self.schema.fields@[cc].data_type
                    }),
            decreases n - c,
        {
            let field = &self.schema.fields[c];
            let primary = if primary_is_left {
                &self.left
            } else {
                &self.right
            };
            let secondary = if primary_is_left {
                &self.right
            } else {
                &self.left
            };
            let (found_primary, idx): (bool, usize) = match primary.index_of(&field.name) {
                Option::Some(i) => (true, i),
                Option::None => {
                    match secondary.index_of(&field.name) {
                        Option::Some(i) => (false, i),
                        Option::None => {
                            proof {
                                assert(no_field_named(primary.fields@, field.name@));
                                assert(no_field_named(secondary.fields@, field.name@));
                                assert(!field_placeable(
                                    self.left.fields@,
                                    self.right.fields@,
                                    self.schema.fields@,
                                    self.join_type,
                                    c as int,
                                ));
                            }
                            return Result::Err(ExecError::Internal);
                        },
                    }
                },
            };
            let is_left = (found_primary && primary_is_left) || (!found_primary
                && !primary_is_left);
            let side = if is_left {
                &self.left
            } else {
                &self.right
            };
            let sdt = side.fields[idx].data_type;
            if !(sdt == field.data_type) {
                proof {
                    assert(first_named(side.fields@, field.name@, idx));
                    assert(!field_placeable(
                        self.left.fields@,
                        self.right.fields@,
                        self.schema.fields@,
                        self.join_type,
                        c as int,
                    ));
                }
                return Result::Err(ExecError::Internal);
            }
            v.push(ColumnIndex { index: idx, is_left });
            c = c + 1;
        }
        Result::Ok(v)
    }
}

/// Appending rows extends the indexed positions at the back: the
/// index of a concatenation is the indexes of its parts, shifted.
pub proof fn lemma_index_rows_extend(
    all: Seq<Column>,
    part: Seq<Column>,
    nprev: int,
    npart: int,
    seed: u64,
    h: u64,
)
    requires
        all.len() == part.len(),
        0 <= nprev,
        0 <= npart,
        forall|k: int| 0 <= k < all.len() ==> (#[trigger] all[k]).data_type == part[k].data_type,
        forall|k: int, r: int|
            0 <= k < all.len() && 0 <= r < npart ==> (#[trigger] all[k].cells()[nprev + r])
                == part[k].cells()[r],
    ensures
        index_rows(all, nprev + npart, 0, seed, h) == index_rows(all, nprev, 0, seed, h)
            + index_rows(part, npart, nprev, seed, h),
    decreases npart,
{
    if npart == 0 {
        assert(index_rows(part, 0, nprev, seed, h) =~= Seq::<u64>::empty());
        assert(index_rows(all, nprev, 0, seed, h) + Seq::<u64>::empty() =~= index_rows(
            all,
            nprev,
            0,
            seed,
            h,
        ));
    } else {
        lemma_index_rows_extend(all, part, nprev, npart - 1, seed, h);
        assert forall|k: int| 0 <= k < all.len() implies (#[trigger] all[k]).cells()[nprev + npart
            - 1] == part[k].cells()[npart - 1] by {}
        crate::hashing::lemma_row_hash_from_cells(all, part, nprev + npart - 1, npart - 1, seed);
        let a = index_rows(all, nprev, 0, seed, h);
        let b = index_rows(part, npart - 1, nprev, seed, h);
        if row_hash(part, npart - 1, seed) == h {
            assert(a + b.push((nprev + npart - 1) as u64) =~= (a + b).push(
                (nprev + npart - 1) as u64,
            ));
        }
    }
}

/// Cell `total_rows(b) + r` of a concatenation is cell `r` of batch `b`.
pub proof fn lemma_concat_cells_index(batches: Seq<Batch>, c: int, b: int, kk: int, r: int)
    requires
        0 <= b < kk <= batches.len(),
        forall|bb: int| 0 <= bb < batches.len() ==> (#[trigger] batches[bb]).wf(),
        0 <= c,
        forall|bb: int| 0 <= bb < batches.len() ==> c < (#[trigger] batches[bb]).columns@.len(),
        0 <= r < batches[b].num_rows,
    ensures
        crate::columns::concat_cells(batches, c, kk)[crate::columns::total_rows(batches, b) + r]
            == batches[b].columns@[c].cells()[r],
    decreases kk,
{
    crate::columns::lemma_concat_cells_len(batches, c, kk - 1);
    crate::columns::lemma_total_rows_mono(batches, b + 1, kk);
    crate::columns::lemma_total_rows_mono(batches, 0, b);
    if b == kk - 1 {
        crate::columns::lemma_concat_cells_len(batches, c, b);
    } else {
        lemma_concat_cells_index(batches, c, b, kk - 1, r);
        crate::columns::lemma_total_rows_mono(batches, b + 1, kk - 1);
        crate::columns::lemma_concat_cells_len(batches, c, kk - 1);
    }
}

/// Updates the index with the rows of one build batch, keyed on the
/// `on` columns, placing them at absolute positions from `offset`.
pub fn update_hash(
    on: &Vec<String>,
    batch: &Batch,
    hash: &mut JoinIndex,
    offset: usize,
    seed: u64,
) -> (r: Result<(), ExecError>)
    requires
        batch.wf(),
        offset + batch.num_rows <= usize::MAX,
    ensures
        match r {
            Result::Ok(()) => forall|idxs: Seq<usize>, h: u64|
                #![trigger resolve_ok(batch.schema.fields@, on@, idxs), final(hash).rows_of(h)]
                resolve_ok(batch.schema.fields@, on@, idxs) ==> final(hash).rows_of(h) == old(
                    hash,
                ).rows_of(h) + index_rows(
                    selected_cols(*batch, idxs),
                    batch.num_rows as int,
                    offset as int,
                    seed,
                    h,
                ),
            Result::Err(e) => e is Internal && name_missing(batch.schema.fields@, on@)
                && *final(hash) == *old(hash),
        },
{
    let idxs = match resolve_on_indices(&batch.schema, on) {
        Result::Ok(v) => v,
        Result::Err(_) => {
            return Result::Err(ExecError::Internal);
        },
    };
    let key_cols = select_columns(batch, &idxs);
    let r = update_hash_columns(&key_cols, batch.num_rows, hash, offset, seed);
    proof {
        assert forall|idxs2: Seq<usize>, h: u64|
            #![trigger resolve_ok(batch.schema.fields@, on@, idxs2), hash.rows_of(h)]
            resolve_ok(batch.schema.fields@, on@, idxs2) implies hash.rows_of(h) == old(
            hash,
        ).rows_of(h) + index_rows(
            selected_cols(*batch, idxs2),
            batch.num_rows as int,
            offset as int,
            seed,
            h,
        ) by {
            lemma_resolve_unique(batch.schema.fields@, on@, idxs@, idxs2);
            lemma_index_rows_congruent(
                key_cols@,
                selected_cols(*batch, idxs2),
                batch.num_rows as int,
                offset as int,
                seed,
                h,
            );
        }
    }
    r
}

/// The probe-facing description of a finished build: the index holds
/// exactly the concatenated build rows under their key hashes.
pub open spec fn build_complete(
    ld: JoinLeftData,
    on_left: Seq<String>,
    seed: u64,
) -> bool {
    forall|idxs: Seq<usize>|
        resolve_ok(ld.batch.schema.fields@, on_left, idxs) ==> index_complete(
            ld.index,
            #[trigger] selected_cols(ld.batch, idxs),
            ld.batch.num_rows as int,
            seed,
        )
}

impl HashJoinExec {
    /// Drains the collected build batches into the single build-side
    /// batch and its hash index. Batches are indexed one by one at
    /// their running offset, as they arrived.
    pub fn build_left_data(&self, batches: &Vec<Batch>) -> (r: Result<JoinLeftData, ExecError>)
        requires
            forall|b: int| 0 <= b < batches@.len() ==> (#[trigger] batches@[b]).wf(),
            forall|b: int|
                0 <= b < batches@.len() ==> (#[trigger] batches@[b]).schema.fields@
                    == self.left_schema_spec().fields@,
            crate::columns::total_rows(batches@, batches@.len() as int) <= usize::MAX,
        ensures
            match r {
                Result::Ok(ld) => {
                    &&& ld.batch.wf()
                    &&& ld.batch.schema.fields@ == self.left_schema_spec().fields@
                    &&& ld.batch.num_rows == crate::columns::total_rows(
                        batches@,
                        batches@.len() as int,
                    )
                    &&& forall|c: int|
                        0 <= c < ld.batch.columns@.len() ==> (#[trigger] ld.batch.columns@[c]).cells()
                            == crate::columns::concat_cells(batches@, c, batches@.len() as int)
                    &&& build_complete(ld, left_names(self.on_spec()), seed_of(self))
                },
                Result::Err(e) => e is Internal && name_missing(
                    self.left_schema_spec().fields@,
                    left_names(self.on_spec()),
                ),
            },
    {
        let single_batch = crate::columns::concat_batches(&self.left, batches);
        let num_rows = single_batch.num_rows;
        let mut lnames: Vec<String> = Vec::new();
        let n = self.on.len();
        let mut k: usize = 0;
        while k < n
            invariant
                k <= n,
                n == self.on@.len(),
                lnames@.len() == k,
                forall|q: int| 0 <= q < k ==> #[trigger] lnames@[q] == self.on@[q].0,
            decreases n - k,
        {
            lnames.push(self.on[k].0.clone());
            proof {
                assert(self.on@[k as int] == (self.on@[k as int].0, self.on@[k as int].1));
            }
            k = k + 1;
        }
        proof {
            assert(lnames@ =~= left_names(self.on@));
        }
        let idxs = match resolve_on_indices(&single_batch.schema, &lnames) {
            Result::Ok(v) => v,
            Result::Err(_) => {
                return Result::Err(ExecError::Internal);
            },
        };
        let all_key_cols = select_columns(&single_batch, &idxs);
        let mut index = JoinIndex::new();
        let nb = batches.len();
        let mut offset: usize = 0;
        let mut b: usize = 0;
        while b < nb
            invariant
                b <= nb,
                nb == batches@.len(),
                forall|bb: int| 0 <= bb < batches@.len() ==> (#[trigger] batches@[bb]).wf(),
                forall|bb: int|
                    0 <= bb < batches@.len() ==> (#[trigger] batches@[bb]).schema.fields@
                        == self.left_schema_spec().fields@,
                crate::columns::total_rows(batches@, batches@.len() as int) <= usize::MAX,
                offset == crate::columns::total_rows(batches@, b as int),
                num_rows == crate::columns::total_rows(batches@, batches@.len() as int),
                single_batch.wf(),
                single_batch.num_rows == num_rows,
                single_batch.schema.fields@ == self.left_schema_spec().fields@,
                forall|c: int|
                    0 <= c < single_batch.columns@.len() ==> (
                    #[trigger] single_batch.columns@[c]).cells() == crate::columns::concat_cells(
                        batches@,
                        c,
                        batches@.len() as int,
                    ),
                resolve_ok(single_batch.schema.fields@, lnames@, idxs@),
                lnames@ == left_names(self.on@),
                all_key_cols@.len() == idxs@.len(),
                forall|q: int|
                    0 <= q < all_key_cols@.len() ==> (#[trigger] all_key_cols@[q]).data_type
                        == single_batch.columns@[idxs@[q] as int].data_type && all_key_cols@[
                        q
                    ].cells() == single_batch.columns@[idxs@[q] as int].cells()
                        && all_key_cols@[q].wf() && all_key_cols@[q].cells().len() == num_rows,
                forall|h: u64|
                    #[trigger] index.rows_of(h) == index_rows(
                        all_key_cols@,
                        offset as int,
                        0,
                        seed_of(self),
                        h,
                    ),
            decreases nb - b,
        {
            let batch = &batches[b];
            let ghost pre_index = index;
            let ghost pre_offset = offset as int;
            proof {
                crate::columns::lemma_total_rows_mono(batches@, b + 1, nb as int);
                assert(crate::columns::total_rows(batches@, b + 1) == pre_offset
                    + batch.num_rows);
            }
            let res = update_hash(&lnames, batch, &mut index, offset, seed_of_exec(self));
            proof {
                assert(res is Ok) by {
                    if res is Err {
                        assert(name_missing(batch.schema.fields@, lnames@));
                        let kk = choose|kk: int|
                            0 <= kk < lnames@.len() && no_field_named(
                                batch.schema.fields@,
                                (#[trigger] lnames@[kk])@,
                            );
                        assert(batch.schema.fields@ == single_batch.schema.fields@);
                        assert(no_field_named(single_batch.schema.fields@, lnames@[kk]@));
                        let fi = idxs@[kk];
                        assert((fi as int) < single_batch.schema.fields@.len()
                            && single_batch.schema.fields@[fi as int].name@ == lnames@[kk]@);
                        assert(single_batch.schema.fields@[fi as int].name@ != lnames@[kk]@);
                    }
                }
            }
            proof {
                let bidxs = idxs@;
                assert(resolve_ok(batch.schema.fields@, lnames@, bidxs));
                let bkc = selected_cols(*batch, bidxs);
                assert forall|h: u64|
                    #[trigger] index.rows_of(h) == index_rows(
                        all_key_cols@,
                        pre_offset + batch.num_rows,
                        0,
                        seed_of(self),
                        h,
                    ) by {
                    assert(index.rows_of(h) == pre_index.rows_of(h) + index_rows(
                        bkc,
                        batch.num_rows as int,
                        pre_offset,
                        seed_of(self),
                        h,
                    ));
                    assert forall|q: int, rr: int|
                        0 <= q < all_key_cols@.len() && 0 <= rr < batch.num_rows implies (
                    #[trigger] all_key_cols@[q].cells()[pre_offset + rr]) == bkc[q].cells()[rr] by {
                        assert(batches@[b as int].wf());
                        assert((idxs@[q] as int) < batches@[b as int].columns@.len());
                        crate::columns::lemma_total_rows_mono(batches@, b + 1, nb as int);
                        assert(0 <= pre_offset + rr < num_rows);
                        lemma_concat_cells_index(
                            batches@,
                            idxs@[q] as int,
                            b as int,
                            batches@.len() as int,
                            rr,
                        );
                        assert(bkc[q] == batch.columns@[bidxs[q] as int]);
                    }
                    assert forall|q: int| 0 <= q < all_key_cols@.len() implies (
                    #[trigger] all_key_cols@[q]).data_type == bkc[q].data_type by {
                        assert(bkc[q] == batch.columns@[bidxs[q] as int]);
                        assert(batches@[b as int].wf());
                    }
                    lemma_index_rows_extend(
                        all_key_cols@,
                        bkc,
                        pre_offset,
                        batch.num_rows as int,
                        seed_of(self),
                        h,
                    );
                }
            }
            proof {
                crate::columns::lemma_total_rows_mono(batches@, b + 1, nb as int);
            }
            offset = offset + batch.num_rows;
            b = b + 1;
        }
        let ld = JoinLeftData { index, batch: single_batch };
        proof {
            assert forall|idxs2: Seq<usize>|
                resolve_ok(ld.batch.schema.fields@, left_names(self.on@), idxs2) implies
                index_complete(
                ld.index,
                #[trigger] selected_cols(ld.batch, idxs2),
                ld.batch.num_rows as int,
                seed_of(self),
            ) by {
                lemma_resolve_unique(ld.batch.schema.fields@, lnames@, idxs@, idxs2);
                assert forall|h: u64|
                    #[trigger] ld.index.rows_of(h) == index_rows(
                        selected_cols(ld.batch, idxs2),
                        ld.batch.num_rows as int,
                        0,
                        seed_of(self),
                        h,
                    ) by {
                    lemma_index_rows_congruent(
                        all_key_cols@,
                        selected_cols(ld.batch, idxs2),
                        ld.batch.num_rows as int,
                        0,
                        seed_of(self),
                        h,
                    );
                }
            }
        }
        Result::Ok(ld)
    }
}

/// The seed a plan uses, in specifications.
pub open spec fn seed_of(e: &HashJoinExec) -> u64 {
    e.seed_spec()
}

/// The seed a plan uses.
pub fn seed_of_exec(e: &HashJoinExec) -> (r: u64)
    ensures
        r == seed_of(e),
{
    e.seed()
}

impl HashJoinExec {
    /// The seed shared by the build and probe hashers.
    pub fn seed(&self) -> (r: u64)
        ensures
            r == self.seed_spec(),
    {
        self.seed
    }
}

/// Whether the on-columns of both sides resolve and carry pairwise
/// equal types, so one probe batch can be joined.
pub open spec fn keys_compatible(
    lbatch: Batch,
    rbatch: Batch,
    left_on: Seq<String>,
    right_on: Seq<String>,
) -> bool {
    &&& !name_missing(lbatch.schema.fields@, left_on)
    &&& !name_missing(rbatch.schema.fields@, right_on)
    &&& forall|lidxs: Seq<usize>, ridxs: Seq<usize>|
        resolve_ok(lbatch.schema.fields@, left_on, lidxs) && resolve_ok(
            rbatch.schema.fields@,
            right_on,
            ridxs,
        ) ==> (forall|k: int|
            0 <= k < left_on.len() ==> (#[trigger] selected_cols(lbatch, lidxs)[k]).data_type
                == selected_cols(rbatch, ridxs)[k].data_type)
}

/// Returns the joined (build row, probe row) index pairs of one probe
/// batch, or the internal error of unresolvable or mistyped keys.
pub fn build_join_indexes(
    left_data: &JoinLeftData,
    right: &Batch,
    join_type: crate::types::JoinType,
    left_on: &Vec<String>,
    right_on: &Vec<String>,
    seed: u64,
) -> (r: Result<(Vec<Option<u64>>, Vec<u32>), ExecError>)
    requires
        left_data.batch.wf(),
        right.wf(),
        right.num_rows <= u32::MAX,
        left_data.batch.num_rows <= u64::MAX,
        left_on@.len() == right_on@.len(),
        forall|lidxs: Seq<usize>|
            resolve_ok(left_data.batch.schema.fields@, left_on@, lidxs) ==> index_sound(
                left_data.index,
                #[trigger] selected_cols(left_data.batch, lidxs),
                left_data.batch.num_rows as int,
                seed,
            ),
    ensures
        match r {
            Result::Ok(out) => keys_compatible(left_data.batch, *right, left_on@, right_on@)
                && out.0@.len() == out.1@.len() && (forall|t: int|
                0 <= t < out.0@.len() && (#[trigger] out.0@[t]) is Some ==> ((out.0@[t]->0) as int)
                    < left_data.batch.num_rows) && (forall|t: int|
                0 <= t < out.1@.len() ==> ((#[trigger] out.1@[t]) as int) < right.num_rows)
                && exists|lidxs: Seq<usize>, ridxs: Seq<usize>|
                {
                    &&& resolve_ok(left_data.batch.schema.fields@, left_on@, lidxs)
                    &&& resolve_ok(right.schema.fields@, right_on@, ridxs)
                    &&& ((join_type is Inner || join_type is Left) ==> out.0@ == inner_lefts(
                        #[trigger] selected_cols(left_data.batch, lidxs),
                        #[trigger] selected_cols(*right, ridxs),
                        left_data.batch.num_rows as int,
                        right.num_rows as int,
                    ) && out.1@ == inner_rights(
                        selected_cols(left_data.batch, lidxs),
                        selected_cols(*right, ridxs),
                        left_data.batch.num_rows as int,
                        right.num_rows as int,
                    ))
                    &&& ((join_type is Right || join_type is Full) ==> out.0@ == rf_lefts(
                        selected_cols(left_data.batch, lidxs),
                        selected_cols(*right, ridxs),
                        left_data.batch.num_rows as int,
                        right.num_rows as int,
                    ) && out.1@ == rf_rights(
                        selected_cols(left_data.batch, lidxs),
                        selected_cols(*right, ridxs),
                        left_data.batch.num_rows as int,
                        right.num_rows as int,
                    ))
                },
            Result::Err(e) => e is Internal && !keys_compatible(
                left_data.batch,
                *right,
                left_on@,
                right_on@,
            ),
        },
{
    let lidxs = match resolve_on_indices(&left_data.batch.schema, left_on) {
        Result::Ok(v) => v,
        Result::Err(_) => {
            return Result::Err(ExecError::Internal);
        },
    };
    let ridxs = match resolve_on_indices(&right.schema, right_on) {
        Result::Ok(v) => v,
        Result::Err(_) => {
            return Result::Err(ExecError::Internal);
        },
    };
    let left_join_values = select_columns(&left_data.batch, &lidxs);
    let keys_values = select_columns(right, &ridxs);
    let n = left_join_values.len();
    let mut k: usize = 0;
    while k < n
        invariant
            k <= n,
            n == left_join_values@.len(),
            n == keys_values@.len(),
            left_join_values@.len() == left_on@.len(),
            keys_values@.len() == right_on@.len(),
            left_data.batch.wf(),
            right.wf(),
            resolve_ok(left_data.batch.schema.fields@, left_on@, lidxs@),
            resolve_ok(right.schema.fields@, right_on@, ridxs@),
            forall|q: int|
                0 <= q < left_join_values@.len() ==> (#[trigger] left_join_values@[q]).data_type
                    == selected_cols(left_data.batch, lidxs@)[q].data_type,
            forall|q: int|
                0 <= q < keys_values@.len() ==> (#[trigger] keys_values@[q]).data_type
                    == selected_cols(*right, ridxs@)[q].data_type,
            forall|q: int|
                0 <= q < k ==> (#[trigger] left_join_values@[q]).data_type
                    == keys_values@[q].data_type,
        decreases n - k,
    {
        if !(left_join_values[k].data_type == keys_values[k].data_type) {
            proof {
                lemma_keys_incompatible(
                    left_data.batch,
                    *right,
                    left_on@,
                    right_on@,
                    lidxs@,
                    ridxs@,
                    k as int,
                );
            }
            return Result::Err(ExecError::Internal);
        }
        k = k + 1;
    }
    proof {
        let slk = selected_cols(left_data.batch, lidxs@);
        assert(cols_alike(slk, left_join_values@));
        lemma_index_sound_congruent(
            left_data.index,
            slk,
            left_join_values@,
            left_data.batch.num_rows as int,
            seed,
        );
    }
    let (l, rr) = build_join_indexes_columns(
        &left_data.index,
        &left_join_values,
        &keys_values,
        left_data.batch.num_rows,
        right.num_rows,
        join_type,
        seed,
    );
    proof {
        assert(!name_missing(left_data.batch.schema.fields@, left_on@)) by {
            if name_missing(left_data.batch.schema.fields@, left_on@) {
                let kk = choose|kk: int|
                    0 <= kk < left_on@.len() && no_field_named(
                        left_data.batch.schema.fields@,
                        (#[trigger] left_on@[kk])@,
                    );
                let fi = lidxs@[kk];
                assert(left_data.batch.schema.fields@[fi as int].name@ == left_on@[kk]@);
                assert(left_data.batch.schema.fields@[fi as int].name@ != left_on@[kk]@);
            }
        }
        assert(!name_missing(right.schema.fields@, right_on@)) by {
            if name_missing(right.schema.fields@, right_on@) {
                let kk = choose|kk: int|
                    0 <= kk < right_on@.len() && no_field_named(
                        right.schema.fields@,
                        (#[trigger] right_on@[kk])@,
                    );
                let fi = ridxs@[kk];
                assert(right.schema.fields@[fi as int].name@ == right_on@[kk]@);
                assert(right.schema.fields@[fi as int].name@ != right_on@[kk]@);
            }
        }
        assert forall|q: int| 0 <= q < left_join_values@.len() implies (
        #[trigger] selected_cols(left_data.batch, lidxs@)[q]).data_type == selected_cols(
            *right,
            ridxs@,
        )[q].data_type by {}
        assert forall|lidxs2: Seq<usize>, ridxs2: Seq<usize>|
            resolve_ok(left_data.batch.schema.fields@, left_on@, lidxs2) && resolve_ok(
                right.schema.fields@,
                right_on@,
                ridxs2,
            ) implies (forall|q: int|
            0 <= q < left_on@.len() ==> (#[trigger] selected_cols(left_data.batch, lidxs2)[q]).data_type
                == selected_cols(*right, ridxs2)[q].data_type) by {
            lemma_resolve_unique(left_data.batch.schema.fields@, left_on@, lidxs@, lidxs2);
            lemma_resolve_unique(right.schema.fields@, right_on@, ridxs@, ridxs2);
        }
        let slk = selected_cols(left_data.batch, lidxs@);
        let srk = selected_cols(*right, ridxs@);
        assert(cols_alike(left_join_values@, slk));
        assert(cols_alike(keys_values@, srk));
        if join_type is Inner || join_type is Left {
            lemma_inner_outs_congruent(
                left_join_values@,
                slk,
                keys_values@,
                srk,
                left_data.batch.num_rows as int,
                right.num_rows as int,
            );
        } else {
            lemma_rf_outs_congruent(
                left_join_values@,
                slk,
                keys_values@,
                srk,
                left_data.batch.num_rows as int,
                right.num_rows as int,
            );
        }
    }
    Result::Ok((l, rr))
}

/// Two column sequences that agree on data types and cells.
pub open spec fn cols_alike(a: Seq<Column>, b: Seq<Column>) -> bool {
    &&& a.len() == b.len()
    &&& forall|k: int|
        0 <= k < a.len() ==> (#[trigger] a[k]).data_type == b[k].data_type && a[k].cells()
            == b[k].cells()
}

/// Row matching reads only cells, so alike columns match alike.
proof fn lemma_rows_match_congruent(
    a1: Seq<Column>,
    a2: Seq<Column>,
    b1: Seq<Column>,
    b2: Seq<Column>,
    i: int,
    j: int,
)
    requires
        cols_alike(a1, a2),
        cols_alike(b1, b2),
        a1.len() == b1.len(),
    ensures
        rows_match(a1, i, b1, j) == rows_match(a2, i, b2, j),
{
    if rows_match(a1, i, b1, j) {
        assert forall|k: int| 0 <= k < a2.len() implies cells_equal(
            (#[trigger] a2[k]).cells()[i],
            b2[k].cells()[j],
        ) by {
            assert(cells_equal((a1[k]).cells()[i], b1[k].cells()[j]));
            assert(a1[k].cells() == a2[k].cells());
            assert(b1[k].cells() == b2[k].cells());
        }
    }
    if rows_match(a2, i, b2, j) {
        assert forall|k: int| 0 <= k < a1.len() implies cells_equal(
            (#[trigger] a1[k]).cells()[i],
            b1[k].cells()[j],
        ) by {
            assert(cells_equal((a2[k]).cells()[i], b2[k].cells()[j]));
            assert(a1[k].cells() == a2[k].cells());
            assert(b1[k].cells() == b2[k].cells());
        }
    }
}

/// The matched build rows read only cells.
proof fn lemma_matched_rows_congruent(
    a1: Seq<Column>,
    a2: Seq<Column>,
    b1: Seq<Column>,
    b2: Seq<Column>,
    nl: int,
    j: int,
)
    requires
        cols_alike(a1, a2),
        cols_alike(b1, b2),
        a1.len() == b1.len(),
    ensures
        matched_rows(a1, b1, nl, j) == matched_rows(a2, b2, nl, j),
    decreases nl,
{
    if nl > 0 {
        lemma_matched_rows_congruent(a1, a2, b1, b2, nl - 1, j);
        lemma_rows_match_congruent(a1, a2, b1, b2, nl - 1, j);
    }
}

/// The inner-join outputs read only cells.
proof fn lemma_inner_outs_congruent(
    a1: Seq<Column>,
    a2: Seq<Column>,
    b1: Seq<Column>,
    b2: Seq<Column>,
    nl: int,
    j: int,
)
    requires
        cols_alike(a1, a2),
        cols_alike(b1, b2),
        a1.len() == b1.len(),
    ensures
        inner_lefts(a1, b1, nl, j) == inner_lefts(a2, b2, nl, j),
        inner_rights(a1, b1, nl, j) == inner_rights(a2, b2, nl, j),
    decreases j,
{
    if j > 0 {
        lemma_inner_outs_congruent(a1, a2, b1, b2, nl, j - 1);
        lemma_matched_rows_congruent(a1, a2, b1, b2, nl, j - 1);
    }
}

/// The right and full join outputs read only cells.
proof fn lemma_rf_outs_congruent(
    a1: Seq<Column>,
    a2: Seq<Column>,
    b1: Seq<Column>,
    b2: Seq<Column>,
    nl: int,
    j: int,
)
    requires
        cols_alike(a1, a2),
        cols_alike(b1, b2),
        a1.len() == b1.len(),
    ensures
        rf_lefts(a1, b1, nl, j) == rf_lefts(a2, b2, nl, j),
        rf_rights(a1, b1, nl, j) == rf_rights(a2, b2, nl, j),
    decreases j,
{
    if j > 0 {
        lemma_rf_outs_congruent(a1, a2, b1, b2, nl, j - 1);
        lemma_matched_rows_congruent(a1, a2, b1, b2, nl, j - 1);
    }
}

/// Index soundness reads the columns only through cells and types.
proof fn lemma_index_sound_congruent(
    idx: JoinIndex,
    c1: Seq<Column>,
    c2: Seq<Column>,
    nl: int,
    seed: u64,
)
    requires
        cols_alike(c1, c2),
        index_sound(idx, c1, nl, seed),
    ensures
        index_sound(idx, c2, nl, seed),
{
    assert forall|r: int| 0 <= r < nl implies (#[trigger] idx.rows_of(
        row_hash(c2, r, seed),
    )).contains(r as u64) by {
        assert forall|k: int| 0 <= k < c1.len() implies (#[trigger] c1[k]).cells()[r] == c2[
            k
        ].cells()[r] by {}
        crate::hashing::lemma_row_hash_from_cells(c1, c2, r, r, seed);
        assert(idx.rows_of(row_hash(c1, r, seed)).contains(r as u64));
    }
}

/// A type mismatch at resolved pair `k` refutes key compatibility.
proof fn lemma_keys_incompatible(
    lbatch: Batch,
    rbatch: Batch,
    left_on: Seq<String>,
    right_on: Seq<String>,
    lidxs: Seq<usize>,
    ridxs: Seq<usize>,
    k: int,
)
    requires
        resolve_ok(lbatch.schema.fields@, left_on, lidxs),
        resolve_ok(rbatch.schema.fields@, right_on, ridxs),
        0 <= k < left_on.len(),
        left_on.len() == right_on.len(),
        selected_cols(lbatch, lidxs)[k].data_type != selected_cols(rbatch, ridxs)[k].data_type,
    ensures
        !keys_compatible(lbatch, rbatch, left_on, right_on),
{
    if keys_compatible(lbatch, rbatch, left_on, right_on) {
        assert(selected_cols(lbatch, lidxs)[k].data_type == selected_cols(
            rbatch,
            ridxs,
        )[k].data_type);
    }
}

/// The placements are usable against the concrete build batch, the
/// probe batch and the output schema.
pub open spec fn placements_fit(
    column_indices: Seq<ColumnIndex>,
    schema: crate::types::Schema,
    lbatch: Batch,
    rbatch: Batch,
) -> bool {
    &&& column_indices.len() == schema.fields@.len()
    &&& forall|c: int|
        0 <= c < column_indices.len() ==> {
            let ci = #[trigger] column_indices[c];
            if ci.is_left {
                (ci.index as int) < lbatch.columns@.len() && lbatch.columns@[ci.index as int].data_type
                    == schema.fields@[c].data_type
            } else {
                (ci.index as int) < rbatch.columns@.len() && rbatch.columns@[ci.index as int].data_type
                    == schema.fields@[c].data_type
            }
        }
}

/// Joins one probe batch against the build side, returning the output
/// batch and the build-side index column used to mark visited rows.
pub fn build_batch(
    batch: &Batch,
    left_data: &JoinLeftData,
    on_left: &Vec<String>,
    on_right: &Vec<String>,
    join_type: crate::types::JoinType,
    schema: &crate::types::Schema,
    column_indices: &Vec<ColumnIndex>,
    seed: u64,
) -> (r: Result<(Batch, Vec<Option<u64>>), ExecError>)
    requires
        left_data.batch.wf(),
        batch.wf(),
        batch.num_rows <= u32::MAX,
        left_data.batch.num_rows <= u64::MAX,
        on_left@.len() == on_right@.len(),
        placements_fit(column_indices@, *schema, left_data.batch, *batch),
        forall|lidxs: Seq<usize>|
            resolve_ok(left_data.batch.schema.fields@, on_left@, lidxs) ==> index_sound(
                left_data.index,
                #[trigger] selected_cols(left_data.batch, lidxs),
                left_data.batch.num_rows as int,
                seed,
            ),
    ensures
        match r {
            Result::Ok(out) => {
                &&& keys_compatible(left_data.batch, *batch, on_left@, on_right@)
                &&& out.0.wf()
                &&& out.0.schema.fields@ == schema.fields@
                &&& out.0.num_rows == out.1@.len()
                &&& forall|t: int|
                    0 <= t < out.1@.len() && (#[trigger] out.1@[t]) is Some ==> ((out.1@[t]->0)
                        as int) < left_data.batch.num_rows
                &&& exists|lidxs: Seq<usize>, ridxs: Seq<usize>, ridx: Seq<u32>|
                    {
                        &&& #[trigger] resolve_ok(left_data.batch.schema.fields@, on_left@, lidxs)
                        &&& #[trigger] resolve_ok(batch.schema.fields@, on_right@, ridxs)
                        &&& (#[trigger] ridx.len()) == out.0.num_rows
                        &&& ((join_type is Inner || join_type is Left) ==> out.1@ == inner_lefts(
                            #[trigger] selected_cols(left_data.batch, lidxs),
                            #[trigger] selected_cols(*batch, ridxs),
                            left_data.batch.num_rows as int,
                            batch.num_rows as int,
                        ) && ridx == inner_rights(
                            selected_cols(left_data.batch, lidxs),
                            selected_cols(*batch, ridxs),
                            left_data.batch.num_rows as int,
                            batch.num_rows as int,
                        ))
                        &&& ((join_type is Right || join_type is Full) ==> out.1@ == rf_lefts(
                            selected_cols(left_data.batch, lidxs),
                            selected_cols(*batch, ridxs),
                            left_data.batch.num_rows as int,
                            batch.num_rows as int,
                        ) && ridx == rf_rights(
                            selected_cols(left_data.batch, lidxs),
                            selected_cols(*batch, ridxs),
                            left_data.batch.num_rows as int,
                            batch.num_rows as int,
                        ))
                        &&& forall|c: int, t: int|
                            0 <= c < out.0.columns@.len() && 0 <= t < out.0.num_rows ==> (
                            #[trigger] out.0.columns@[c].cells()[t]) == joined_cell(
                                left_data.batch,
                                *batch,
                                column_indices@,
                                out.1@,
                                ridx,
                                c,
                                t,
                            )
                    }
            },
            Result::Err(e) => e is Internal && !keys_compatible(
                left_data.batch,
                *batch,
                on_left@,
                on_right@,
            ),
        },
{
    let pair = build_join_indexes(left_data, batch, join_type, on_left, on_right, seed);
    match pair {
        Result::Ok((left_indices, right_indices)) => {
            let out = build_batch_from_indices(
                schema,
                &left_data.batch,
                batch,
                &left_indices,
                &right_indices,
                column_indices,
            );
            Result::Ok((out, left_indices))
        },
        Result::Err(e) => Result::Err(e),
    }
}

/// A stream that joins probe-side batches as they arrive, then emits
/// the unmatched build rows of a left or full join.
pub struct HashJoinStream {
    /// The output schema
    pub schema: crate::types::Schema,
    /// columns from the left used to compute the hash
    pub on_left: Vec<String>,
    /// columns from the right used to compute the hash
    pub on_right: Vec<String>,
    /// type of the join
    pub join_type: crate::types::JoinType,
    /// Information of index and left / right placement of columns
    pub column_indices: Vec<ColumnIndex>,
    /// Keeps track of which build rows a probe row has matched
    pub visited_left_side: Vec<bool>,
    /// There is nothing to process anymore, and the unmatched build
    /// rows, if the join wanted them, have been emitted
    pub is_exhausted: bool,
    /// Seed shared with the build phase
    pub seed: u64,
}

impl HashJoinStream {
    /// The stream is usable against the given build side.
    pub open spec fn wf_for(&self, left_data: JoinLeftData) -> bool {
        &&& left_data.batch.wf()
        &&& left_data.batch.num_rows <= u64::MAX
        &&& self.on_left@.len() == self.on_right@.len()
        &&& ((self.join_type is Left || self.join_type is Full)
            ==> self.visited_left_side@.len() == left_data.batch.num_rows)
        &&& self.column_indices@.len() == self.schema.fields@.len()
        &&& forall|c: int|
            0 <= c < self.column_indices@.len() && (#[trigger] self.column_indices@[c]).is_left
                ==> (self.column_indices@[c].index as int) < left_data.batch.columns@.len()
                && left_data.batch.columns@[self.column_indices@[c].index as int].data_type
                == self.schema.fields@[c].data_type
        &&& forall|lidxs: Seq<usize>|
            resolve_ok(left_data.batch.schema.fields@, self.on_left@, lidxs) ==> index_sound(
                left_data.index,
                #[trigger] selected_cols(left_data.batch, lidxs),
                left_data.batch.num_rows as int,
                self.seed,
            )
    }

    /// Feeds one event of the probe stream into the join: a batch, a
    /// foreign error, or the end of the stream. Returns the batch to
    /// emit, the error to surface, or the end of the output stream.
    /// Once the stream has finished, every further poll ends it again.
    pub fn on_right_event(
        &mut self,
        left_data: &JoinLeftData,
        event: Option<Result<Batch, ExecError>>,
    ) -> (r: Option<Result<Batch, ExecError>>)
        requires
            old(self).wf_for(*left_data),
            event matches Option::Some(Result::Ok(batch)) ==> {
                &&& batch.wf()
                &&& batch.num_rows <= u32::MAX
                &&& forall|c: int|
                    0 <= c < old(self).column_indices@.len() && !(
                    #[trigger] old(self).column_indices@[c]).is_left ==> (old(
                        self,
                    ).column_indices@[c].index as int) < batch.columns@.len()
                        && batch.columns@[old(self).column_indices@[c].index as int].data_type
                        == old(self).schema.fields@[c].data_type
            },
        ensures
            final(self).wf_for(*left_data),
            final(self).schema == old(self).schema,
            final(self).on_left == old(self).on_left,
            final(self).on_right == old(self).on_right,
            final(self).join_type == old(self).join_type,
            final(self).column_indices == old(self).column_indices,
            final(self).seed == old(self).seed,
            match event {
                Option::None => {
                    if old(self).is_exhausted || old(self).join_type is Inner || old(
                        self,
                    ).join_type is Right {
                        &&& r is None
                        &&& *final(self) == *old(self)
                    } else {
                        &&& final(self).is_exhausted
                        &&& final(self).visited_left_side == old(self).visited_left_side
                        &&& r matches Option::Some(out) && out matches Result::Ok(b) && b.wf()
                            && b.schema.fields@ == old(self).schema.fields@ && b.num_rows
                            == unmatched_rows(
                            old(self).visited_left_side@,
                            old(self).visited_left_side@.len() as int,
                        ).len() && (forall|c: int, t: int|
                            0 <= c < b.columns@.len() && 0 <= t < b.num_rows ==> (
                            #[trigger] b.columns@[c].cells()[t]) == (if old(
                                self,
                            ).column_indices@[c].is_left {
                                left_data.batch.columns@[old(
                                    self,
                                ).column_indices@[c].index as int].cells()[unmatched_rows(
                                    old(self).visited_left_side@,
                                    old(self).visited_left_side@.len() as int,
                                )[t] as int]
                            } else {
                                Option::<CellModel>::None
                            }))
                    }
                },
                Option::Some(ev) => match ev {
                    Result::Err(e) => r == Option::Some(Result::<Batch, ExecError>::Err(e))
                        && *final(self) == *old(self),
                    Result::Ok(batch) => {
                        &&& final(self).is_exhausted == old(self).is_exhausted
                        &&& match r {
                            Option::Some(Result::Ok(out)) => {
                                &&& keys_compatible(
                                    left_data.batch,
                                    batch,
                                    old(self).on_left@,
                                    old(self).on_right@,
                                )
                                &&& out.wf()
                                &&& out.schema.fields@ == old(self).schema.fields@
                                &&& exists|lidx: Seq<Option<u64>>|
                                    {
                                        &&& join_outputs_shape(
                                            *old(self),
                                            *left_data,
                                            batch,
                                            out,
                                            lidx,
                                        )
                                        &&& (forall|i: int|
                                            0 <= i < final(self).visited_left_side@.len()
                                                ==> #[trigger] final(self).visited_left_side@[i]
                                                == (old(self).visited_left_side@[i] || ((old(self).join_type is Left
                                                || old(self).join_type is Full)
                                                && lidx.contains(Option::Some(i as u64)))))
                                        &&& final(self).visited_left_side@.len()
                                            == old(self).visited_left_side@.len()
                                    }
                            },
                            Option::Some(Result::Err(e)) => e is Internal && !keys_compatible(
                                left_data.batch,
                                batch,
                                old(self).on_left@,
                                old(self).on_right@,
                            ) && final(self).visited_left_side == old(self).visited_left_side,
                            Option::None => false,
                        }
                    },
                },
            },
    {
        match event {
            Option::None => {
                let emit_unmatched = match self.join_type {
                    crate::types::JoinType::Left => true,
                    crate::types::JoinType::Full => true,
                    _ => false,
                };
                if emit_unmatched && !self.is_exhausted {
                    let out = produce_unmatched(
                        &self.visited_left_side,
                        &self.schema,
                        &self.column_indices,
                        left_data,
                    );
                    self.is_exhausted = true;
                    Option::Some(Result::Ok(out))
                } else {
                    Option::None
                }
            },
            Option::Some(Result::Err(e)) => Option::Some(Result::Err(e)),
            Option::Some(Result::Ok(batch)) => {
                let res = build_batch(
                    &batch,
                    left_data,
                    &self.on_left,
                    &self.on_right,
                    self.join_type,
                    &self.schema,
                    &self.column_indices,
                    self.seed,
                );
                match res {
                    Result::Err(e) => Option::Some(Result::Err(e)),
                    Result::Ok((out, left_indices)) => {
                        proof {
                            let (lidxs, ridxs, ridx) = choose|
                                lidxs: Seq<usize>,
                                ridxs: Seq<usize>,
                                ridx: Seq<u32>,
                            |
                                {
                                    &&& #[trigger] resolve_ok(
                                        left_data.batch.schema.fields@,
                                        self.on_left@,
                                        lidxs,
                                    )
                                    &&& #[trigger] resolve_ok(
                                        batch.schema.fields@,
                                        self.on_right@,
                                        ridxs,
                                    )
                                    &&& (#[trigger] ridx.len()) == out.num_rows
                                    &&& ((self.join_type is Inner || self.join_type is Left)
                                        ==> left_indices@ == inner_lefts(
                                        selected_cols(left_data.batch, lidxs),
                                        selected_cols(batch, ridxs),
                                        left_data.batch.num_rows as int,
                                        batch.num_rows as int,
                                    ) && ridx == inner_rights(
                                        selected_cols(left_data.batch, lidxs),
                                        selected_cols(batch, ridxs),
                                        left_data.batch.num_rows as int,
                                        batch.num_rows as int,
                                    ))
                                    &&& ((self.join_type is Right || self.join_type is Full)
                                        ==> left_indices@ == rf_lefts(
                                        selected_cols(left_data.batch, lidxs),
                                        selected_cols(batch, ridxs),
                                        left_data.batch.num_rows as int,
                                        batch.num_rows as int,
                                    ) && ridx == rf_rights(
                                        selected_cols(left_data.batch, lidxs),
                                        selected_cols(batch, ridxs),
                                        left_data.batch.num_rows as int,
                                        batch.num_rows as int,
                                    ))
                                    &&& forall|c: int, t: int|
                                        0 <= c < out.columns@.len() && 0 <= t < out.num_rows
                                            ==> (#[trigger] out.columns@[c].cells()[t])
                                            == joined_cell(
                                            left_data.batch,
                                            batch,
                                            self.column_indices@,
                                            left_indices@,
                                            ridx,
                                            c,
                                            t,
                                        )
                                };
                            assert(join_outputs_shape(
                                *old(self),
                                *left_data,
                                batch,
                                out,
                                left_indices@,
                            ));
                        }
                        let mark = match self.join_type {
                            crate::types::JoinType::Left => true,
                            crate::types::JoinType::Full => true,
                            _ => false,
                        };
                        if mark {
                            let ghost old_vis = self.visited_left_side@;
                            let ghost self_pre = *self;
                            let vis_len = self.visited_left_side.len();
                            let nlidx = left_indices.len();
                            let mut t: usize = 0;
                            while t < nlidx
                                invariant
                                    t <= nlidx,
                                    nlidx == left_indices@.len(),
                                    vis_len == old_vis.len(),
                                    self.schema == self_pre.schema,
                                    self.on_left == self_pre.on_left,
                                    self.on_right == self_pre.on_right,
                                    self.join_type == self_pre.join_type,
                                    self.column_indices == self_pre.column_indices,
                                    self.seed == self_pre.seed,
                                    self.is_exhausted == self_pre.is_exhausted,
                                    self.visited_left_side@.len() == old_vis.len(),
                                    forall|tt: int|
                                        0 <= tt < left_indices@.len() && (
                                        #[trigger] left_indices@[tt]) is Some ==> ((
                                        left_indices@[tt]->0) as int) < old_vis.len(),
                                    forall|i: int|
                                        0 <= i < old_vis.len() ==> #[trigger] self.visited_left_side@[i]
                                            == (old_vis[i] || left_indices@.subrange(
                                            0,
                                            t as int,
                                        ).contains(Option::Some(i as u64))),
                                decreases nlidx - t,
                            {
                                let ghost pre_sub = left_indices@.subrange(0, t as int);
                                let ghost cur_sub = left_indices@.subrange(0, t + 1);
                                proof {
                                    assert(cur_sub.drop_last() =~= pre_sub);
                                    assert(cur_sub.last() == left_indices@[t as int]);
                                    lemma_subrange_contains_step(left_indices@, t as int);
                                }
                                match &left_indices[t] {
                                    Option::Some(i) => {
                                        proof {
                                            assert(left_indices@[t as int] == Option::Some(*i));
                                            assert(((*i) as int) < vis_len);
                                        }
                                        let ghost vis_iter = self.visited_left_side@;
                                        self.visited_left_side.set(*i as usize, true);
                                        proof {
                                            assert forall|i2: int|
                                                0 <= i2 < old_vis.len() implies
                                                #[trigger] self.visited_left_side@[i2] == (
                                            old_vis[i2] || cur_sub.contains(
                                                Option::Some(i2 as u64),
                                            )) by {
                                                if i2 == (*i) as int {
                                                    assert(self.visited_left_side@[i2]);
                                                    assert(cur_sub[cur_sub.len() - 1]
                                                        == Option::Some(*i));
                                                    assert(cur_sub.contains(Option::Some(*i)));
                                                } else {
                                                    assert(self.visited_left_side@[i2]
                                                        == vis_iter[i2]);
                                                    assert(vis_iter[i2] == (old_vis[i2]
                                                        || pre_sub.contains(
                                                        Option::Some(i2 as u64),
                                                    )));
                                                    assert(Option::Some(i2 as u64)
                                                        != left_indices@[t as int]);
                                                }
                                            }
                                        }
                                    },
                                    Option::None => {
                                        proof {
                                            assert forall|i2: int|
                                                0 <= i2 < old_vis.len() implies
                                                #[trigger] self.visited_left_side@[i2] == (
                                            old_vis[i2] || cur_sub.contains(
                                                Option::Some(i2 as u64),
                                            )) by {}
                                        }
                                    },
                                }
                                t = t + 1;
                            }
                            proof {
                                assert(left_indices@.subrange(0, nlidx as int) =~= left_indices@);
                            }
                        }
                        proof {
                            assert(join_outputs_shape(
                                *old(self),
                                *left_data,
                                batch,
                                out,
                                left_indices@,
                            ) && (forall|i: int|
                                0 <= i < self.visited_left_side@.len()
                                    ==> #[trigger] self.visited_left_side@[i] == (old(
                                    self,
                                ).visited_left_side@[i] || ((old(self).join_type is Left || old(
                                    self,
                                ).join_type is Full) && left_indices@.contains(
                                    Option::Some(i as u64),
                                )))) && self.visited_left_side@.len() == old(
                                self,
                            ).visited_left_side@.len());
                        }
                        Option::Some(Result::Ok(out))
                    },
                }
            },
        }
    }
}

/// The join output of one probe batch, as seen by the stream: the
/// build-side index column together with the probe-side one fixed by
/// the join type determines every output cell.
pub open spec fn join_outputs_shape(
    st: HashJoinStream,
    left_data: JoinLeftData,
    batch: Batch,
    out: Batch,
    lidx: Seq<Option<u64>>,
) -> bool {
    &&& out.num_rows == lidx.len()
    &&& forall|t: int|
        0 <= t < lidx.len() && (#[trigger] lidx[t]) is Some ==> ((lidx[t]->0) as int)
            < left_data.batch.num_rows
    &&& exists|lidxs: Seq<usize>, ridxs: Seq<usize>, ridx: Seq<u32>|
        {
            &&& #[trigger] resolve_ok(left_data.batch.schema.fields@, st.on_left@, lidxs)
            &&& #[trigger] resolve_ok(batch.schema.fields@, st.on_right@, ridxs)
            &&& (#[trigger] ridx.len()) == out.num_rows
            &&& ((st.join_type is Inner || st.join_type is Left) ==> lidx == inner_lefts(
                #[trigger] selected_cols(left_data.batch, lidxs),
                #[trigger] selected_cols(batch, ridxs),
                left_data.batch.num_rows as int,
                batch.num_rows as int,
            ) && ridx == inner_rights(
                selected_cols(left_data.batch, lidxs),
                selected_cols(batch, ridxs),
                left_data.batch.num_rows as int,
                batch.num_rows as int,
            ))
            &&& ((st.join_type is Right || st.join_type is Full) ==> lidx == rf_lefts(
                selected_cols(left_data.batch, lidxs),
                selected_cols(batch, ridxs),
                left_data.batch.num_rows as int,
                batch.num_rows as int,
            ) && ridx == rf_rights(
                selected_cols(left_data.batch, lidxs),
                selected_cols(batch, ridxs),
                left_data.batch.num_rows as int,
                batch.num_rows as int,
            ))
            &&& forall|c: int, t: int|
                0 <= c < out.columns@.len() && 0 <= t < out.num_rows ==> (
                #[trigger] out.columns@[c].cells()[t]) == joined_cell(
                    left_data.batch,
                    batch,
                    st.column_indices@,
                    lidx,
                    ridx,
                    c,
                    t,
                )
        }
}

/// Extending a prefix of the index column by one entry extends what
/// it contains by that entry alone.
proof fn lemma_subrange_contains_step(s: Seq<Option<u64>>, t: int)
    requires
        0 <= t < s.len(),
    ensures
        forall|x: Option<u64>|
            s.subrange(0, t + 1).contains(x) <==> (s.subrange(0, t).contains(x) || s[t] == x),
{
    assert forall|x: Option<u64>|
        s.subrange(0, t + 1).contains(x) <==> (s.subrange(0, t).contains(x) || s[t] == x) by {
        let a = s.subrange(0, t);
        let b = s.subrange(0, t + 1);
        if b.contains(x) {
            let q = choose|q: int| 0 <= q < b.len() && b[q] == x;
            if q < t {
                assert(a[q] == x);
            } else {
                assert(s[t] == x);
            }
        }
        if a.contains(x) {
            let q = choose|q: int| 0 <= q < a.len() && a[q] == x;
            assert(b[q] == x);
        }
        if s[t] == x {
            assert(b[t] == x);
        }
    }
}

/// Hash-collision safety: probing any two sound indexes over the same
/// build columns, however their buckets came out, keeps exactly the
/// same value matches. Forcing every row into one bucket cannot
/// change the join output: the output formulas of all four join
/// types are stated over the value matches alone.
pub proof fn lemma_collision_safety(
    idx1: JoinIndex,
    idx2: JoinIndex,
    lcols: Seq<Column>,
    rcols: Seq<Column>,
    nl: int,
    j: int,
    seed: u64,
)
    requires
        index_sound(idx1, lcols, nl, seed),
        index_sound(idx2, lcols, nl, seed),
        lcols.len() == rcols.len(),
        forall|k: int|
            0 <= k < lcols.len() ==> (#[trigger] lcols[k]).data_type == rcols[k].data_type,
        nl <= u64::MAX,
    ensures
        filter_matched(idx1.rows_of(row_hash(rcols, j, seed)), lcols, rcols, j) == filter_matched(
            idx2.rows_of(row_hash(rcols, j, seed)),
            lcols,
            rcols,
            j,
        ),
{
    lemma_bucket_filter_is_matched(idx1, lcols, rcols, nl, j, seed);
    lemma_bucket_filter_is_matched(idx2, lcols, rcols, nl, j, seed);
}

/// The inner-join halves always pair up.
pub proof fn lemma_inner_outs_len(lcols: Seq<Column>, rcols: Seq<Column>, nl: int, j: int)
    ensures
        inner_lefts(lcols, rcols, nl, j).len() == inner_rights(lcols, rcols, nl, j).len(),
    decreases j,
{
    if j > 0 {
        lemma_inner_outs_len(lcols, rcols, nl, j - 1);
    }
}

/// Join symmetry for inner joins: the emitted pairs are exactly the
/// pairs of rows with equal, non-null key values — the natural join.
pub proof fn lemma_inner_join_pairs(
    lcols: Seq<Column>,
    rcols: Seq<Column>,
    nl: int,
    nr: int,
    i: u64,
    j: u32,
)
    requires
        0 <= nl <= u64::MAX,
        0 <= nr <= u32::MAX,
    ensures
        (exists|t: int|
            0 <= t < inner_lefts(lcols, rcols, nl, nr).len() && inner_lefts(lcols, rcols, nl, nr)[t]
                == Option::Some(i) && #[trigger] inner_rights(lcols, rcols, nl, nr)[t] == j) <==> ((
        i as int) < nl && (j as int) < nr && rows_match(lcols, i as int, rcols, j as int)),
    decreases nr,
{
    lemma_inner_outs_len(lcols, rcols, nl, nr);
    if nr > 0 {
        lemma_inner_join_pairs(lcols, rcols, nl, nr - 1, i, j);
        lemma_inner_outs_len(lcols, rcols, nl, nr - 1);
        lemma_matched_rows_props(lcols, rcols, nl, nr - 1);
        let pl = inner_lefts(lcols, rcols, nl, nr - 1);
        let pr = inner_rights(lcols, rcols, nl, nr - 1);
        let m = matched_rows(lcols, rcols, nl, nr - 1);
        let cl = inner_lefts(lcols, rcols, nl, nr);
        let cr = inner_rights(lcols, rcols, nl, nr);
        assert(cl == pl + m.map_values(|x: u64| Option::Some(x)));
        assert(cr == pr + Seq::new(m.len(), |t: int| (nr - 1) as u32));
        if exists|t: int|
            0 <= t < cl.len() && cl[t] == Option::Some(i) && #[trigger] cr[t] == j {
            let t = choose|t: int|
                0 <= t < cl.len() && cl[t] == Option::Some(i) && #[trigger] cr[t] == j;
            if t < pl.len() {
                assert(pl[t] == Option::Some(i) && pr[t] == j);
            } else {
                assert(cr[t] == (nr - 1) as u32);
                assert(cl[t] == m.map_values(|x: u64| Option::Some(x))[t - pl.len()]);
                assert(m[t - pl.len()] == i);
                assert(m.contains(i));
            }
        }
        if (i as int) < nl && (j as int) < nr && rows_match(lcols, i as int, rcols, j as int) {
            if (j as int) < nr - 1 {
                let t = choose|t: int|
                    0 <= t < pl.len() && pl[t] == Option::Some(i) && #[trigger] pr[t] == j;
                assert(cl[t] == Option::Some(i) && cr[t] == j);
            } else {
                assert(m.contains(i));
                let q = choose|q: int| 0 <= q < m.len() && m[q] == i;
                let t = pl.len() + q;
                assert(cl[t] == Option::Some(i));
                assert(cr[t] == j);
            }
        }
    }
}

/// The unmatched build rows come out strictly ascending, so each
/// appears exactly once in the trailing batch of a left or full join.
pub proof fn lemma_unmatched_rows_distinct(visited: Seq<bool>, n: int)
    requires
        0 <= n <= u64::MAX,
    ensures
        sorted_strict(unmatched_rows(visited, n)),
        forall|e: u64|
            unmatched_rows(visited, n).contains(e) <==> ((e as int) < n && !visited[e as int]),
    decreases n,
{
    if n > 0 {
        lemma_unmatched_rows_distinct(visited, n - 1);
        lemma_unmatched_rows_bounds(visited, n - 1);
        let p = unmatched_rows(visited, n - 1);
        let cur = unmatched_rows(visited, n);
        if !visited[n - 1] {
            assert(cur == p.push((n - 1) as u64));
            assert forall|t1: int, t2: int| 0 <= t1 < t2 < cur.len() implies cur[t1]
                < cur[t2] by {
                if t2 == cur.len() - 1 {
                    assert(cur[t1] == p[t1]);
                    assert((p[t1] as int) < n - 1);
                }
            }
            assert forall|e: u64| cur.contains(e) implies ((e as int) < n && !visited[e as int]) by {
                let t = choose|t: int| 0 <= t < cur.len() && cur[t] == e;
                if t < p.len() {
                    assert(p.contains(e));
                }
            }
            assert forall|e: u64| (e as int) < n && !visited[e as int] implies cur.contains(e) by {
                if (e as int) < n - 1 {
                    assert(p.contains(e));
                    let t = choose|t: int| 0 <= t < p.len() && p[t] == e;
                    assert(cur[t] == e);
                } else {
                    assert(cur[cur.len() - 1] == e);
                }
            }
        } else {
            assert(cur == p);
            assert forall|e: u64| cur.contains(e) implies ((e as int) < n && !visited[e as int]) by {
                assert(p.contains(e));
            }
        }
    }
}

/// Join symmetry for right and full joins: a probe row that matches
/// no build row contributes exactly one null-padded output row, and
/// one that matches contributes exactly its matches — whatever the
/// index's buckets held.
pub proof fn lemma_right_full_unmatched_once(
    lcols: Seq<Column>,
    rcols: Seq<Column>,
    nl: int,
    j: int,
)
    ensures
        matched_rows(lcols, rcols, nl, j).len() == 0 ==> rf_row_lefts(lcols, rcols, nl, j)
            == seq![Option::<u64>::None],
        matched_rows(lcols, rcols, nl, j).len() > 0 ==> rf_row_lefts(lcols, rcols, nl, j)
            == matched_rows(lcols, rcols, nl, j).map_values(|x: u64| Option::Some(x)),
{
}

} // verus!
