//! Grouping aggregate with row-format aggregation states inside: an
//! in-memory hash index from group-key fingerprint to a per-group
//! state buffer. Group identity is the compact encoding of a row's
//! grouping values; the table stores only hashes and group positions,
//! and equality dereferences the stored key bytes. Once the input is
//! drained, the groups come out in first-appearance order, paged into
//! batches of the configured size.

use std::collections::HashMap;

use vstd::prelude::*;

use crate::accum::{agg_fold, agg_zero, slot_state, AggregateFunc};
use crate::hashing::fingerprint_of;
use crate::memory::{AggregationStateMemoryConsumer, ShortLivedMemoryPool};
use crate::rowcodec::{col_types, compact_row, decode_row, row_cells};
use crate::types::{AggregateMode, Batch, CellModel, DataType, ExecError, Field, Schema};

verus! {

/// What the accounting charges for one group-state entry when the
/// group vector doubles: the three vector headers of a group state.
pub const GROUP_STATE_ENTRY_BYTES: usize = 72;

/// What the accounting charges for one table entry when the table
/// doubles: a hash and a group position.
pub const TABLE_ENTRY_BYTES: usize = 16;

/// The state that is built for each output group.
pub struct RowGroupState {
    /// The actual group by values, stored sequentially in the
    /// compact layout.
    pub group_by_values: Vec<u8>,
    /// Accumulator states, stored sequentially in the word-aligned
    /// layout.
    pub aggregation_buffer: Vec<u8>,
    /// Scratch space collecting this group's row positions in the
    /// batch at hand; cleared after each batch.
    pub indices: Vec<u32>,
    /// The accounted capacity of the scratch space.
    pub indices_cap: usize,
}

/// One consumed input row, as the ghost history keeps it: the encoded
/// group key and the aggregate input cells, one per aggregate.
pub type ConsumedRow = (Seq<u8>, Seq<Option<CellModel>>);

/// The first-appearance sequence of distinct keys of a row history.
pub open spec fn distinct_keys(rows: Seq<ConsumedRow>) -> Seq<Seq<u8>>
    decreases rows.len(),
{
    if rows.len() == 0 {
        Seq::empty()
    } else {
        let p = distinct_keys(rows.drop_last());
        if p.contains(rows.last().0) {
            p
        } else {
            p.push(rows.last().0)
        }
    }
}

/// The aggregate-`a` input cells of the rows carrying `key`, oldest
/// first.
pub open spec fn rows_for_key(rows: Seq<ConsumedRow>, key: Seq<u8>, a: int) -> Seq<
    Option<CellModel>,
>
    decreases rows.len(),
{
    if rows.len() == 0 {
        Seq::empty()
    } else {
        let p = rows_for_key(rows.drop_last(), key, a);
        if rows.last().0 == key {
            p.push(rows.last().1[a])
        } else {
            p
        }
    }
}

/// Grouping aggregate over one input stream partition.
pub struct GroupedHashAggregateStreamV2 {
    /// Whether inputs are raw values or partial states.
    pub mode: AggregateMode,
    /// The grouping columns: their names resolve in each input batch,
    /// their types fix the compact key layout.
    pub group_schema: Schema,
    /// The aggregate functions, in output order.
    pub aggregates: Vec<AggregateFunc>,
    /// The input column feeding each aggregate, by name.
    pub aggr_names: Vec<String>,
    /// Size to be used for resulting record batches.
    pub batch_size: usize,
    /// Last output offset, preserved for continuation.
    pub row_group_skip_position: usize,
    /// Logically maps group-key hashes to positions in `group_states`;
    /// the keys themselves stay in the group states.
    pub map: HashMap<u64, Vec<usize>>,
    /// The accounted capacity of the table.
    pub map_cap: usize,
    /// State for each group, in first-appearance order.
    pub group_states: Vec<RowGroupState>,
    /// The accounted capacity of the group vector.
    pub groups_cap: usize,
    /// The memory accounting identity of this operator.
    pub memory_consumer: AggregationStateMemoryConsumer,
    /// The hash seed.
    pub seed: u64,
    /// Every row consumed so far: the model the state is held to.
    pub history: Ghost<Seq<ConsumedRow>>,
}

impl GroupedHashAggregateStreamV2 {
    /// The group positions filed under hash `h`.
    pub open spec fn groups_of(&self, h: u64) -> Seq<usize> {
        if self.map@.contains_key(h) {
            self.map@[h]@
        } else {
            Seq::empty()
        }
    }

    /// The encoded keys of the groups, in creation order.
    pub open spec fn keys(&self) -> Seq<Seq<u8>> {
        self.group_states@.map_values(|g: RowGroupState| g.group_by_values@)
    }

    /// The data types of the grouping columns.
    pub open spec fn group_dts(&self) -> Seq<DataType> {
        self.group_schema.fields@.map_values(|f: Field| f.data_type)
    }

    /// Whether the aggregation folds merge steps instead of updates.
    pub open spec fn is_merge(&self) -> bool {
        !(self.mode is Partial)
    }

    /// The bytes attributed to the live aggregation state: every
    /// group's key, state buffer and scratch capacity, plus the
    /// accounted capacities of the group vector and the table.
    pub open spec fn attributed(&self) -> int {
        attributed_groups(self.group_states@, self.group_states@.len() as int)
            + self.groups_cap * GROUP_STATE_ENTRY_BYTES + self.map_cap * TABLE_ENTRY_BYTES
    }

    /// The hash table is consistent with the group states.
    pub open spec fn table_ok(&self) -> bool {
        &&& forall|h: u64, t: int|
            0 <= t < self.groups_of(h).len() ==> ((#[trigger] self.groups_of(h)[t]) as int)
                < self.keys().len() && fingerprint_of(
                self.seed,
                self.keys()[self.groups_of(h)[t] as int],
            ) == h
        &&& forall|g: int|
            0 <= g < self.keys().len() ==> (#[trigger] self.groups_of(
                fingerprint_of(self.seed, self.keys()[g]),
            )).contains(g as usize)
    }

    /// The whole operator invariant: the table finds every group, the
    /// keys are the distinct keys of the history in first-appearance
    /// order, every state buffer holds the fold of its group's rows,
    /// and the memory accounting covers the live state.
    pub open spec fn wf(&self) -> bool {
        &&& self.table_ok()
        &&& self.aggregates@.len() == self.aggr_names@.len()
        &&& 16 * self.aggregates@.len() <= usize::MAX
        &&& self.keys() == distinct_keys(self.history@)
        &&& forall|g1: int, g2: int|
            0 <= g1 < g2 < self.keys().len() ==> (#[trigger] self.keys()[g1]) != (
            #[trigger] self.keys()[g2])
        &&& forall|g: int|
            0 <= g < self.group_states@.len() ==> (
            #[trigger] self.group_states@[g]).aggregation_buffer@.len() == 16
                * self.aggregates@.len()
        &&& forall|g: int|
            0 <= g < self.group_states@.len() ==> (#[trigger] self.group_states@[g]).indices@.len()
                == 0 && self.group_states@[g].indices_cap >= 1
        &&& forall|g: int, a: int|
            0 <= g < self.group_states@.len() && 0 <= a < self.aggregates@.len()
                ==> #[trigger] slot_state(self.group_states@[g].aggregation_buffer@, a)
                == agg_fold(
                self.aggregates@[a],
                self.is_merge(),
                agg_zero(),
                rows_for_key(self.history@, self.keys()[g], a),
            )
        &&& forall|g: int|
            0 <= g < self.group_states@.len() ==> decode_row(
                self.group_dts(),
                (#[trigger] self.group_states@[g]).group_by_values@,
            ) is Some
        &&& self.memory_consumer.balanced()
        &&& self.memory_consumer.used >= self.attributed()
        &&& self.group_states@.len() <= self.groups_cap
        &&& self.group_states@.len() <= self.map_cap
    }

    /// Create a new grouped aggregation stream state. The aggregates
    /// and their input columns pair up.
    pub fn new(
        mode: AggregateMode,
        group_schema: Schema,
        aggregates: Vec<AggregateFunc>,
        aggr_names: Vec<String>,
        batch_size: usize,
        memory_limit: usize,
        seed: u64,
    ) -> (r: Result<GroupedHashAggregateStreamV2, ExecError>)
        ensures
            match r {
                Result::Ok(s) => {
                    &&& s.wf()
                    &&& s.history@ == Seq::<ConsumedRow>::empty()
                    &&& s.group_states@.len() == 0
                    &&& s.mode == mode
                    &&& s.group_schema == group_schema
                    &&& s.aggregates@ == aggregates@
                    &&& s.aggr_names@ == aggr_names@
                    &&& s.batch_size == batch_size
                    &&& s.row_group_skip_position == 0
                    &&& s.seed == seed
                    &&& s.memory_consumer.used == 0
                    &&& s.memory_consumer.limit == memory_limit
                },
                Result::Err(e) => e is Internal && (aggregates@.len() != aggr_names@.len() || 16
                    * aggregates@.len() > usize::MAX),
            },
    {
        if aggregates.len() != aggr_names.len() {
            return Result::Err(ExecError::Internal);
        }
        if aggregates.len() > usize::MAX / 16 {
            return Result::Err(ExecError::Internal);
        }
        proof {
            assert(aggregates@.len() == aggr_names@.len());
        }
        let r = GroupedHashAggregateStreamV2 {
            mode,
            group_schema,
            aggregates,
            aggr_names,
            batch_size,
            row_group_skip_position: 0,
            map: HashMap::new(),
            map_cap: 0,
            group_states: Vec::new(),
            groups_cap: 0,
            memory_consumer: AggregationStateMemoryConsumer::new(memory_limit),
            seed,
            history: Ghost(Seq::empty()),
        };
        proof {
            assert(r.keys() =~= Seq::<Seq<u8>>::empty());
            assert(r.keys() == distinct_keys(r.history@));
            assert forall|h: u64, t: int| 0 <= t < r.groups_of(h).len() implies ((
            #[trigger] r.groups_of(h)[t]) as int) < r.keys().len() && fingerprint_of(
                r.seed,
                r.keys()[r.groups_of(h)[t] as int],
            ) == h by {
                assert(!r.map@.contains_key(h));
            }
            assert(r.attributed() == 0);
        }
        Result::Ok(r)
    }
}

/// The bytes one live group is charged for: its key, its state
/// buffer, and its scratch capacity.
pub open spec fn entry_bytes(st: RowGroupState) -> int {
    st.group_by_values@.len() + st.aggregation_buffer@.len() + 4 * st.indices_cap
}

/// The bytes attributed to the first `k` group states.
pub open spec fn attributed_groups(gs: Seq<RowGroupState>, k: int) -> int
    decreases k,
{
    if k <= 0 {
        0
    } else {
        attributed_groups(gs, k - 1) + entry_bytes(gs[k - 1])
    }
}

/// Replacing one group state moves the attribution by the entry
/// difference.
pub proof fn lemma_attributed_update(gs: Seq<RowGroupState>, g: int, x: RowGroupState, k: int)
    requires
        0 <= g < gs.len(),
        k <= gs.len(),
    ensures
        attributed_groups(gs.update(g, x), k) == attributed_groups(gs, k) + (if g < k {
            entry_bytes(x) - entry_bytes(gs[g])
        } else {
            0
        }),
    decreases k,
{
    if k > 0 {
        lemma_attributed_update(gs, g, x, k - 1);
    }
}

/// Appending a group state adds its entry.
pub proof fn lemma_attributed_push(gs: Seq<RowGroupState>, x: RowGroupState, k: int)
    requires
        k <= gs.len(),
    ensures
        attributed_groups(gs.push(x), k) == attributed_groups(gs, k),
        attributed_groups(gs.push(x), gs.len() as int + 1) == attributed_groups(gs, gs.len() as int)
            + entry_bytes(x),
    decreases k + 1,
{
    lemma_attributed_push_aux(gs, x, k);
    lemma_attributed_push_aux(gs, x, gs.len() as int);
}

proof fn lemma_attributed_push_aux(gs: Seq<RowGroupState>, x: RowGroupState, k: int)
    requires
        k <= gs.len(),
    ensures
        attributed_groups(gs.push(x), k) == attributed_groups(gs, k),
    decreases k,
{
    if k > 0 {
        lemma_attributed_push_aux(gs, x, k - 1);
    }
}

/// First-appearance keys only grow as rows are appended.
pub proof fn lemma_distinct_keys_monotone(h: Seq<ConsumedRow>, b: Seq<ConsumedRow>)
    ensures
        forall|k: Seq<u8>|
            distinct_keys(h).contains(k) ==> #[trigger] distinct_keys(h + b).contains(k),
    decreases b.len(),
{
    if b.len() == 0 {
        assert(h + b =~= h);
    } else {
        lemma_distinct_keys_monotone(h, b.drop_last());
        assert((h + b).drop_last() =~= h + b.drop_last());
        let p = distinct_keys(h + b.drop_last());
        let cur = distinct_keys(h + b);
        assert forall|k: Seq<u8>| distinct_keys(h).contains(k) implies #[trigger] cur.contains(
            k,
        ) by {
            assert(p.contains(k));
            let t = choose|t: int| 0 <= t < p.len() && p[t] == k;
            if p.contains((h + b).last().0) {
                assert(cur[t] == k);
            } else {
                assert(cur[t] == k);
            }
        }
    }
}

/// Every consumed row's key is among the first-appearance keys.
pub proof fn lemma_distinct_keys_covers(rows: Seq<ConsumedRow>)
    ensures
        forall|i: int|
            0 <= i < rows.len() ==> distinct_keys(rows).contains((#[trigger] rows[i]).0),
    decreases rows.len(),
{
    if rows.len() > 0 {
        lemma_distinct_keys_covers(rows.drop_last());
        let p = distinct_keys(rows.drop_last());
        let cur = distinct_keys(rows);
        assert forall|i: int| 0 <= i < rows.len() implies cur.contains((#[trigger] rows[i]).0) by {
            if i < rows.len() - 1 {
                assert(rows.drop_last()[i] == rows[i]);
                assert(p.contains(rows[i].0));
                let t = choose|t: int| 0 <= t < p.len() && p[t] == rows[i].0;
                if p.contains(rows.last().0) {
                    assert(cur[t] == rows[i].0);
                } else {
                    assert(cur[t] == rows[i].0);
                }
            } else {
                if p.contains(rows.last().0) {
                    let t = choose|t: int| 0 <= t < p.len() && p[t] == rows.last().0;
                    assert(cur[t] == rows[i].0);
                } else {
                    assert(cur[cur.len() - 1] == rows[i].0);
                }
            }
        }
    }
}

/// A position is listed exactly when its row carries the key.
pub proof fn lemma_key_positions_membership(krows: Seq<Seq<u8>>, key: Seq<u8>, r: int)
    requires
        0 <= r <= u32::MAX,
    ensures
        forall|x: u32|
            #![trigger key_positions(krows, key, r).contains(x)]
            key_positions(krows, key, r).contains(x) <==> ((x as int) < r && krows[x as int]
                == key),
    decreases r,
{
    if r > 0 {
        lemma_key_positions_membership(krows, key, r - 1);
        let p = key_positions(krows, key, r - 1);
        let cur = key_positions(krows, key, r);
        assert forall|x: u32| cur.contains(x) implies ((x as int) < r && krows[x as int]
            == key) by {
            let t = choose|t: int| 0 <= t < cur.len() && cur[t] == x;
            if krows[r - 1] == key {
                if t < p.len() {
                    assert(p[t] == x);
                    assert(p.contains(x));
                    assert((x as int) < r - 1 && krows[x as int] == key);
                } else {
                    assert(cur[t] == (r - 1) as u32);
                    assert((x as int) == r - 1);
                }
            } else {
                assert(p[t] == x);
                assert(p.contains(x));
                assert((x as int) < r - 1 && krows[x as int] == key);
            }
        }
        assert forall|x: u32| (x as int) < r && krows[x as int] == key implies cur.contains(
            x,
        ) by {
            if (x as int) < r - 1 {
                assert(p.contains(x));
                let t = choose|t: int| 0 <= t < p.len() && p[t] == x;
                assert(cur[t] == x);
            } else {
                assert((x as int) == r - 1);
                assert(krows[r - 1] == key);
                assert(cur[cur.len() - 1] == (r - 1) as u32);
                assert(cur[cur.len() - 1] == x);
            }
        }
    }
}

/// The compact key length of row `r` of a batch under the resolved
/// grouping columns.
pub open spec fn row_key_len(batch: Batch, gidxs: Seq<usize>, r: int) -> int {
    compact_row(
        col_types(crate::join::selected_cols(batch, gidxs)),
        row_cells(crate::join::selected_cols(batch, gidxs), r),
    ).len() as int
}

/// The compact key bytes of the first `k` rows of a batch.
pub open spec fn batch_key_bytes(batch: Batch, gidxs: Seq<usize>, k: int) -> int
    decreases k,
{
    if k <= 0 {
        0
    } else {
        batch_key_bytes(batch, gidxs, k - 1) + row_key_len(batch, gidxs, k - 1)
    }
}

/// Key bytes only accumulate.
pub proof fn lemma_batch_key_bytes_mono(batch: Batch, gidxs: Seq<usize>, a: int, b: int)
    requires
        a <= b,
    ensures
        batch_key_bytes(batch, gidxs, a) <= batch_key_bytes(batch, gidxs, b),
    decreases b - a,
{
    if a < b {
        lemma_batch_key_bytes_mono(batch, gidxs, a, b - 1);
    }
}

/// A bound no accounted capacity outgrows while one batch of `n`
/// rows is consumed: doubling from a length of at most `len + n`
/// never exceeds it.
pub open spec fn cap_ceiling(cap: int, len: int, n: int) -> int {
    if cap > 3 * (len + n) + 16 {
        cap
    } else {
        3 * (len + n) + 16
    }
}

/// What consuming one row can cost the budget, at worst: its key,
/// its state slots, the scratch and container doublings, and one
/// block of pool rounding.
pub open spec fn row_cost(
    s: GroupedHashAggregateStreamV2,
    batch: Batch,
    gidxs: Seq<usize>,
    r: int,
) -> int {
    row_key_len(batch, gidxs, r) + 16 * s.aggregates@.len() + 4 + (2 * s.groups_cap + 16)
        * GROUP_STATE_ENTRY_BYTES + (2 * s.map_cap + 16) * TABLE_ENTRY_BYTES + 8 * batch.num_rows
        + 8 + 0x100000
}

/// The per-row overhead of `row_cost`, with every capacity taken at
/// its ceiling.
pub open spec fn row_ceiling(s: GroupedHashAggregateStreamV2, batch: Batch) -> int {
    let n = batch.num_rows as int;
    16 * s.aggregates@.len() + 4 + (2 * cap_ceiling(
        s.groups_cap as int,
        s.group_states@.len() as int,
        n,
    ) + 16) * GROUP_STATE_ENTRY_BYTES + (2 * cap_ceiling(
        s.map_cap as int,
        s.group_states@.len() as int,
        n,
    ) + 16) * TABLE_ENTRY_BYTES + 8 * n + 8 + 0x100000
}

/// What consuming a whole batch can cost the budget, at worst. A
/// resources-exhausted error is owed only when the budget cannot
/// cover this bound on top of what is already used.
pub open spec fn batch_budget(
    s: GroupedHashAggregateStreamV2,
    batch: Batch,
    gidxs: Seq<usize>,
) -> int {
    batch_key_bytes(batch, gidxs, batch.num_rows as int) + (batch.num_rows as int) * row_ceiling(
        s,
        batch,
    )
}

/// The running state of one batch's first phase: the operator after
/// filing the first `row` rows, with the touched groups and the pool.
pub open spec fn ingest_inv(
    s: GroupedHashAggregateStreamV2,
    old_self: GroupedHashAggregateStreamV2,
    old_hist: Seq<ConsumedRow>,
    batch: Batch,
    gidxs: Seq<usize>,
    aidxs: Seq<usize>,
    krows: Seq<Seq<u8>>,
    gwr: Seq<usize>,
    pl: ShortLivedMemoryPool,
    row: int,
) -> bool {
    &&& s.mode == old_self.mode
    &&& s.group_schema == old_self.group_schema
    &&& s.aggregates == old_self.aggregates
    &&& s.aggr_names == old_self.aggr_names
    &&& s.batch_size == old_self.batch_size
    &&& s.seed == old_self.seed
    &&& s.row_group_skip_position == old_self.row_group_skip_position
    &&& s.history@ == old_hist
    &&& s.memory_consumer.limit == old_self.memory_consumer.limit
    &&& s.table_ok()
    &&& s.aggregates@.len() == s.aggr_names@.len()
    &&& 16 * s.aggregates@.len() <= usize::MAX
    &&& s.keys() == distinct_keys(old_hist + batch_rows(batch, gidxs, aidxs, row))
    &&& (forall|g1: int, g2: int|
        0 <= g1 < g2 < s.keys().len() ==> (#[trigger] s.keys()[g1]) != (#[trigger] s.keys()[g2]))
    &&& (forall|g: int|
        0 <= g < s.group_states@.len() ==> (
        #[trigger] s.group_states@[g]).aggregation_buffer@.len() == 16 * s.aggregates@.len())
    &&& (forall|g: int, a: int|
        0 <= g < s.group_states@.len() && 0 <= a < s.aggregates@.len() ==> #[trigger] slot_state(
            s.group_states@[g].aggregation_buffer@,
            a,
        ) == agg_fold(
            s.aggregates@[a],
            s.is_merge(),
            agg_zero(),
            rows_for_key(old_hist, s.keys()[g], a),
        ))
    &&& (forall|g: int|
        0 <= g < s.group_states@.len() ==> decode_row(
            s.group_dts(),
            (#[trigger] s.group_states@[g]).group_by_values@,
        ) is Some)
    &&& (forall|g: int|
        0 <= g < s.group_states@.len() ==> (#[trigger] s.group_states@[g]).indices@
            == key_positions(krows, s.keys()[g], row) && s.group_states@[g].indices_cap >= 1
            && s.group_states@[g].indices@.len() <= s.group_states@[g].indices_cap)
    &&& (forall|p: int|
        0 <= p < gwr.len() ==> ((#[trigger] gwr[p]) as int) < s.group_states@.len())
    &&& (forall|p1: int, p2: int|
        0 <= p1 < p2 < gwr.len() ==> (#[trigger] gwr[p1]) != (#[trigger] gwr[p2]))
    &&& (forall|g: int|
        0 <= g < s.group_states@.len() ==> ((#[trigger] s.group_states@[g]).indices@.len() > 0
            <==> gwr.contains(g as usize)))
    &&& s.memory_consumer.balanced()
    &&& s.memory_consumer.used - pl.remaining >= s.attributed()
    &&& pl.remaining <= s.memory_consumer.used
    &&& pl.block_size == 0x100000
    &&& s.group_states@.len() <= s.groups_cap
    &&& s.group_states@.len() <= s.map_cap
}

impl GroupedHashAggregateStreamV2 {

    /// Opens a new group for a key not seen before: clones the key,
    /// zeroes a state buffer, accounts the whole memory delta in one
    /// request, and files the group under its hash.
    #[verifier::rlimit(100)]
    fn ingest_new_group(
        &mut self,
        groups_with_rows: &mut Vec<usize>,
        pool: &mut ShortLivedMemoryPool,
        batch: &Batch,
        group_rows: &Vec<Vec<u8>>,
        h: u64,
        row: usize,
        Ghost(old_self): Ghost<GroupedHashAggregateStreamV2>,
        Ghost(old_hist): Ghost<Seq<ConsumedRow>>,
        Ghost(gidxs): Ghost<Seq<usize>>,
        Ghost(aidxs): Ghost<Seq<usize>>,
        Ghost(krows): Ghost<Seq<Seq<u8>>>,
    ) -> (r: Result<(), ExecError>)
        requires
            ingest_inv(
                *old(self),
                old_self,
                old_hist,
                *batch,
                gidxs,
                aidxs,
                krows,
                old(groups_with_rows)@,
                *old(pool),
                row as int,
            ),
            (row as int) < batch.num_rows,
            batch.num_rows <= u32::MAX,
            16 * batch.num_rows + 1024 <= usize::MAX,
            group_rows@.len() == batch.num_rows,
            krows == Seq::new(batch.num_rows as nat, |i: int| group_rows@[i]@),
            h == fingerprint_of(old_self.seed, group_rows@[row as int]@),
            forall|i: int|
                0 <= i < batch.num_rows ==> #[trigger] krows[i] == batch_row(
                    *batch,
                    gidxs,
                    aidxs,
                    i,
                ).0,
            forall|i: int|
                0 <= i < batch.num_rows ==> decode_row(
                    old_self.group_dts(),
                    (#[trigger] group_rows@[i])@,
                ) is Some,
            !old(self).keys().contains(group_rows@[row as int]@),
        ensures
            match r {
                Result::Ok(()) => ingest_inv(
                    *final(self),
                    old_self,
                    old_hist,
                    *batch,
                    gidxs,
                    aidxs,
                    krows,
                    final(groups_with_rows)@,
                    *final(pool),
                    row + 1,
                ),
                Result::Err(e) => e is ResourcesExhausted
                    && final(self).memory_consumer.balanced()
                    && final(self).mode == old_self.mode
                    && final(self).group_schema == old_self.group_schema
                    && final(self).aggregates == old_self.aggregates
                    && final(self).aggr_names == old_self.aggr_names
                    && final(self).batch_size == old_self.batch_size
                    && final(self).seed == old_self.seed
                    && final(self).row_group_skip_position == old_self.row_group_skip_position
                    && final(self).memory_consumer.limit == old_self.memory_consumer.limit
                    && old(self).memory_consumer.limit < old(self).memory_consumer.used
                    + row_cost(*old(self), *batch, gidxs, row as int),
            },
            r is Ok ==> final(self).memory_consumer.used <= old(self).memory_consumer.used
                + row_cost(*old(self), *batch, gidxs, row as int),
            r is Ok ==> final(self).group_states@.len() <= old(self).group_states@.len() + 1,
            r is Ok ==> (final(self).groups_cap == old(self).groups_cap || final(self).groups_cap
                <= 3 * old(self).group_states@.len() + 16),
            r is Ok ==> (final(self).map_cap == old(self).map_cap || final(self).map_cap <= 3 * old(
                self,
            ).group_states@.len() + 16),
    {
        let n = batch.num_rows;
        let m = self.aggregates.len();
        let key_ref = &group_rows[row];
        let ghost row_entry = *self;
        let ghost brows_r = batch_rows(*batch, gidxs, aidxs, row as int);
        let ghost brows_r1 = batch_rows(*batch, gidxs, aidxs, row + 1);
        let ghost cost = row_cost(*old(self), *batch, gidxs, row as int);
        proof {
            assert((old_hist + brows_r1).drop_last() =~= old_hist + brows_r);
            assert((old_hist + brows_r1).last() == batch_row(*batch, gidxs, aidxs, row as int));
            assert(batch_row(*batch, gidxs, aidxs, row as int).0 == krows[row as int]);
            assert(group_rows@[row as int]@.len() == row_key_len(*batch, gidxs, row as int)) by {
                assert(krows[row as int] == batch_row(*batch, gidxs, aidxs, row as int).0);
            }
        }
                let ghost att_pre = self.attributed();
                let ghost memrel_pre = self.memory_consumer.used - pool.remaining;
                proof {
                    lemma_distinct_keys_monotone(old_hist, brows_r);
                    assert(!distinct_keys(old_hist).contains(key_ref@));
                    assert(memrel_pre >= att_pre);
                }
                // the whole memory delta of a new group, in one request
                let key_bytes = clone_bytes(key_ref);
                let buffer = crate::wordlayout::wa_zeros(m);
                let klen = key_bytes.len();
                if m > (usize::MAX - 1024) / 16 || klen > usize::MAX - 16 * m - 1024 {
                    pool.close(&mut self.memory_consumer);
                    return Result::Err(ExecError::ResourcesExhausted);
                }
                let mut bump_size_total = klen + 16 * m + 4;
                let new_groups_cap: usize;
                if self.group_states.len() == self.groups_cap {
                    if self.groups_cap > usize::MAX / 4 {
                        pool.close(&mut self.memory_consumer);
                        return Result::Err(ExecError::ResourcesExhausted);
                    }
                    let bump_elements = if 2 * self.groups_cap > 16 {
                        2 * self.groups_cap
                    } else {
                        16
                    };
                    if bump_elements > (usize::MAX - bump_size_total)
                        / GROUP_STATE_ENTRY_BYTES {
                        pool.close(&mut self.memory_consumer);
                        return Result::Err(ExecError::ResourcesExhausted);
                    }
                    bump_size_total = bump_size_total + bump_elements
                        * GROUP_STATE_ENTRY_BYTES;
                    new_groups_cap = self.groups_cap + bump_elements;
                } else {
                    new_groups_cap = self.groups_cap;
                }
                let new_map_cap: usize;
                if self.group_states.len() == self.map_cap {
                    if self.map_cap > usize::MAX / 4 {
                        pool.close(&mut self.memory_consumer);
                        return Result::Err(ExecError::ResourcesExhausted);
                    }
                    let bump_elements = if 2 * self.map_cap > 16 {
                        2 * self.map_cap
                    } else {
                        16
                    };
                    if bump_elements > (usize::MAX - bump_size_total) / TABLE_ENTRY_BYTES {
                        pool.close(&mut self.memory_consumer);
                        return Result::Err(ExecError::ResourcesExhausted);
                    }
                    bump_size_total = bump_size_total + bump_elements * TABLE_ENTRY_BYTES;
                    new_map_cap = self.map_cap + bump_elements;
                } else {
                    new_map_cap = self.map_cap;
                }
                if bump_size_total > usize::MAX - 0x100000 {
                    pool.close(&mut self.memory_consumer);
                    return Result::Err(ExecError::ResourcesExhausted);
                }
                let ok = pool.allocate(&mut self.memory_consumer, bump_size_total);
                match ok {
                    Result::Ok(()) => {},
                    Result::Err(e) => {
                        pool.close(&mut self.memory_consumer);
                        return Result::Err(ExecError::ResourcesExhausted);
                    },
                }
                self.groups_cap = new_groups_cap;
                self.map_cap = new_map_cap;
                let group_idx = self.group_states.len();
                let mut first: Vec<u32> = Vec::new();
                first.push(row as u32);
                let new_state = RowGroupState {
                    group_by_values: key_bytes,
                    aggregation_buffer: buffer,
                    indices: first,
                    indices_cap: 1,
                };
                let ghost gs_pre = self.group_states@;
                let ghost pre_gwr_m = groups_with_rows@;
                self.group_states.push(new_state);
                groups_with_rows.push(group_idx);
                let ghost self_mid = *self;
                self.table_insert(h, group_idx);
                proof {
                    lemma_attributed_push(gs_pre, new_state, gs_pre.len() as int);
                    assert(entry_bytes(new_state) == klen + 16 * m + 4);
                    assert(GROUP_STATE_ENTRY_BYTES == 72 && TABLE_ENTRY_BYTES == 16);
                    assert(attributed_groups(self.group_states@, self.group_states@.len() as int)
                        == attributed_groups(gs_pre, gs_pre.len() as int) + klen + 16 * m
                        + 4);
                    assert(att_pre == attributed_groups(gs_pre, gs_pre.len() as int)
                        + old(self).groups_cap * GROUP_STATE_ENTRY_BYTES + old(
                        self,
                    ).map_cap * TABLE_ENTRY_BYTES);
                    assert(self.attributed() == att_pre + bump_size_total);
                    assert(self.memory_consumer.used - pool.remaining == memrel_pre
                        + bump_size_total);
                    assert(self.memory_consumer.used - pool.remaining >= self.attributed());
                    assert(self.keys() =~= gs_pre.map_values(
                        |gg: RowGroupState| gg.group_by_values@,
                    ).push(key_ref@));
                    let keys_new = self.keys();
                    let keys_old = gs_pre.map_values(|gg: RowGroupState| gg.group_by_values@);
                    assert(self_mid.map@ == row_entry.map@);
                    assert forall|h2: u64| #[trigger] self_mid.groups_of(h2)
                        == row_entry.groups_of(h2) by {}
                    assert(keys_old =~= row_entry.keys());
                    // the table still finds every group
                    assert forall|h2: u64, t: int|
                        0 <= t < self.groups_of(h2).len() implies ((
                    #[trigger] self.groups_of(h2)[t]) as int) < keys_new.len()
                        && fingerprint_of(self.seed, keys_new[self.groups_of(h2)[t] as int])
                        == h2 by {
                        if h2 == h {
                            if t < self_mid.groups_of(h).len() {
                                assert(self.groups_of(h)[t] == self_mid.groups_of(h)[t]);
                            } else {
                                assert(self.groups_of(h)[t] == group_idx);
                            }
                        } else {
                            assert(self.groups_of(h2) == self_mid.groups_of(h2));
                        }
                    }
                    assert forall|g2: int| 0 <= g2 < keys_new.len() implies (
                    #[trigger] self.groups_of(
                        fingerprint_of(self.seed, keys_new[g2]),
                    )).contains(g2 as usize) by {
                        if g2 < keys_old.len() {
                            let h2 = fingerprint_of(self.seed, keys_old[g2]);
                            assert(self_mid.groups_of(h2).contains(g2 as usize));
                            let t = choose|t: int|
                                0 <= t < self_mid.groups_of(h2).len() && self_mid.groups_of(
                                    h2,
                                )[t] == (g2 as usize);
                            if h2 == h {
                                assert(self.groups_of(h)[t] == (g2 as usize));
                            } else {
                                assert(self.groups_of(h2)[t] == (g2 as usize));
                            }
                        } else {
                            assert(self.groups_of(h)[self.groups_of(h).len() - 1]
                                == group_idx);
                        }
                    }
                    // keys stay distinct and follow the history
                    assert(distinct_keys(old_hist + brows_r1) =~= distinct_keys(
                        old_hist + brows_r,
                    ).push(key_ref@));
                    assert(keys_new =~= distinct_keys(old_hist + brows_r1));
                    assert forall|g1: int, g2: int|
                        0 <= g1 < g2 < keys_new.len() implies (#[trigger] keys_new[g1]) != (
                    #[trigger] keys_new[g2]) by {
                        if g2 == keys_new.len() - 1 {
                            assert(keys_old.contains(keys_old[g1]));
                        }
                    }
                    // the new group's accumulators start from zero
                    lemma_rows_for_key_absent_all(old_hist, key_ref@);
                    assert forall|g2: int, a: int|
                        0 <= g2 < self.group_states@.len() && 0 <= a < self.aggregates@.len()
                            implies #[trigger] slot_state(
                        self.group_states@[g2].aggregation_buffer@,
                        a,
                    ) == agg_fold(
                        self.aggregates@[a],
                        self.is_merge(),
                        agg_zero(),
                        rows_for_key(old_hist, keys_new[g2], a),
                    ) by {
                        if g2 == keys_new.len() - 1 {
                            assert(rows_for_key(old_hist, key_ref@, a) =~= Seq::<
                                Option<CellModel>,
                            >::empty());
                            assert(slot_state(new_state.aggregation_buffer@, a) == (
                                false,
                                0u64,
                            ));
                        } else {
                            assert(self.group_states@[g2] == gs_pre[g2]);
                        }
                    }
                    // scratch and membership bookkeeping
                    assert forall|g2: int|
                        0 <= g2 < self.group_states@.len() implies (
                    #[trigger] self.group_states@[g2]).indices@ == key_positions(
                        krows,
                        keys_new[g2],
                        row + 1,
                    ) by {
                        if g2 == keys_new.len() - 1 {
                            assert(key_positions(krows, key_ref@, row as int) =~= Seq::<
                                u32,
                            >::empty()) by {
                                lemma_key_positions_membership(krows, key_ref@, row as int);
                                lemma_distinct_keys_covers(old_hist + brows_r);
                                if key_positions(krows, key_ref@, row as int).len() > 0 {
                                    let x = key_positions(krows, key_ref@, row as int)[0];
                                    assert(key_positions(krows, key_ref@, row as int).contains(
                                        x,
                                    ));
                                    assert((old_hist + brows_r)[old_hist.len() + (x as int)].0
                                        == key_ref@);
                                    assert(distinct_keys(old_hist + brows_r).contains(
                                        key_ref@,
                                    ));
                                }
                            }
                            assert(krows[row as int] == key_ref@);
                            assert(self.group_states@[g2].indices@ =~= key_positions(
                                krows,
                                key_ref@,
                                row + 1,
                            ));
                        } else {
                            assert(self.group_states@[g2] == gs_pre[g2]);
                            assert(keys_new[g2] != key_ref@) by {
                                assert(keys_old.contains(keys_old[g2]));
                            }
                            assert(krows[row as int] != keys_new[g2]);
                        }
                    }
                    assert forall|g2: int|
                        0 <= g2 < self.group_states@.len() implies ((
                    #[trigger] self.group_states@[g2]).indices@.len() > 0
                        <==> groups_with_rows@.contains(g2 as usize)) by {
                        if g2 == keys_new.len() - 1 {
                            assert(groups_with_rows@[pre_gwr_m.len() as int] == group_idx);
                        } else if self.group_states@[g2].indices@.len() > 0 {
                            assert(self.group_states@[g2] == gs_pre[g2]);
                            assert(pre_gwr_m.contains(g2 as usize));
                            let t = choose|t: int|
                                0 <= t < pre_gwr_m.len() && pre_gwr_m[t] == (g2 as usize);
                            assert(groups_with_rows@[t] == (g2 as usize));
                        } else {
                            if groups_with_rows@.contains(g2 as usize) {
                                let t = choose|t: int|
                                    0 <= t < groups_with_rows@.len() && groups_with_rows@[t]
                                        == (g2 as usize);
                                assert(t < groups_with_rows@.len() - 1);
                                assert(pre_gwr_m[t] == (g2 as usize));
                                assert(pre_gwr_m.contains(g2 as usize));
                            }
                        }
                    }
                    assert forall|p1: int, p2: int|
                        0 <= p1 < p2 < groups_with_rows@.len() implies (
                    #[trigger] groups_with_rows@[p1]) != (#[trigger] groups_with_rows@[p2]) by {
                        if p2 == groups_with_rows@.len() - 1 {
                            assert(groups_with_rows@[p1] == pre_gwr_m[p1]);
                            assert((pre_gwr_m[p1] as int) < gs_pre.len());
                        }
                    }
                    assert forall|pq: int|
                        0 <= pq < groups_with_rows@.len() implies ((
                    #[trigger] groups_with_rows@[pq]) as int) < self.group_states@.len() by {
                        if pq < pre_gwr_m.len() {
                            assert(groups_with_rows@[pq] == pre_gwr_m[pq]);
                        }
                    }
                }
        Result::Ok(())
    }

    /// Files one row into its group: an existing group collects the
    /// row position in its scratch space, a fresh key opens a new
    /// group with a zeroed state buffer, its whole memory delta
    /// granted in one request.
    #[verifier::rlimit(100)]
    fn ingest_row(
        &mut self,
        groups_with_rows: &mut Vec<usize>,
        pool: &mut ShortLivedMemoryPool,
        batch: &Batch,
        group_rows: &Vec<Vec<u8>>,
        h: u64,
        row: usize,
        Ghost(old_self): Ghost<GroupedHashAggregateStreamV2>,
        Ghost(old_hist): Ghost<Seq<ConsumedRow>>,
        Ghost(gidxs): Ghost<Seq<usize>>,
        Ghost(aidxs): Ghost<Seq<usize>>,
        Ghost(krows): Ghost<Seq<Seq<u8>>>,
    ) -> (r: Result<(), ExecError>)
        requires
            ingest_inv(
                *old(self),
                old_self,
                old_hist,
                *batch,
                gidxs,
                aidxs,
                krows,
                old(groups_with_rows)@,
                *old(pool),
                row as int,
            ),
            (row as int) < batch.num_rows,
            batch.num_rows <= u32::MAX,
            16 * batch.num_rows + 1024 <= usize::MAX,
            group_rows@.len() == batch.num_rows,
            krows == Seq::new(batch.num_rows as nat, |i: int| group_rows@[i]@),
            h == fingerprint_of(old_self.seed, group_rows@[row as int]@),
            forall|i: int|
                0 <= i < batch.num_rows ==> #[trigger] krows[i] == batch_row(
                    *batch,
                    gidxs,
                    aidxs,
                    i,
                ).0,
            forall|i: int|
                0 <= i < batch.num_rows ==> decode_row(
                    old_self.group_dts(),
                    (#[trigger] group_rows@[i])@,
                ) is Some,
        ensures
            match r {
                Result::Ok(()) => ingest_inv(
                    *final(self),
                    old_self,
                    old_hist,
                    *batch,
                    gidxs,
                    aidxs,
                    krows,
                    final(groups_with_rows)@,
                    *final(pool),
                    row + 1,
                ),
                Result::Err(e) => e is ResourcesExhausted
                    && final(self).memory_consumer.balanced()
                    && final(self).mode == old_self.mode
                    && final(self).group_schema == old_self.group_schema
                    && final(self).aggregates == old_self.aggregates
                    && final(self).aggr_names == old_self.aggr_names
                    && final(self).batch_size == old_self.batch_size
                    && final(self).seed == old_self.seed
                    && final(self).row_group_skip_position == old_self.row_group_skip_position
                    && final(self).memory_consumer.limit == old_self.memory_consumer.limit
                    && old(self).memory_consumer.limit < old(self).memory_consumer.used
                    + row_cost(*old(self), *batch, gidxs, row as int),
            },
            r is Ok ==> final(self).memory_consumer.used <= old(self).memory_consumer.used
                + row_cost(*old(self), *batch, gidxs, row as int),
            r is Ok ==> final(self).group_states@.len() <= old(self).group_states@.len() + 1,
            r is Ok ==> (final(self).groups_cap == old(self).groups_cap || final(self).groups_cap
                <= 3 * old(self).group_states@.len() + 16),
            r is Ok ==> (final(self).map_cap == old(self).map_cap || final(self).map_cap <= 3 * old(
                self,
            ).group_states@.len() + 16),
    {
        let n = batch.num_rows;
        let ghost cost = row_cost(*old(self), *batch, gidxs, row as int);
        proof {
            assert(group_rows@[row as int]@.len() == row_key_len(*batch, gidxs, row as int)) by {
                assert(krows[row as int] == batch_row(*batch, gidxs, aidxs, row as int).0);
            }
            assert(cost >= row_key_len(*batch, gidxs, row as int) + 16 * old(
                self,
            ).aggregates@.len() + 4 + (2 * old(self).groups_cap + 16) * GROUP_STATE_ENTRY_BYTES + (
            2 * old(self).map_cap + 16) * TABLE_ENTRY_BYTES + 8 * batch.num_rows + 8 + 0x100000);
        }
        let m = self.aggregates.len();
            let ghost row_entry = *self;
            let key_ref = &group_rows[row];
            let ghost brows_r = batch_rows(*batch, gidxs, aidxs, row as int);
            let ghost brows_r1 = batch_rows(*batch, gidxs, aidxs, row + 1);
            proof {
                assert((old_hist + brows_r1).drop_last() =~= old_hist + brows_r);
                assert((old_hist + brows_r1).last() == batch_row(*batch, gidxs, aidxs, row as int));
                assert(batch_row(*batch, gidxs, aidxs, row as int).0 == krows[row as int]);
            }
            match self.find_group(h, key_ref) {
                Option::Some(g) => {
                    proof {
                        assert(self.keys().contains(key_ref@)) by {
                            assert(self.keys()[g as int] == key_ref@);
                        }
                        assert(distinct_keys(old_hist + brows_r1) == distinct_keys(
                            old_hist + brows_r,
                        ));
                    }
                    let glen = self.group_states[g].indices.len();
                    let ghost pre_gwr = groups_with_rows@;
                    let pushed_gwr = glen == 0;
                    if glen == 0 {
                        proof {
                            assert(!pre_gwr.contains(g));
                        }
                        groups_with_rows.push(g);
                        proof {
                            assert(groups_with_rows@ == pre_gwr.push(g));
                            assert forall|p1: int, p2: int|
                                0 <= p1 < p2 < groups_with_rows@.len() implies (
                            #[trigger] groups_with_rows@[p1]) != (
                            #[trigger] groups_with_rows@[p2]) by {
                                if p2 == groups_with_rows@.len() - 1 {
                                    assert(groups_with_rows@[p1] == pre_gwr[p1]);
                                    assert(pre_gwr.contains(pre_gwr[p1]));
                                }
                            }
                            assert forall|pq: int|
                                0 <= pq < groups_with_rows@.len() implies ((
                            #[trigger] groups_with_rows@[pq]) as int)
                                < self.group_states@.len() by {
                                if pq < pre_gwr.len() {
                                    assert(groups_with_rows@[pq] == pre_gwr[pq]);
                                }
                            }
                        }
                    }
                    let ghost gs_pre = self.group_states@;
                    let gst = &mut self.group_states[g];
                    let cap = gst.indices_cap;
                    let cur_len = gst.indices.len();
                    if cur_len == cap {
                        proof {
                            lemma_key_positions_len(
                                krows,
                                gs_pre[g as int].group_by_values@,
                                row as int,
                            );
                            assert(cur_len <= n);
                            assert(cap == cur_len);
                        }
                        let bump_elements = if cap > 1 {
                            2 * cap
                        } else {
                            2
                        };
                        let bump_size = 4 * bump_elements;
                        let ghost consumer_pre = self.memory_consumer;
                        let ok = pool.allocate(&mut self.memory_consumer, bump_size);
                        match ok {
                            Result::Ok(()) => {},
                            Result::Err(e) => {
                                pool.close(&mut self.memory_consumer);
                                return Result::Err(ExecError::ResourcesExhausted);
                            },
                        }
                        let gst2 = &mut self.group_states[g];
                        gst2.indices_cap = gst2.indices_cap + bump_elements;
                        proof {
                            lemma_attributed_update(
                                gs_pre,
                                g as int,
                                self.group_states@[g as int],
                                gs_pre.len() as int,
                            );
                            assert(self.group_states@ =~= gs_pre.update(
                                g as int,
                                self.group_states@[g as int],
                            ));
                            assert(entry_bytes(self.group_states@[g as int]) == entry_bytes(
                                gs_pre[g as int],
                            ) + 4 * bump_elements);
                            assert(gs_pre == old(self).group_states@);
                            assert(self.attributed() == old(self).attributed() + 4
                                * bump_elements);
                            assert(old(self).memory_consumer.used - old(pool).remaining >= old(
                                self,
                            ).attributed());
                            assert(self.memory_consumer.used - pool.remaining == old(
                                self,
                            ).memory_consumer.used - old(pool).remaining + 4 * bump_elements);
                            assert(self.memory_consumer.used - pool.remaining
                                >= self.attributed());
                        }
                    }
                    let ghost gs_pre3 = self.group_states@;
                    let ghost att_bp = self.attributed();
                    let ghost rel_bp = self.memory_consumer.used - pool.remaining;
                    proof {
                        if cur_len == cap {
                            assert(rel_bp >= att_bp);
                        } else {
                            assert(self.group_states@ == old(self).group_states@);
                            assert(self.memory_consumer == old(self).memory_consumer);
                            assert(*pool == *old(pool));
                            assert(self.groups_cap == old(self).groups_cap);
                            assert(self.map_cap == old(self).map_cap);
                            assert(att_bp == old(self).attributed());
                            assert(rel_bp >= att_bp);
                        }
                    }
                    let gst3 = &mut self.group_states[g];
                    gst3.indices.push(row as u32);
                    proof {
                        lemma_attributed_update(
                            gs_pre3,
                            g as int,
                            self.group_states@[g as int],
                            gs_pre3.len() as int,
                        );
                        assert(self.group_states@ =~= gs_pre3.update(
                            g as int,
                            self.group_states@[g as int],
                        ));
                        assert(entry_bytes(self.group_states@[g as int]) == entry_bytes(
                            gs_pre3[g as int],
                        ));
                        assert(self.attributed() == att_bp);
                        assert(self.memory_consumer.used - pool.remaining == rel_bp);
                        assert(self.memory_consumer.used - pool.remaining >= self.attributed());
                        assert(self.keys() =~= gs_pre3.map_values(
                            |gg: RowGroupState| gg.group_by_values@,
                        ));
                        assert forall|g2: int|
                            0 <= g2 < self.group_states@.len() implies (
                        #[trigger] self.group_states@[g2]).indices@ == key_positions(
                            krows,
                            self.keys()[g2],
                            row + 1,
                        ) by {
                            if g2 == g as int {
                                assert(krows[row as int] == self.keys()[g as int]);
                            } else {
                                assert(self.keys()[g2] != self.keys()[g as int]);
                                assert(krows[row as int] != self.keys()[g2]);
                            }
                        }
                        assert forall|g2: int|
                            0 <= g2 < self.group_states@.len() implies ((
                        #[trigger] self.group_states@[g2]).indices@.len() > 0
                            <==> groups_with_rows@.contains(g2 as usize)) by {
                            if g2 == g as int {
                                if pushed_gwr {
                                    assert(groups_with_rows@[pre_gwr.len() as int] == g);
                                    assert(groups_with_rows@.contains(g));
                                } else {
                                    assert(row_entry.group_states@[g2].indices@.len() > 0);
                                    assert(pre_gwr.contains(g));
                                    assert(groups_with_rows@ == pre_gwr);
                                }
                            } else {
                                assert(self.group_states@[g2] == row_entry.group_states@[g2]);
                                if pushed_gwr {
                                    assert(pre_gwr.contains(g2 as usize)
                                        == groups_with_rows@.contains(g2 as usize)) by {
                                        if pre_gwr.contains(g2 as usize) {
                                            let t = choose|t: int|
                                                0 <= t < pre_gwr.len() && pre_gwr[t] == (
                                                g2 as usize);
                                            assert(groups_with_rows@[t] == (g2 as usize));
                                        }
                                        if groups_with_rows@.contains(g2 as usize) {
                                            let t = choose|t: int|
                                                0 <= t < groups_with_rows@.len()
                                                    && groups_with_rows@[t] == (g2 as usize);
                                            assert(t < groups_with_rows@.len() - 1);
                                            assert(pre_gwr[t] == (g2 as usize));
                                        }
                                    }
                                }
                            }
                        }
                        // the table and the keys are untouched on this path
                        assert(self.map@ == row_entry.map@);
                        assert(self.keys() =~= row_entry.keys());
                        assert forall|h2: u64, t: int|
                            0 <= t < self.groups_of(h2).len() implies ((
                        #[trigger] self.groups_of(h2)[t]) as int) < self.keys().len()
                            && fingerprint_of(
                            self.seed,
                            self.keys()[self.groups_of(h2)[t] as int],
                        ) == h2 by {
                            assert(self.groups_of(h2) == row_entry.groups_of(h2));
                        }
                        assert forall|g2: int| 0 <= g2 < self.keys().len() implies (
                        #[trigger] self.groups_of(
                            fingerprint_of(self.seed, self.keys()[g2]),
                        )).contains(g2 as usize) by {
                            let h2 = fingerprint_of(self.seed, self.keys()[g2]);
                            assert(self.keys()[g2] == row_entry.keys()[g2]);
                            assert(row_entry.groups_of(h2).contains(g2 as usize));
                            assert(self.groups_of(h2) == row_entry.groups_of(h2));
                        }
                    }
                },
                Option::None => {
                    let res2 = self.ingest_new_group(
                        groups_with_rows,
                        pool,
                        batch,
                        group_rows,
                        h,
                        row,
                        Ghost(old_self),
                        Ghost(old_hist),
                        Ghost(gidxs),
                        Ghost(aidxs),
                        Ghost(krows),
                    );
                    match res2 {
                        Result::Ok(()) => {},
                        Result::Err(_) => {
                            return Result::Err(ExecError::ResourcesExhausted);
                        },
                    }
                },
            }
        Result::Ok(())
    }

    /// Consumes one input batch: every row is encoded, hashed and
    /// filed into its group, new groups are created in appearance
    /// order with their memory accounted, and each touched group's
    /// accumulators fold in exactly its rows.
    #[verifier::rlimit(100)]
    pub fn group_aggregate_batch(&mut self, batch: &Batch) -> (r: Result<(), ExecError>)
        requires
            old(self).wf(),
            batch.wf(),
            batch.num_rows <= u32::MAX,
            16 * batch.num_rows + 1024 <= usize::MAX,
        ensures
            final(self).mode == old(self).mode,
            final(self).group_schema == old(self).group_schema,
            final(self).aggregates == old(self).aggregates,
            final(self).aggr_names == old(self).aggr_names,
            final(self).batch_size == old(self).batch_size,
            final(self).seed == old(self).seed,
            final(self).row_group_skip_position == old(self).row_group_skip_position,
            final(self).memory_consumer.limit == old(self).memory_consumer.limit,
            match r {
                Result::Ok(()) => final(self).wf() && exists|gidxs: Seq<usize>, aidxs: Seq<usize>|
                    {
                        &&& #[trigger] crate::join::resolve_ok(
                            batch.schema.fields@,
                            field_names(old(self).group_schema),
                            gidxs,
                        )
                        &&& #[trigger] crate::join::resolve_ok(
                            batch.schema.fields@,
                            old(self).aggr_names@,
                            aidxs,
                        )
                        &&& final(self).history@ == old(self).history@ + batch_rows(
                            *batch,
                            gidxs,
                            aidxs,
                            batch.num_rows as int,
                        )
                    },
                Result::Err(e) => {
                    &&& (e is Internal ==> *final(self) == *old(self) && !groupable(
                        old(self).group_schema,
                        old(self).aggr_names@,
                        *batch,
                    ))
                    &&& (e is Internal || e is ResourcesExhausted)
                    &&& (e is ResourcesExhausted ==> exists|gidxs: Seq<usize>|
                        #[trigger] crate::join::resolve_ok(
                            batch.schema.fields@,
                            field_names(old(self).group_schema),
                            gidxs,
                        ) && old(self).memory_consumer.limit < old(self).memory_consumer.used
                            + batch_budget(*old(self), *batch, gidxs))
                    &&& final(self).memory_consumer.balanced()
                },
            },
    {
        let ghost old_hist = self.history@;
        let ghost old_self = *self;
        // resolve the grouping columns and check their types
        let gn = self.group_schema.fields.len();
        let mut gnames: Vec<String> = Vec::new();
        let mut k: usize = 0;
        while k < gn
            invariant
                k <= gn,
                gn == self.group_schema.fields@.len(),
                gnames@.len() == k,
                forall|q: int| 0 <= q < k ==> #[trigger] gnames@[q] == self.group_schema.fields@[q].name,
                *self == old_self,
            decreases gn - k,
        {
            gnames.push(self.group_schema.fields[k].name.clone());
            k = k + 1;
        }
        proof {
            assert(gnames@ =~= field_names(self.group_schema));
        }
        let gidxs = match crate::join::resolve_on_indices(&batch.schema, &gnames) {
            Result::Ok(v) => v,
            Result::Err(_) => {
                proof {
                    assert(crate::join::name_missing(
                        batch.schema.fields@,
                        field_names(self.group_schema),
                    ));
                }
                return Result::Err(ExecError::Internal);
            },
        };
        let mut k2: usize = 0;
        while k2 < gn
            invariant
                k2 <= gn,
                gn == self.group_schema.fields@.len(),
                gidxs@.len() == gn,
                batch.wf(),
                crate::join::resolve_ok(batch.schema.fields@, gnames@, gidxs@),
                gnames@ == field_names(self.group_schema),
                forall|q: int|
                    0 <= q < k2 ==> (#[trigger] batch.columns@[gidxs@[q] as int]).data_type
                        == self.group_schema.fields@[q].data_type,
                forall|q: int| 0 <= q < gn ==> (#[trigger] gidxs@[q] as int) < batch.columns@.len(),
                *self == old_self,
                old_self == *old(self),
                old_self.wf(),
            decreases gn - k2,
        {
            let bi = gidxs[k2];
            if !(batch.columns[bi].data_type == self.group_schema.fields[k2].data_type) {
                proof {
                    assert(crate::join::resolve_ok(
                        batch.schema.fields@,
                        field_names(self.group_schema),
                        gidxs@,
                    ));
                    assert(!groupable(self.group_schema, self.aggr_names@, *batch)) by {
                        if groupable(self.group_schema, self.aggr_names@, *batch) {
                            assert(batch.columns@[gidxs@[k2 as int] as int].data_type
                                == self.group_schema.fields@[k2 as int].data_type);
                        }
                    }
                }
                return Result::Err(ExecError::Internal);
            }
            k2 = k2 + 1;
        }
        let aidxs = match crate::join::resolve_on_indices(&batch.schema, &self.aggr_names) {
            Result::Ok(v) => v,
            Result::Err(_) => {
                return Result::Err(ExecError::Internal);
            },
        };
        // encode group keys and hash them
        let group_cols = crate::join::select_columns(batch, &gidxs);
        let group_rows = crate::rowcodec::create_group_rows(&group_cols, batch.num_rows);
        let aggr_cols = crate::join::select_columns(batch, &aidxs);
        let n = batch.num_rows;
        let m = self.aggregates.len();
        let mut batch_hashes: Vec<u64> = Vec::new();
        let mut z: usize = 0;
        while z < n
            invariant
                z <= n,
                batch_hashes@.len() == z,
            decreases n - z,
        {
            batch_hashes.push(0);
            z = z + 1;
        }
        let hr = crate::hashing::create_row_hashes(&group_rows, self.seed, &mut batch_hashes);
        proof {
            assert(hr is Ok);
        }
        let ghost krows = Seq::new(n as nat, |i: int| group_rows@[i]@);
        let ghost brows_all = batch_rows(*batch, gidxs@, aidxs@, n as int);
        proof {
            assert forall|i: int| 0 <= i < n implies #[trigger] krows[i] == batch_row(
                *batch,
                gidxs@,
                aidxs@,
                i,
            ).0 by {
                assert(group_rows@[i]@ == compact_row(
                    col_types(group_cols@),
                    row_cells(group_cols@, i),
                ));
                assert(col_types(group_cols@) =~= col_types(
                    crate::join::selected_cols(*batch, gidxs@),
                ));
                assert(row_cells(group_cols@, i) =~= row_cells(
                    crate::join::selected_cols(*batch, gidxs@),
                    i,
                ));
            }
        }
        proof {
            assert(col_types(group_cols@) =~= old_self.group_dts());
            assert forall|i: int| 0 <= i < n implies decode_row(
                old_self.group_dts(),
                (#[trigger] group_rows@[i])@,
            ) is Some by {
                let dts = col_types(group_cols@);
                let cells = row_cells(group_cols@, i);
                assert forall|kq: int|
                    0 <= kq < cells.len() && (#[trigger] cells[kq]) is Some implies
                    crate::types::cell_fits(dts[kq], cells[kq]->0) by {
                    assert(group_cols@[kq].wf());
                    assert(cells[kq] == group_cols@[kq].cells()[i]);
                }
                crate::rowcodec::lemma_decode_compact_row(dts, cells);
            }
        }
        let mut pool = ShortLivedMemoryPool::new();
        let mut groups_with_rows: Vec<usize> = Vec::new();
        proof {
            assert(batch_rows(*batch, gidxs@, aidxs@, 0) =~= Seq::<ConsumedRow>::empty());
            assert(old_hist + batch_rows(*batch, gidxs@, aidxs@, 0) =~= old_hist);
            assert forall|g: int| 0 <= g < self.group_states@.len() implies (
            #[trigger] self.group_states@[g]).indices@ == key_positions(
                krows,
                self.keys()[g],
                0,
            ) by {
                assert(self.group_states@[g].indices@ =~= key_positions(
                    krows,
                    self.keys()[g],
                    0,
                ));
            }
            assert(ingest_inv(
                *self,
                old_self,
                old_hist,
                *batch,
                gidxs@,
                aidxs@,
                krows,
                groups_with_rows@,
                pool,
                0,
            ));
        }
        let mut row: usize = 0;
        while row < n
            invariant
                row <= n,
                n == batch.num_rows,
                n <= u32::MAX,
                16 * n + 1024 <= usize::MAX,
                batch_hashes@.len() == n,
                group_rows@.len() == n,
                krows == Seq::new(n as nat, |i: int| group_rows@[i]@),
                forall|i: int|
                    0 <= i < n ==> #[trigger] batch_hashes@[i] == fingerprint_of(
                        old_self.seed,
                        group_rows@[i]@,
                    ),
                forall|i: int|
                    0 <= i < n ==> #[trigger] krows[i] == batch_row(*batch, gidxs@, aidxs@, i).0,
                forall|i: int|
                    0 <= i < n ==> decode_row(
                        old_self.group_dts(),
                        (#[trigger] group_rows@[i])@,
                    ) is Some,
                old_self == *old(self),
                old_self.wf(),
                old_hist == old(self).history@,
                crate::join::resolve_ok(batch.schema.fields@, gnames@, gidxs@),
                gnames@ == field_names(old_self.group_schema),
                self.group_states@.len() <= old_self.group_states@.len() + row,
                self.groups_cap as int <= cap_ceiling(
                    old_self.groups_cap as int,
                    old_self.group_states@.len() as int,
                    n as int,
                ),
                self.map_cap as int <= cap_ceiling(
                    old_self.map_cap as int,
                    old_self.group_states@.len() as int,
                    n as int,
                ),
                self.memory_consumer.used <= old_self.memory_consumer.used + batch_key_bytes(
                    *batch,
                    gidxs@,
                    row as int,
                ) + (row as int) * row_ceiling(old_self, *batch),
                ingest_inv(
                    *self,
                    old_self,
                    old_hist,
                    *batch,
                    gidxs@,
                    aidxs@,
                    krows,
                    groups_with_rows@,
                    pool,
                    row as int,
                ),
            decreases n - row,
        {
            let h = batch_hashes[row];
            let ghost self_at_call = *self;
            proof {
                assert(row_cost(self_at_call, *batch, gidxs@, row as int) <= row_key_len(
                    *batch,
                    gidxs@,
                    row as int,
                ) + row_ceiling(old_self, *batch));
            }
            let res = self.ingest_row(
                &mut groups_with_rows,
                &mut pool,
                batch,
                &group_rows,
                h,
                row,
                Ghost(old_self),
                Ghost(old_hist),
                Ghost(gidxs@),
                Ghost(aidxs@),
                Ghost(krows),
            );
            match res {
                Result::Ok(()) => {
                    proof {
                        let ceil = row_ceiling(old_self, *batch);
                        assert(((row as int) + 1) * ceil == (row as int) * ceil + ceil)
                            by (nonlinear_arith);
                        assert(batch_key_bytes(*batch, gidxs@, row + 1) == batch_key_bytes(
                            *batch,
                            gidxs@,
                            row as int,
                        ) + row_key_len(*batch, gidxs@, row as int));
                    }
                },
                Result::Err(_) => {
                    proof {
                        let ceil = row_ceiling(old_self, *batch);
                        assert(ceil >= 0);
                        assert(((row as int) + 1) * ceil == (row as int) * ceil + ceil)
                            by (nonlinear_arith);
                        assert(((row as int) + 1) * ceil <= (batch.num_rows as int) * ceil)
                            by (nonlinear_arith)
                            requires
                                (row as int) + 1 <= batch.num_rows as int,
                                ceil >= 0,
                        ;
                        lemma_batch_key_bytes_mono(*batch, gidxs@, row + 1, n as int);
                        assert(old_self.memory_consumer.limit < old_self.memory_consumer.used
                            + batch_budget(old_self, *batch, gidxs@));
                        assert(crate::join::resolve_ok(
                            batch.schema.fields@,
                            field_names(old_self.group_schema),
                            gidxs@,
                        ));
                    }
                    return Result::Err(ExecError::ResourcesExhausted);
                },
            }
            row = row + 1;
        }
        // gather each touched group's rows and fold them in
        let np = groups_with_rows.len();
        let ghost hist_new = old_hist + brows_all;
        proof {
            assert(batch_rows(*batch, gidxs@, aidxs@, n as int) == brows_all);
        }
        let mut p: usize = 0;
        while p < np
            invariant
                p <= np,
                np == groups_with_rows@.len(),
                n == batch.num_rows,
                n <= u32::MAX,
                m == self.aggregates@.len(),
                group_rows@.len() == n,
                krows == Seq::new(n as nat, |i: int| group_rows@[i]@),
                forall|i: int|
                    0 <= i < n ==> #[trigger] krows[i] == batch_row(*batch, gidxs@, aidxs@, i).0,
                aggr_cols@.len() == aidxs@.len(),
                aidxs@.len() == m,
                forall|a: int|
                    0 <= a < m ==> (#[trigger] aggr_cols@[a]).wf() && aggr_cols@[a].cells()
                        == batch.columns@[aidxs@[a] as int].cells() && aggr_cols@[a].cells().len()
                        == n,
                hist_new == old_hist + brows_all,
                brows_all == batch_rows(*batch, gidxs@, aidxs@, n as int),
                old_self == *old(self),
                old_self.wf(),
                old_hist == old(self).history@,
                // configuration unchanged
                self.mode == old_self.mode,
                self.group_schema == old_self.group_schema,
                self.aggregates == old_self.aggregates,
                self.aggr_names == old_self.aggr_names,
                self.batch_size == old_self.batch_size,
                self.seed == old_self.seed,
                self.row_group_skip_position == old_self.row_group_skip_position,
                self.history@ == old_hist,
                self.memory_consumer.limit == old_self.memory_consumer.limit,
                // structural invariants
                self.table_ok(),
                self.aggregates@.len() == self.aggr_names@.len(),
                16 * self.aggregates@.len() <= usize::MAX,
                self.keys() == distinct_keys(hist_new),
                forall|g1: int, g2: int|
                    0 <= g1 < g2 < self.keys().len() ==> (#[trigger] self.keys()[g1]) != (
                    #[trigger] self.keys()[g2]),
                forall|g: int|
                    0 <= g < self.group_states@.len() ==> (
                    #[trigger] self.group_states@[g]).aggregation_buffer@.len() == 16
                        * self.aggregates@.len(),
                forall|g: int|
                    0 <= g < self.group_states@.len() ==> decode_row(
                        self.group_dts(),
                        (#[trigger] self.group_states@[g]).group_by_values@,
                    ) is Some,
                // untouched groups hold their old fold; processed ones
                // the new fold, with their scratch cleared
                forall|g: int|
                    0 <= g < self.group_states@.len() && !groups_with_rows@.contains(g as usize)
                        ==> (#[trigger] self.group_states@[g]).indices@.len() == 0 && (forall|
                        a: int,
                    |
                        0 <= a < m ==> #[trigger] slot_state(
                            self.group_states@[g].aggregation_buffer@,
                            a,
                        ) == agg_fold(
                            self.aggregates@[a],
                            self.is_merge(),
                            agg_zero(),
                            rows_for_key(old_hist, self.keys()[g], a),
                        )) && key_positions(krows, self.keys()[g], n as int) == Seq::<u32>::empty(),
                forall|q: int|
                    0 <= q < np ==> ((#[trigger] groups_with_rows@[q]) as int)
                        < self.group_states@.len(),
                forall|q1: int, q2: int|
                    0 <= q1 < q2 < np ==> (#[trigger] groups_with_rows@[q1]) != (
                    #[trigger] groups_with_rows@[q2]),
                forall|q: int|
                    #![trigger groups_with_rows@[q]]
                    p <= q < np ==> {
                        let g = groups_with_rows@[q] as int;
                        self.group_states@[g].indices@ == key_positions(
                            krows,
                            self.keys()[g],
                            n as int,
                        ) && (forall|a: int|
                            0 <= a < m ==> #[trigger] slot_state(
                                self.group_states@[g].aggregation_buffer@,
                                a,
                            ) == agg_fold(
                                self.aggregates@[a],
                                self.is_merge(),
                                agg_zero(),
                                rows_for_key(old_hist, self.keys()[g], a),
                            ))
                    },
                forall|q: int|
                    #![trigger groups_with_rows@[q]]
                    0 <= q < p ==> {
                        let g = groups_with_rows@[q] as int;
                        self.group_states@[g].indices@.len() == 0 && (forall|a: int|
                            0 <= a < m ==> #[trigger] slot_state(
                                self.group_states@[g].aggregation_buffer@,
                                a,
                            ) == agg_fold(
                                self.aggregates@[a],
                                self.is_merge(),
                                agg_zero(),
                                rows_for_key(hist_new, self.keys()[g], a),
                            ))
                    },
                forall|g: int|
                    0 <= g < self.group_states@.len() ==> (#[trigger] self.group_states@[g]).indices_cap
                        >= 1 && self.group_states@[g].indices@.len()
                        <= self.group_states@[g].indices_cap,
                // memory invariants
                self.memory_consumer.balanced(),
                self.memory_consumer.used - pool.remaining >= self.attributed(),
                pool.remaining <= self.memory_consumer.used,
                pool.block_size == 0x100000,
                self.group_states@.len() <= self.groups_cap,
                self.group_states@.len() <= self.map_cap,
            decreases np - p,
        {
            let g = groups_with_rows[p];
            let ghost self_entry = *self;
            let ghost gkey = self.keys()[g as int];
            let ghost positions = key_positions(krows, gkey, n as int);
            let ghost frame_gs = self.group_states@;
            let ghost frame_map = self.map@;
            let ghost frame_map_cap = self.map_cap;
            let ghost frame_groups_cap = self.groups_cap;
            let ghost frame_consumer = self.memory_consumer;
            let ghost frame_pool = pool;
            proof {
                lemma_key_positions_bounds(krows, gkey, n as int);
            }
            let mut a: usize = 0;
            while a < m
                invariant
                    a <= m,
                    m == self.aggregates@.len(),
                    (g as int) < self.group_states@.len(),
                    g == groups_with_rows@[p as int],
                    p < np,
                    np == groups_with_rows@.len(),
                    n == batch.num_rows,
                    n <= u32::MAX,
                    group_rows@.len() == n,
                    krows == Seq::new(n as nat, |i: int| group_rows@[i]@),
                    forall|i: int|
                        0 <= i < n ==> #[trigger] krows[i] == batch_row(
                            *batch,
                            gidxs@,
                            aidxs@,
                            i,
                        ).0,
                    aggr_cols@.len() == m,
                    aidxs@.len() == m,
                    forall|a2: int|
                        0 <= a2 < m ==> (#[trigger] aggr_cols@[a2]).wf() && aggr_cols@[a2].cells()
                            == batch.columns@[aidxs@[a2] as int].cells() && aggr_cols@[
                            a2
                        ].cells().len() == n,
                    gkey == self.keys()[g as int],
                    positions == key_positions(krows, gkey, n as int),
                    forall|t: int|
                        0 <= t < positions.len() ==> ((#[trigger] positions[t]) as int) < n,
                    self.group_states@[g as int].indices@ == positions,
                    self.group_states@[g as int].aggregation_buffer@.len() == 16 * m,
                    forall|a2: int|
                        a <= a2 < m ==> #[trigger] slot_state(
                            self.group_states@[g as int].aggregation_buffer@,
                            a2,
                        ) == agg_fold(
                            self.aggregates@[a2],
                            self.is_merge(),
                            agg_zero(),
                            rows_for_key(old_hist, gkey, a2),
                        ),
                    forall|a2: int|
                        0 <= a2 < a ==> #[trigger] slot_state(
                            self.group_states@[g as int].aggregation_buffer@,
                            a2,
                        ) == agg_fold(
                            self.aggregates@[a2],
                            self.is_merge(),
                            agg_zero(),
                            rows_for_key(hist_new, gkey, a2),
                        ),
                    hist_new == old_hist + brows_all,
                    brows_all == batch_rows(*batch, gidxs@, aidxs@, n as int),
                    // frame: everything else untouched
                    self.mode == old_self.mode,
                    self.group_schema == old_self.group_schema,
                    self.aggregates == old_self.aggregates,
                    self.aggr_names == old_self.aggr_names,
                    self.batch_size == old_self.batch_size,
                    self.seed == old_self.seed,
                    self.row_group_skip_position == old_self.row_group_skip_position,
                    self.history@ == old_hist,
                    self.memory_consumer == frame_consumer,
                    self.map@ == frame_map,
                    self.map_cap == frame_map_cap,
                    self.groups_cap == frame_groups_cap,
                    self.group_states@.len() == frame_gs.len(),
                    forall|g2: int|
                        0 <= g2 < frame_gs.len() && g2 != g as int
                            ==> #[trigger] self.group_states@[g2] == frame_gs[g2],
                    self.group_states@[g as int].group_by_values@ == frame_gs[g as int].group_by_values@,
                    self.group_states@[g as int].indices@ == frame_gs[g as int].indices@,
                    self.group_states@[g as int].indices_cap == frame_gs[g as int].indices_cap,
                decreases m - a,
            {
                let f = self.aggregates[a];
                let sliced = crate::columns::take_indexed(&aggr_cols[a], &self.group_states[g].indices);
                proof {
                    lemma_batch_positions(*batch, gidxs@, aidxs@, krows, gkey, a as int, n as int);
                    assert(sliced.cells() =~= rows_for_key(brows_all, gkey, a as int));
                    lemma_rows_for_key_append(old_hist, brows_all, gkey, a as int);
                }
                let gst = &mut self.group_states[g];
                if matches_partial(self.mode) {
                    crate::accum::update_batch(f, &sliced, &mut gst.aggregation_buffer, a);
                } else {
                    crate::accum::merge_batch(f, &sliced, &mut gst.aggregation_buffer, a);
                }
                proof {
                    crate::accum::lemma_agg_fold_append(
                        f,
                        self.is_merge(),
                        agg_zero(),
                        rows_for_key(old_hist, gkey, a as int),
                        rows_for_key(brows_all, gkey, a as int),
                    );
                }
                a = a + 1;
            }
            let ghost gs_before_clear = self.group_states@;
            let gst = &mut self.group_states[g];
            gst.indices.clear();
            proof {
                // the buffers moved, the keys and the accounting did not
                let gs_now = self.group_states@;
                assert(gs_now =~= gs_before_clear.update(g as int, gs_now[g as int]));
                assert forall|g2: int| 0 <= g2 < gs_now.len() implies entry_bytes(
                    #[trigger] gs_now[g2],
                ) == entry_bytes(frame_gs[g2]) && (#[trigger] gs_now[g2]).group_by_values@
                    == frame_gs[g2].group_by_values@ by {
                    if g2 != g as int {
                        assert(gs_now[g2] == frame_gs[g2]);
                    }
                }
                assert(self.keys() =~= frame_gs.map_values(
                    |gg: RowGroupState| gg.group_by_values@,
                ));
                assert(self.keys() == self_entry.keys());
                lemma_attributed_congruent(gs_now, frame_gs, gs_now.len() as int);
                assert forall|h2: u64, t: int|
                    0 <= t < self.groups_of(h2).len() implies ((
                #[trigger] self.groups_of(h2)[t]) as int) < self.keys().len() && fingerprint_of(
                    self.seed,
                    self.keys()[self.groups_of(h2)[t] as int],
                ) == h2 by {
                    assert(self.groups_of(h2) == self_entry.groups_of(h2));
                    assert(self_entry.groups_of(h2)[t] == self.groups_of(h2)[t]);
                }
                assert forall|g2: int| 0 <= g2 < self.keys().len() implies (
                #[trigger] self.groups_of(fingerprint_of(self.seed, self.keys()[g2]))).contains(
                    g2 as usize,
                ) by {
                    let h2 = fingerprint_of(self.seed, self.keys()[g2]);
                    assert(self.keys()[g2] == self_entry.keys()[g2]);
                    assert(self_entry.groups_of(h2).contains(g2 as usize));
                    assert(self.groups_of(h2) == self_entry.groups_of(h2));
                }
            }
            p = p + 1;
        }
        let ghost post_loop_self = *self;
        pool.close(&mut self.memory_consumer);
        proof {
            let pre_hist_self = *self;
            assert(pre_hist_self.map@ == post_loop_self.map@);
            assert(pre_hist_self.group_states@ == post_loop_self.group_states@);
            self.history@ = hist_new;
            assert forall|h2: u64, t: int|
                0 <= t < self.groups_of(h2).len() implies ((
            #[trigger] self.groups_of(h2)[t]) as int) < self.keys().len() && fingerprint_of(
                self.seed,
                self.keys()[self.groups_of(h2)[t] as int],
            ) == h2 by {
                assert(self.groups_of(h2) == post_loop_self.groups_of(h2));
                assert(self.keys() == post_loop_self.keys());
            }
            assert forall|g: int| 0 <= g < self.keys().len() implies (#[trigger] self.groups_of(
                fingerprint_of(self.seed, self.keys()[g]),
            )).contains(g as usize) by {
                let h2 = fingerprint_of(self.seed, self.keys()[g]);
                assert(self.keys() == post_loop_self.keys());
                assert(post_loop_self.groups_of(h2).contains(g as usize));
                assert(self.groups_of(h2) == post_loop_self.groups_of(h2));
            }
            // every group's scratch is clear and its fold is complete
            assert forall|g: int| 0 <= g < self.group_states@.len() implies (
            #[trigger] self.group_states@[g]).indices@.len() == 0 by {
                if groups_with_rows@.contains(g as usize) {
                    let q = choose|q: int|
                        0 <= q < groups_with_rows@.len() && groups_with_rows@[q] == (g as usize);
                    assert(self.group_states@[groups_with_rows@[q] as int].indices@.len() == 0);
                }
            }
            assert forall|g: int, a: int|
                0 <= g < self.group_states@.len() && 0 <= a < self.aggregates@.len() implies
                #[trigger] slot_state(self.group_states@[g].aggregation_buffer@, a) == agg_fold(
                self.aggregates@[a],
                self.is_merge(),
                agg_zero(),
                rows_for_key(self.history@, self.keys()[g], a),
            ) by {
                if groups_with_rows@.contains(g as usize) {
                    let q = choose|q: int|
                        0 <= q < groups_with_rows@.len() && groups_with_rows@[q] == (g as usize);
                    assert(groups_with_rows@[q] as int == g);
                } else {
                    lemma_batch_positions(
                        *batch,
                        gidxs@,
                        aidxs@,
                        krows,
                        self.keys()[g],
                        a,
                        n as int,
                    );
                    assert(rows_for_key(brows_all, self.keys()[g], a) =~= Seq::<
                        Option<CellModel>,
                    >::empty());
                    lemma_rows_for_key_append(old_hist, brows_all, self.keys()[g], a);
                    assert(rows_for_key(hist_new, self.keys()[g], a) =~= rows_for_key(
                        old_hist,
                        self.keys()[g],
                        a,
                    ));
                }
            }
            // the postcondition's witnesses
            assert(crate::join::resolve_ok(
                batch.schema.fields@,
                field_names(old_self.group_schema),
                gidxs@,
            )) by {
                assert(gnames@ == field_names(old_self.group_schema));
            }
            assert(crate::join::resolve_ok(batch.schema.fields@, old_self.aggr_names@, aidxs@));
            assert(self.history@ == old_hist + batch_rows(
                *batch,
                gidxs@,
                aidxs@,
                batch.num_rows as int,
            ));
        }
        Result::Ok(())
    }
}

/// Pointwise equal entries attribute equal bytes.
proof fn lemma_attributed_congruent(gs1: Seq<RowGroupState>, gs2: Seq<RowGroupState>, k: int)
    requires
        gs1.len() == gs2.len(),
        k <= gs1.len(),
        forall|j: int| 0 <= j < gs1.len() ==> entry_bytes(#[trigger] gs1[j]) == entry_bytes(gs2[j]),
    ensures
        attributed_groups(gs1, k) == attributed_groups(gs2, k),
    decreases k,
{
    if k > 0 {
        lemma_attributed_congruent(gs1, gs2, k - 1);
    }
}

/// Whether the mode applies raw updates.
fn matches_partial(mode: AggregateMode) -> (r: bool)
    ensures
        r == (mode is Partial),
{
    match mode {
        AggregateMode::Partial => true,
        _ => false,
    }
}

/// The listed positions are no more than the rows.
proof fn lemma_key_positions_len(krows: Seq<Seq<u8>>, key: Seq<u8>, r: int)
    ensures
        key_positions(krows, key, r).len() <= (if r >= 0 {
            r
        } else {
            0
        }),
    decreases r,
{
    if r > 0 {
        lemma_key_positions_len(krows, key, r - 1);
    }
}

/// A key absent from the first appearances leaves nothing at any slot.
proof fn lemma_rows_for_key_absent_all(rows: Seq<ConsumedRow>, key: Seq<u8>)
    requires
        !distinct_keys(rows).contains(key),
    ensures
        forall|a: int| rows_for_key(rows, key, a) == Seq::<Option<CellModel>>::empty(),
{
    assert forall|a: int| rows_for_key(rows, key, a) == Seq::<Option<CellModel>>::empty() by {
        lemma_rows_for_key_absent(rows, key, a);
    }
}

/// The result type of an aggregate function's output column.
pub open spec fn agg_out_type(f: AggregateFunc) -> DataType {
    match f {
        AggregateFunc::Sum => DataType::Int64,
        AggregateFunc::Count => DataType::UInt64,
    }
}

impl GroupedHashAggregateStreamV2 {
    /// The output schema: the grouping fields, then one field per
    /// aggregate, named after its input column.
    pub fn schema(&self) -> (r: Schema)
        requires
            self.aggregates@.len() == self.aggr_names@.len(),
        ensures
            r.fields@.len() == self.group_schema.fields@.len() + self.aggregates@.len(),
            forall|c: int|
                0 <= c < self.group_schema.fields@.len() ==> #[trigger] r.fields@[c]
                    == self.group_schema.fields@[c],
            forall|a: int|
                0 <= a < self.aggregates@.len()
                    ==> (#[trigger] r.fields@[self.group_schema.fields@.len() + a]).data_type
                    == agg_out_type(self.aggregates@[a]) && r.fields@[self.group_schema.fields@.len()
                    + a].name@ == self.aggr_names@[a]@,
    {
        let mut fields = crate::columns::schema_fields_copy(&self.group_schema);
        let ghost base = fields@;
        let m = self.aggregates.len();
        let mut a: usize = 0;
        while a < m
            invariant
                a <= m,
                m == self.aggregates@.len(),
                m == self.aggr_names@.len(),
                base == self.group_schema.fields@,
                fields@.len() == base.len() + a,
                forall|c: int| 0 <= c < base.len() ==> #[trigger] fields@[c] == base[c],
                forall|q: int|
                    0 <= q < a ==> (#[trigger] fields@[base.len() + q]).data_type == agg_out_type(
                        self.aggregates@[q],
                    ) && fields@[base.len() + q].name@ == self.aggr_names@[q]@,
            decreases m - a,
        {
            let dt = match self.aggregates[a] {
                AggregateFunc::Sum => DataType::Int64,
                AggregateFunc::Count => DataType::UInt64,
            };
            let nullable = match self.aggregates[a] {
                AggregateFunc::Sum => true,
                AggregateFunc::Count => false,
            };
            fields.push(Field { name: self.aggr_names[a].clone(), data_type: dt, nullable });
            a = a + 1;
        }
        Schema { fields }
    }

    /// Emits the next page of groups once the input is drained:
    /// groups `[skip, skip + batch_size)` in creation order, their
    /// keys decoded into the grouping columns and each aggregate
    /// evaluated. Past the last group the stream ends, the state is
    /// dropped and every granted byte is given back.
    #[verifier::rlimit(100)]
    pub fn create_batch_from_map(&mut self) -> (r: Result<Option<Batch>, ExecError>)
        requires
            old(self).wf(),
        ensures
            final(self).wf(),
            final(self).mode == old(self).mode,
            final(self).group_schema == old(self).group_schema,
            final(self).aggregates == old(self).aggregates,
            final(self).aggr_names == old(self).aggr_names,
            final(self).batch_size == old(self).batch_size,
            final(self).seed == old(self).seed,
            r is Ok,
            match r {
                Result::Ok(out) => {
                    let skip = old(self).row_group_skip_position as int;
                    let len = old(self).group_states@.len() as int;
                    let gn = old(self).group_schema.fields@.len() as int;
                    match out {
                        Option::None => skip > len && final(self).memory_consumer.used == 0
                            && final(self).group_states@.len() == 0
                            && final(self).row_group_skip_position == old(self).row_group_skip_position,
                        Option::Some(b) => {
                            &&& skip <= len
                            &&& final(self).group_states@ == old(self).group_states@
                            &&& final(self).history@ == old(self).history@
                            &&& final(self).row_group_skip_position == (if old(
                                self,
                            ).row_group_skip_position + old(self).batch_size <= usize::MAX {
                                old(self).row_group_skip_position + old(self).batch_size
                            } else {
                                usize::MAX as int
                            })
                            &&& b.wf()
                            &&& b.schema.fields@.len() == gn + old(self).aggregates@.len()
                            &&& (len == 0 ==> b.num_rows == 0)
                            &&& (len > 0 ==> b.num_rows == (if skip + old(self).batch_size <= len {
                                old(self).batch_size as int
                            } else {
                                len - skip
                            }))
                            &&& (len > 0 ==> forall|c: int, t: int|
                                0 <= c < gn && 0 <= t < b.num_rows
                                    ==> #[trigger] b.columns@[c].cells()[t] == decode_row(
                                    old(self).group_dts(),
                                    old(self).keys()[skip + t],
                                )->0[c])
                            &&& (len > 0 ==> forall|a: int, t: int|
                                0 <= a < old(self).aggregates@.len() && 0 <= t < b.num_rows
                                    ==> #[trigger] b.columns@[gn + a].cells()[t] == crate::accum::agg_evaluate(
                                    old(self).aggregates@[a],
                                    slot_state(
                                        old(self).group_states@[skip + t].aggregation_buffer@,
                                        a,
                                    ),
                                ))
                        },
                    }
                },
                Result::Err(_) => false,
            },
    {
        let len = self.group_states.len();
        let skip = self.row_group_skip_position;
        if skip > len {
            // end of stream: drop the state and give the bytes back
            let used = self.memory_consumer.mem_used();
            self.memory_consumer.shrink(used);
            self.map = HashMap::new();
            self.group_states = Vec::new();
            self.groups_cap = 0;
            self.map_cap = 0;
            proof {
                self.history@ = Seq::empty();
            }
            proof {
                assert(self.keys() =~= Seq::<Seq<u8>>::empty());
                assert(distinct_keys(self.history@) =~= Seq::<Seq<u8>>::empty());
                assert forall|h: u64, t: int| 0 <= t < self.groups_of(h).len() implies ((
                #[trigger] self.groups_of(h)[t]) as int) < self.keys().len() && fingerprint_of(
                    self.seed,
                    self.keys()[self.groups_of(h)[t] as int],
                ) == h by {
                    assert(!self.map@.contains_key(h));
                }
                assert(self.attributed() == 0);
            }
            return Result::Ok(Option::None);
        }
        let out_schema = self.schema();
        let gn = self.group_schema.fields.len();
        let m = self.aggregates.len();
        let end = if self.batch_size <= len - skip {
            skip + self.batch_size
        } else {
            len
        };
        let count = end - skip;
        // decode the block's keys into the grouping columns
        let mut dts: Vec<DataType> = Vec::new();
        let mut c: usize = 0;
        while c < gn
            invariant
                c <= gn,
                gn == self.group_schema.fields@.len(),
                dts@.len() == c,
                forall|q: int| 0 <= q < c ==> #[trigger] dts@[q] == self.group_dts()[q],
            decreases gn - c,
        {
            dts.push(self.group_schema.fields[c].data_type);
            c = c + 1;
        }
        proof {
            assert(dts@ =~= self.group_dts());
        }
        let mut rows: Vec<Vec<u8>> = Vec::new();
        let mut t: usize = 0;
        while t < count
            invariant
                t <= count,
                skip + count <= len,
                len == self.group_states@.len(),
                rows@.len() == t,
                forall|q: int|
                    0 <= q < t ==> (#[trigger] rows@[q])@ == self.group_states@[skip
                        + q].group_by_values@,
            decreases count - t,
        {
            let kb = clone_bytes(&self.group_states[skip + t].group_by_values);
            rows.push(kb);
            t = t + 1;
        }
        proof {
            assert forall|i: int| 0 <= i < rows@.len() implies decode_row(
                dts@,
                (#[trigger] rows@[i])@,
            ) is Some by {
                assert(self.group_states@[skip + i].group_by_values@ == self.keys()[skip + i]);
            }
        }
        let group_cols = crate::rowcodec::read_as_batch(&rows, &dts);
        let mut columns: Vec<crate::types::Column> = group_cols;
        // evaluate each aggregate over the block
        let mut a: usize = 0;
        while a < m
            invariant
                a <= m,
                m == self.aggregates@.len(),
                self.wf(),
                gn == self.group_schema.fields@.len(),
                skip + count <= len,
                len == self.group_states@.len(),
                columns@.len() == gn + a,
                forall|q: int|
                    0 <= q < gn ==> (#[trigger] columns@[q]).data_type == self.group_dts()[q]
                        && columns@[q].wf() && columns@[q].cells().len() == count,
                forall|q: int, tt: int|
                    0 <= q < gn && 0 <= tt < count ==> #[trigger] columns@[q].cells()[tt]
                        == decode_row(
                        self.group_dts(),
                        self.group_states@[skip + tt].group_by_values@,
                    )->0[q],
                forall|q: int|
                    gn <= q < gn + a ==> (#[trigger] columns@[q]).data_type == agg_out_type(
                        self.aggregates@[q - gn],
                    ) && columns@[q].wf() && columns@[q].cells().len() == count,
                forall|q: int, tt: int|
                    gn <= q < gn + a && 0 <= tt < count ==> #[trigger] columns@[q].cells()[tt]
                        == crate::accum::agg_evaluate(
                        self.aggregates@[q - gn],
                        slot_state(self.group_states@[skip + tt].aggregation_buffer@, q - gn),
                    ),
            decreases m - a,
        {
            let f = self.aggregates[a];
            let mut vals: Vec<Option<crate::types::CellValue>> = Vec::new();
            let mut t2: usize = 0;
            while t2 < count
                invariant
                    t2 <= count,
                    m == self.aggregates@.len(),
                    a < m,
                    f == self.aggregates@[a as int],
                    self.wf(),
                    skip + count <= len,
                    len == self.group_states@.len(),
                    vals@.len() == t2,
                    forall|q: int|
                        0 <= q < t2 ==> crate::types::cell_model(#[trigger] vals@[q])
                            == crate::accum::agg_evaluate(
                            f,
                            slot_state(self.group_states@[skip + q].aggregation_buffer@, a as int),
                        ),
                decreases count - t2,
            {
                proof {
                    assert(self.group_states@[skip + t2].aggregation_buffer@.len() == 16
                        * self.aggregates@.len());
                }
                let cell = crate::accum::evaluate(
                    f,
                    &self.group_states[skip + t2].aggregation_buffer,
                    a,
                );
                vals.push(cell);
                t2 = t2 + 1;
            }
            let dt_out = match f {
                AggregateFunc::Sum => DataType::Int64,
                AggregateFunc::Count => DataType::UInt64,
            };
            let col = crate::types::Column { data_type: dt_out, values: vals };
            proof {
                assert forall|tt: int| 0 <= tt < count implies #[trigger] col.cells()[tt]
                    == crate::accum::agg_evaluate(
                    f,
                    slot_state(self.group_states@[skip + tt].aggregation_buffer@, a as int),
                ) by {}
                assert forall|tt: int|
                    0 <= tt < col.cells().len() && (#[trigger] col.cells()[tt]) is Some implies
                    crate::types::cell_fits(col.data_type, col.cells()[tt]->0) by {}
            }
            columns.push(col);
            a = a + 1;
        }
        let b = Batch { schema: out_schema, columns, num_rows: count };
        let new_skip = if self.batch_size <= usize::MAX - skip {
            skip + self.batch_size
        } else {
            usize::MAX
        };
        let ghost pre_skip_self = *self;
        self.row_group_skip_position = new_skip;
        proof {
            assert(self.group_states@ == old(self).group_states@);
            assert(self.keys() == pre_skip_self.keys());
            assert forall|h2: u64, t3: int|
                0 <= t3 < self.groups_of(h2).len() implies ((
            #[trigger] self.groups_of(h2)[t3]) as int) < self.keys().len() && fingerprint_of(
                self.seed,
                self.keys()[self.groups_of(h2)[t3] as int],
            ) == h2 by {
                assert(self.groups_of(h2) == pre_skip_self.groups_of(h2));
            }
            assert forall|g: int| 0 <= g < self.keys().len() implies (#[trigger] self.groups_of(
                fingerprint_of(self.seed, self.keys()[g]),
            )).contains(g as usize) by {
                let h2 = fingerprint_of(self.seed, self.keys()[g]);
                assert(pre_skip_self.groups_of(h2).contains(g as usize));
                assert(self.groups_of(h2) == pre_skip_self.groups_of(h2));
            }
            assert forall|q: int, tt: int|
                0 <= q < gn && 0 <= tt < count implies #[trigger] b.columns@[q].cells()[tt]
                == decode_row(self.group_dts(), self.keys()[skip + tt])->0[q] by {
                assert(self.group_states@[skip + tt].group_by_values@ == self.keys()[skip + tt]);
            }
            assert(b.wf()) by {
                assert forall|q: int| 0 <= q < b.columns@.len() implies (
                #[trigger] b.columns@[q]).data_type == b.schema.fields@[q].data_type
                    && b.columns@[q].cells().len() == b.num_rows && b.columns@[q].wf() by {
                    if q < gn {
                        assert(b.schema.fields@[q] == self.group_schema.fields@[q]);
                        assert(b.columns@[q].data_type == self.group_dts()[q]);
                    } else {
                        let a2 = q - gn;
                        assert(b.schema.fields@[gn + a2].data_type == agg_out_type(
                            self.aggregates@[a2],
                        ));
                    }
                }
            }
        }
        Result::Ok(Option::Some(b))
    }
}

/// The number of rows one output page holds, with `len` groups,
/// page size `bs` and the page starting at `skip`: what one
/// `create_batch_from_map` call emits.
pub open spec fn page_rows(len: int, bs: int, skip: int) -> int {
    if skip > len {
        0
    } else if skip + bs <= len {
        bs
    } else {
        len - skip
    }
}

/// The rows of every page from `skip` on, each page advancing the
/// position by the page size.
pub open spec fn pages_total(len: int, bs: int, skip: int) -> int
    decreases
            (if skip > len {
                0
            } else {
                len + 1 - skip
            }),
{
    if skip > len || bs < 1 {
        0
    } else {
        page_rows(len, bs, skip) + pages_total(len, bs, skip + bs)
    }
}

/// Output pagination: paging from the start emits every group
/// exactly once — the emitted pages sum to the number of groups,
/// which the operator keeps equal to the number of distinct keys.
pub proof fn lemma_output_pagination(len: int, bs: int, skip: int)
    requires
        bs >= 1,
        0 <= skip <= len,
    ensures
        pages_total(len, bs, skip) == len - skip,
    decreases len + 1 - skip,
{
    if skip + bs <= len {
        lemma_output_pagination(len, bs, skip + bs);
    } else {
        assert(pages_total(len, bs, skip + bs) == 0);
    }
}

/// What the memory manager granted covers everything the live groups
/// and their containers hold: the accounting never undercounts.
pub proof fn lemma_memory_accounting(s: GroupedHashAggregateStreamV2)
    requires
        s.wf(),
    ensures
        s.memory_consumer.granted@ >= s.attributed(),
        s.memory_consumer.granted@ - s.memory_consumer.shrunk@ == s.memory_consumer.used,
{
}

/// An exact copy of a byte string.
pub fn clone_bytes(a: &Vec<u8>) -> (r: Vec<u8>)
    ensures
        r@ == a@,
{
    let n = a.len();
    let mut r: Vec<u8> = Vec::new();
    let mut i: usize = 0;
    while i < n
        invariant
            i <= n,
            n == a@.len(),
            r@ == a@.subrange(0, i as int),
        decreases n - i,
    {
        r.push(a[i]);
        proof {
            assert(r@ =~= a@.subrange(0, i + 1));
        }
        i = i + 1;
    }
    proof {
        assert(a@.subrange(0, n as int) =~= a@);
    }
    r
}

/// The names of a schema's fields, in order.
pub open spec fn field_names(s: Schema) -> Seq<String> {
    s.fields@.map_values(|f: Field| f.name)
}

/// One input row as the history records it: its encoded group key
/// and its aggregate input cells.
pub open spec fn batch_row(batch: Batch, gidxs: Seq<usize>, aidxs: Seq<usize>, r: int) -> ConsumedRow {
    (
        compact_row(
            col_types(crate::join::selected_cols(batch, gidxs)),
            row_cells(crate::join::selected_cols(batch, gidxs), r),
        ),
        Seq::new(aidxs.len(), |a: int| batch.columns@[aidxs[a] as int].cells()[r]),
    )
}

/// The first `n` rows of a batch as the history records them.
pub open spec fn batch_rows(batch: Batch, gidxs: Seq<usize>, aidxs: Seq<usize>, n: int) -> Seq<
    ConsumedRow,
> {
    Seq::new(n as nat, |r: int| batch_row(batch, gidxs, aidxs, r))
}

/// Whether a batch can be consumed: the grouping and aggregate input
/// columns resolve, and the grouping columns carry the declared types.
pub open spec fn groupable(gs: Schema, anames: Seq<String>, batch: Batch) -> bool {
    &&& !crate::join::name_missing(batch.schema.fields@, field_names(gs))
    &&& !crate::join::name_missing(batch.schema.fields@, anames)
    &&& forall|gidxs: Seq<usize>|
        crate::join::resolve_ok(batch.schema.fields@, field_names(gs), gidxs) ==> (forall|k: int|
            0 <= k < gs.fields@.len() ==> (#[trigger] batch.columns@[gidxs[k] as int]).data_type
                == gs.fields@[k].data_type)
}

/// The rows among the first `r` whose key is `key`, in row order.
pub open spec fn key_positions(krows: Seq<Seq<u8>>, key: Seq<u8>, r: int) -> Seq<u32>
    decreases r,
{
    if r <= 0 {
        Seq::empty()
    } else {
        let p = key_positions(krows, key, r - 1);
        if krows[r - 1] == key {
            p.push((r - 1) as u32)
        } else {
            p
        }
    }
}

/// The listed positions lie below `r`.
proof fn lemma_key_positions_bounds(krows: Seq<Seq<u8>>, key: Seq<u8>, r: int)
    requires
        r <= u32::MAX + 1,
    ensures
        forall|t: int|
            0 <= t < key_positions(krows, key, r).len() ==> ((#[trigger] key_positions(
                krows,
                key,
                r,
            )[t]) as int) < r,
    decreases r,
{
    if r > 0 {
        lemma_key_positions_bounds(krows, key, r - 1);
        let p = key_positions(krows, key, r - 1);
        let cur = key_positions(krows, key, r);
        if krows[r - 1] == key {
            assert forall|t: int| 0 <= t < cur.len() implies ((cur[t]) as int) < r by {
                if t < p.len() {
                    assert(cur[t] == p[t]);
                } else {
                    assert(cur[t] == (r - 1) as u32);
                }
            }
        }
    }
}

/// A key that never occurs leaves no rows and no position.
proof fn lemma_rows_for_key_absent(rows: Seq<ConsumedRow>, key: Seq<u8>, a: int)
    requires
        !distinct_keys(rows).contains(key),
    ensures
        rows_for_key(rows, key, a) == Seq::<Option<CellModel>>::empty(),
    decreases rows.len(),
{
    if rows.len() > 0 {
        let p = distinct_keys(rows.drop_last());
        assert(distinct_keys(rows).contains(rows.last().0)) by {
            if p.contains(rows.last().0) {
            } else {
                assert(distinct_keys(rows)[distinct_keys(rows).len() - 1] == rows.last().0);
            }
        }
        assert(!p.contains(key)) by {
            if p.contains(key) {
                let t = choose|t: int| 0 <= t < p.len() && p[t] == key;
                assert(distinct_keys(rows)[t] == key);
            }
        }
        lemma_rows_for_key_absent(rows.drop_last(), key, a);
    }
}

/// First-appearance keys never repeat.
proof fn lemma_distinct_keys_distinct(rows: Seq<ConsumedRow>)
    ensures
        forall|g1: int, g2: int|
            0 <= g1 < g2 < distinct_keys(rows).len() ==> (#[trigger] distinct_keys(rows)[g1]) != (
            #[trigger] distinct_keys(rows)[g2]),
    decreases rows.len(),
{
    if rows.len() > 0 {
        lemma_distinct_keys_distinct(rows.drop_last());
        let p = distinct_keys(rows.drop_last());
        let cur = distinct_keys(rows);
        if !p.contains(rows.last().0) {
            assert forall|g1: int, g2: int| 0 <= g1 < g2 < cur.len() implies (
            #[trigger] cur[g1]) != (#[trigger] cur[g2]) by {
                if g2 == cur.len() - 1 {
                    assert(cur[g1] == p[g1]);
                    assert(p.contains(p[g1]));
                }
            }
        }
    }
}

/// Appending rows appends their contribution to every key.
proof fn lemma_rows_for_key_append(
    h: Seq<ConsumedRow>,
    b: Seq<ConsumedRow>,
    key: Seq<u8>,
    a: int,
)
    ensures
        rows_for_key(h + b, key, a) == rows_for_key(h, key, a) + rows_for_key(b, key, a),
    decreases b.len(),
{
    if b.len() == 0 {
        assert(h + b =~= h);
        assert(rows_for_key(h, key, a) + rows_for_key(b, key, a) =~= rows_for_key(h, key, a));
    } else {
        lemma_rows_for_key_append(h, b.drop_last(), key, a);
        assert((h + b).drop_last() =~= h + b.drop_last());
        assert((h + b).last() == b.last());
        if b.last().0 == key {
            assert(rows_for_key(h, key, a) + rows_for_key(b.drop_last(), key, a).push(
                b.last().1[a],
            ) =~= (rows_for_key(h, key, a) + rows_for_key(b.drop_last(), key, a)).push(
                b.last().1[a],
            ));
        }
    }
}

/// The same, for the first-appearance keys.
proof fn lemma_distinct_keys_append_absent(
    h: Seq<ConsumedRow>,
    b: Seq<ConsumedRow>,
    key: Seq<u8>,
)
    requires
        forall|i: int| 0 <= i < b.len() ==> (#[trigger] b[i]).0 != key,
    ensures
        distinct_keys(h + b).contains(key) == distinct_keys(h).contains(key),
    decreases b.len(),
{
    if b.len() == 0 {
        assert(h + b =~= h);
    } else {
        assert(forall|i: int| 0 <= i < b.drop_last().len() ==> (#[trigger] b.drop_last()[i]).0
            != key);
        lemma_distinct_keys_append_absent(h, b.drop_last(), key);
        assert((h + b).drop_last() =~= h + b.drop_last());
        assert((h + b).last() == b.last());
        let p = distinct_keys(h + b.drop_last());
        let cur = distinct_keys(h + b);
        assert(b.last().0 != key) by {
            assert(b[b.len() - 1].0 != key);
        }
        assert(cur.contains(key) == p.contains(key)) by {
            if p.contains(b.last().0) {
                assert(cur == p);
            } else {
                assert(cur == p.push(b.last().0));
                if cur.contains(key) {
                    let t = choose|t: int| 0 <= t < cur.len() && cur[t] == key;
                    assert(t < p.len());
                    assert(p[t] == key);
                }
                if p.contains(key) {
                    let t = choose|t: int| 0 <= t < p.len() && p[t] == key;
                    assert(cur[t] == key);
                }
            }
        }
    }
}

/// The batch rows for a key are its key positions, read through the
/// aggregate input column.
proof fn lemma_batch_positions(
    batch: Batch,
    gidxs: Seq<usize>,
    aidxs: Seq<usize>,
    krows: Seq<Seq<u8>>,
    key: Seq<u8>,
    a: int,
    r: int,
)
    requires
        0 <= r <= u32::MAX,
        0 <= a < aidxs.len(),
        forall|i: int| 0 <= i < r ==> #[trigger] krows[i] == batch_row(batch, gidxs, aidxs, i).0,
    ensures
        rows_for_key(batch_rows(batch, gidxs, aidxs, r), key, a).len() == key_positions(
            krows,
            key,
            r,
        ).len(),
        forall|t: int|
            0 <= t < key_positions(krows, key, r).len() ==> #[trigger] rows_for_key(
                batch_rows(batch, gidxs, aidxs, r),
                key,
                a,
            )[t] == batch.columns@[aidxs[a] as int].cells()[key_positions(krows, key, r)[t] as int],
    decreases r,
{
    if r == 0 {
        assert(batch_rows(batch, gidxs, aidxs, 0) =~= Seq::<ConsumedRow>::empty());
    } else {
        lemma_batch_positions(batch, gidxs, aidxs, krows, key, a, r - 1);
        let brows = batch_rows(batch, gidxs, aidxs, r);
        let prev = batch_rows(batch, gidxs, aidxs, r - 1);
        assert(brows.drop_last() =~= prev);
        assert(brows.last() == batch_row(batch, gidxs, aidxs, r - 1));
        let pp = key_positions(krows, key, r - 1);
        let cc = key_positions(krows, key, r);
        let rp = rows_for_key(prev, key, a);
        let rc = rows_for_key(brows, key, a);
        if krows[r - 1] == key {
            assert(brows.last().0 == key);
            assert(brows.last().1[a] == batch.columns@[aidxs[a] as int].cells()[r - 1]);
            assert(rc == rp.push(brows.last().1[a]));
            assert(cc == pp.push((r - 1) as u32));
            assert forall|t: int| 0 <= t < cc.len() implies #[trigger] rc[t] == batch.columns@[
                aidxs[a] as int
            ].cells()[cc[t] as int] by {
                if t < pp.len() {
                    assert(rc[t] == rp[t]);
                    assert(cc[t] == pp[t]);
                } else {
                    assert(cc[t] == (r - 1) as u32);
                }
            }
        } else {
            assert(brows.last().0 != key);
            assert(rc == rp);
            assert(cc == pp);
        }
    }
}

/// Two byte strings are equal exactly when their contents are.
fn bytes_equal(a: &Vec<u8>, b: &Vec<u8>) -> (r: bool)
    ensures
        r == (a@ == b@),
{
    let n = a.len();
    if n != b.len() {
        proof {
            assert(a@ != b@);
        }
        return false;
    }
    let mut i: usize = 0;
    while i < n
        invariant
            i <= n,
            n == a@.len(),
            n == b@.len(),
            forall|q: int| 0 <= q < i ==> #[trigger] a@[q] == b@[q],
        decreases n - i,
    {
        if a[i] != b[i] {
            return false;
        }
        i = i + 1;
    }
    proof {
        assert(a@ =~= b@);
    }
    true
}

impl GroupedHashAggregateStreamV2 {
    /// Probes the table with a precomputed hash and the encoded key:
    /// the candidate positions under the hash are checked against the
    /// stored key bytes.
    fn find_group(&self, h: u64, key: &Vec<u8>) -> (r: Option<usize>)
        requires
            self.table_ok(),
            forall|g1: int, g2: int|
                0 <= g1 < g2 < self.keys().len() ==> (#[trigger] self.keys()[g1]) != (
                #[trigger] self.keys()[g2]),
            h == fingerprint_of(self.seed, key@),
        ensures
            match r {
                Option::Some(g) => (g as int) < self.keys().len() && self.keys()[g as int] == key@,
                Option::None => !self.keys().contains(key@),
            },
    {
        proof {
            assert(vstd::std_specs::vec::spec_vec_len(&self.group_states)
                == self.group_states@.len());
        }
        match self.map.get(&h) {
            Option::None => {
                proof {
                    if self.keys().contains(key@) {
                        let g = choose|g: int|
                            0 <= g < self.keys().len() && self.keys()[g] == key@;
                        assert(self.groups_of(fingerprint_of(self.seed, self.keys()[g])).contains(
                            g as usize,
                        ));
                        assert(self.map@.contains_key(h));
                    }
                }
                Option::None
            },
            Option::Some(bucket) => {
                let n = bucket.len();
                let mut t: usize = 0;
                while t < n
                    invariant
                        t <= n,
                        n == bucket@.len(),
                        bucket@ == self.groups_of(h),
                        self.table_ok(),
                        forall|g1: int, g2: int|
                            0 <= g1 < g2 < self.keys().len() ==> (#[trigger] self.keys()[g1]) != (
                            #[trigger] self.keys()[g2]),
                        forall|q: int|
                            0 <= q < t ==> self.keys()[(#[trigger] bucket@[q]) as int] != key@,
                    decreases n - t,
                {
                    let idx = bucket[t];
                    proof {
                        assert(self.groups_of(h)[t as int] == idx);
                        assert((idx as int) < self.keys().len());
                        assert(self.keys()[idx as int] == self.group_states@[
                            idx as int
                        ].group_by_values@);
                    }
                    if bytes_equal(&self.group_states[idx].group_by_values, key) {
                        return Option::Some(idx);
                    }
                    t = t + 1;
                }
                proof {
                    if self.keys().contains(key@) {
                        let g = choose|g: int|
                            0 <= g < self.keys().len() && self.keys()[g] == key@;
                        assert(self.groups_of(fingerprint_of(self.seed, self.keys()[g])).contains(
                            g as usize,
                        ));
                        let q = choose|q: int|
                            0 <= q < self.groups_of(h).len() && self.groups_of(h)[q] == (
                            g as usize);
                        assert(self.keys()[(bucket@[q]) as int] != key@);
                    }
                }
                Option::None
            },
        }
    }

    /// Files group position `g` under hash `h`.
    fn table_insert(&mut self, h: u64, g: usize)
        ensures
            final(self).groups_of(h) == old(self).groups_of(h).push(g),
            forall|h2: u64|
                h2 != h ==> #[trigger] final(self).groups_of(h2) == old(self).groups_of(h2),
            final(self).map_cap == old(self).map_cap,
            final(self).group_states == old(self).group_states,
            final(self).groups_cap == old(self).groups_cap,
            final(self).memory_consumer == old(self).memory_consumer,
            final(self).history == old(self).history,
            final(self).mode == old(self).mode,
            final(self).group_schema == old(self).group_schema,
            final(self).aggregates == old(self).aggregates,
            final(self).aggr_names == old(self).aggr_names,
            final(self).batch_size == old(self).batch_size,
            final(self).seed == old(self).seed,
            final(self).row_group_skip_position == old(self).row_group_skip_position,
    {
        let mut bucket: Vec<usize> = match self.map.remove(&h) {
            Option::Some(b) => b,
            Option::None => Vec::new(),
        };
        bucket.push(g);
        self.map.insert(h, bucket);
        proof {
            assert(final(self).groups_of(h) =~= old(self).groups_of(h).push(g));
            assert forall|h2: u64| h2 != h implies #[trigger] final(self).groups_of(h2) == old(
                self,
            ).groups_of(h2) by {}
        }
    }
}

} // verus!
