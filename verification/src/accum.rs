//! The supported accumulators: per-aggregate state machines with
//! update, merge and evaluate over one word-aligned state field. Sums
//! run in wrapping 64-bit arithmetic over signed inputs; counts count
//! non-null cells.

use vstd::prelude::*;

use crate::hashing::signed_image;
use crate::types::{CellModel, CellValue, Column};
use crate::wordlayout::{read_word, word_at, write_word};

verus! {

/// The aggregate functions the operator supports.
#[derive(Clone, Copy, PartialEq, Eq, Structural, Debug)]
pub enum AggregateFunc {
    /// Wrapping sum of signed 64-bit values; null when nothing summed.
    Sum,
    /// Count of non-null values.
    Count,
}

/// Addition modulo two to the sixty-fourth.
pub open spec fn wrap_add(a: u64, b: u64) -> u64 {
    ((a + b) % 0x1_0000_0000_0000_0000) as u64
}

/// The two's-complement image of a signed value in one word.
pub open spec fn image64(x: i64) -> u64 {
    signed_image(x, 8)
}

/// The signed value a word denotes.
pub open spec fn unimage64(u: u64) -> i64 {
    if u < 0x8000_0000_0000_0000 {
        u as i64
    } else {
        (u - 0x1_0000_0000_0000_0000) as i64
    }
}

/// One accumulator state: whether a value was seen, and the word.
pub open spec fn agg_zero() -> (bool, u64) {
    (false, 0u64)
}

/// One update step: folds a raw input cell into the state.
pub open spec fn agg_update(f: AggregateFunc, s: (bool, u64), c: Option<CellModel>) -> (bool, u64) {
    match c {
        Option::None => s,
        Option::Some(v) => match f {
            AggregateFunc::Sum => match v {
                CellModel::Int(x) => (true, wrap_add(s.1, image64(x))),
                _ => s,
            },
            AggregateFunc::Count => (s.0, wrap_add(s.1, 1)),
        },
    }
}

/// One merge step: folds a partial-state cell into the state.
pub open spec fn agg_merge(f: AggregateFunc, s: (bool, u64), c: Option<CellModel>) -> (bool, u64) {
    match c {
        Option::None => s,
        Option::Some(v) => match f {
            AggregateFunc::Sum => match v {
                CellModel::Int(x) => (true, wrap_add(s.1, image64(x))),
                _ => s,
            },
            AggregateFunc::Count => match v {
                CellModel::UInt(x) => (s.0, wrap_add(s.1, x)),
                _ => s,
            },
        },
    }
}

/// The fold of update or merge steps over a cell sequence.
pub open spec fn agg_fold(
    f: AggregateFunc,
    merge: bool,
    s: (bool, u64),
    cells: Seq<Option<CellModel>>,
) -> (bool, u64)
    decreases cells.len(),
{
    if cells.len() == 0 {
        s
    } else {
        let p = agg_fold(f, merge, s, cells.drop_last());
        if merge {
            agg_merge(f, p, cells.last())
        } else {
            agg_update(f, p, cells.last())
        }
    }
}

/// What an accumulator state evaluates to, and equally the partial
/// state cell a `Partial`-mode aggregation emits.
pub open spec fn agg_evaluate(f: AggregateFunc, s: (bool, u64)) -> Option<CellModel> {
    match f {
        AggregateFunc::Sum => if s.0 {
            Option::Some(CellModel::Int(unimage64(s.1)))
        } else {
            Option::None
        },
        AggregateFunc::Count => Option::Some(CellModel::UInt(s.1)),
    }
}

/// Addition modulo two to the sixty-fourth.
pub fn wrap_add_exec(a: u64, b: u64) -> (r: u64)
    ensures
        r == wrap_add(a, b),
{
    if b <= u64::MAX - a {
        a + b
    } else {
        a - (u64::MAX - b) - 1
    }
}

/// The two's-complement image of a signed value in one word.
pub fn image64_exec(x: i64) -> (r: u64)
    ensures
        r == image64(x),
{
    proof {
        crate::hashing::lemma_pow256_values();
    }
    if x >= 0 {
        x as u64
    } else {
        u64::MAX - ((-(x + 1)) as u64)
    }
}

/// The signed value a word denotes.
pub fn unimage64_exec(u: u64) -> (r: i64)
    ensures
        r == unimage64(u),
{
    if u < 0x8000_0000_0000_0000 {
        u as i64
    } else {
        let d = (u - 0x8000_0000_0000_0000) as i64;
        i64::MIN + d
    }
}

/// The state words of aggregate `slot` in a word-aligned buffer.
pub open spec fn slot_state(buf: Seq<u8>, slot: int) -> (bool, u64) {
    (word_at(buf, 2 * slot) != 0, word_at(buf, 2 * slot + 1) as u64)
}

/// Reads the state of aggregate `slot`.
fn read_slot(state: &Vec<u8>, slot: usize) -> (r: (bool, u64))
    requires
        16 * slot + 16 <= state@.len(),
    ensures
        r == slot_state(state@, slot as int),
{
    let l = state.len();
    proof {
        assert(16 * slot + 16 <= l);
    }
    let flag = read_word(state, 2 * slot);
    let value = read_word(state, 2 * slot + 1);
    (flag != 0, value)
}

/// Writes the state of aggregate `slot`, leaving other slots alone.
fn write_slot(state: &mut Vec<u8>, slot: usize, s: (bool, u64))
    requires
        16 * slot + 16 <= old(state)@.len(),
    ensures
        final(state)@.len() == old(state)@.len(),
        slot_state(final(state)@, slot as int) == s,
        forall|s2: int|
            0 <= s2 && 16 * s2 + 16 <= old(state)@.len() && s2 != slot ==> #[trigger] slot_state(
                final(state)@,
                s2,
            ) == slot_state(old(state)@, s2),
{
    let l = state.len();
    proof {
        assert(16 * slot + 16 <= l);
    }
    let flag_word: u64 = if s.0 {
        1
    } else {
        0
    };
    write_word(state, 2 * slot, flag_word);
    write_word(state, 2 * slot + 1, s.1);
}

/// Folds every cell of a raw input column into aggregate `slot` of
/// the group's state buffer: the `Partial` mode step.
pub fn update_batch(f: AggregateFunc, values: &Column, state: &mut Vec<u8>, slot: usize)
    requires
        16 * slot + 16 <= old(state)@.len(),
    ensures
        final(state)@.len() == old(state)@.len(),
        slot_state(final(state)@, slot as int) == agg_fold(
            f,
            false,
            slot_state(old(state)@, slot as int),
            values.cells(),
        ),
        forall|s2: int|
            0 <= s2 && 16 * s2 + 16 <= old(state)@.len() && s2 != slot ==> #[trigger] slot_state(
                final(state)@,
                s2,
            ) == slot_state(old(state)@, s2),
{
    apply_batch(f, false, values, state, slot)
}

/// Folds every partial-state cell of a column into aggregate `slot`:
/// the `Final` and `FinalPartitioned` mode step.
pub fn merge_batch(f: AggregateFunc, values: &Column, state: &mut Vec<u8>, slot: usize)
    requires
        16 * slot + 16 <= old(state)@.len(),
    ensures
        final(state)@.len() == old(state)@.len(),
        slot_state(final(state)@, slot as int) == agg_fold(
            f,
            true,
            slot_state(old(state)@, slot as int),
            values.cells(),
        ),
        forall|s2: int|
            0 <= s2 && 16 * s2 + 16 <= old(state)@.len() && s2 != slot ==> #[trigger] slot_state(
                final(state)@,
                s2,
            ) == slot_state(old(state)@, s2),
{
    apply_batch(f, true, values, state, slot)
}

/// The shared fold loop of update and merge.
fn apply_batch(f: AggregateFunc, merge: bool, values: &Column, state: &mut Vec<u8>, slot: usize)
    requires
        16 * slot + 16 <= old(state)@.len(),
    ensures
        final(state)@.len() == old(state)@.len(),
        slot_state(final(state)@, slot as int) == agg_fold(
            f,
            merge,
            slot_state(old(state)@, slot as int),
            values.cells(),
        ),
        forall|s2: int|
            0 <= s2 && 16 * s2 + 16 <= old(state)@.len() && s2 != slot ==> #[trigger] slot_state(
                final(state)@,
                s2,
            ) == slot_state(old(state)@, s2),
{
    let mut cur = read_slot(state, slot);
    let n = values.values.len();
    let mut i: usize = 0;
    while i < n
        invariant
            i <= n,
            n == values.values@.len(),
            cur == agg_fold(
                f,
                merge,
                slot_state(old(state)@, slot as int),
                values.cells().subrange(0, i as int),
            ),
        decreases n - i,
    {
        let ghost pre = values.cells().subrange(0, i as int);
        proof {
            assert(values.cells().subrange(0, i + 1).drop_last() =~= pre);
            assert(values.cells().subrange(0, i + 1).last() == values.cells()[i as int]);
        }
        let step: (bool, u64) = match &values.values[i] {
            Option::None => cur,
            Option::Some(v) => match (f, v) {
                (AggregateFunc::Sum, CellValue::Int(x)) => (
                    true,
                    wrap_add_exec(cur.1, image64_exec(*x)),
                ),
                (AggregateFunc::Count, _) => {
                    if merge {
                        match v {
                            CellValue::UInt(x) => (cur.0, wrap_add_exec(cur.1, *x)),
                            _ => cur,
                        }
                    } else {
                        (cur.0, wrap_add_exec(cur.1, 1))
                    }
                },
                _ => cur,
            },
        };
        proof {
            assert(crate::types::cell_model(values.values@[i as int]) == values.cells()[i as int]);
        }
        cur = step;
        i = i + 1;
    }
    proof {
        assert(values.cells().subrange(0, n as int) =~= values.cells());
    }
    write_slot(state, slot, cur);
}

/// Evaluates aggregate `slot` of a state buffer to its result cell.
pub fn evaluate(f: AggregateFunc, state: &Vec<u8>, slot: usize) -> (r: Option<CellValue>)
    requires
        16 * slot + 16 <= state@.len(),
    ensures
        crate::types::cell_model(r) == agg_evaluate(f, slot_state(state@, slot as int)),
{
    let (flag, value) = read_slot(state, slot);
    match f {
        AggregateFunc::Sum => {
            if flag {
                Option::Some(CellValue::Int(unimage64_exec(value)))
            } else {
                Option::None
            }
        },
        AggregateFunc::Count => Option::Some(CellValue::UInt(value)),
    }
}

/// Splitting a fold at any point continues from the partial state.
pub proof fn lemma_agg_fold_append(
    f: AggregateFunc,
    merge: bool,
    s: (bool, u64),
    xs: Seq<Option<CellModel>>,
    ys: Seq<Option<CellModel>>,
)
    ensures
        agg_fold(f, merge, s, xs + ys) == agg_fold(f, merge, agg_fold(f, merge, s, xs), ys),
    decreases ys.len(),
{
    if ys.len() == 0 {
        assert(xs + ys =~= xs);
    } else {
        lemma_agg_fold_append(f, merge, s, xs, ys.drop_last());
        assert((xs + ys).drop_last() =~= xs + ys.drop_last());
        assert((xs + ys).last() == ys.last());
    }
}

/// A fold from any start equals the fold from zero, shifted: the seen
/// flags disjoin and the words add modulo the word size.
proof fn lemma_agg_fold_shift(
    f: AggregateFunc,
    merge: bool,
    s: (bool, u64),
    ys: Seq<Option<CellModel>>,
)
    ensures
        agg_fold(f, merge, s, ys).0 == (s.0 || (f is Sum && agg_fold(f, merge, agg_zero(), ys).0)),
        agg_fold(f, merge, s, ys).1 == wrap_add(s.1, agg_fold(f, merge, agg_zero(), ys).1),
        f is Count ==> agg_fold(f, merge, s, ys).0 == s.0,
    decreases ys.len(),
{
    if ys.len() == 0 {
        assert(wrap_add(s.1, 0) == s.1) by {
            vstd::arithmetic::div_mod::lemma_small_mod(s.1 as nat, 0x1_0000_0000_0000_0000);
        }
    } else {
        lemma_agg_fold_shift(f, merge, s, ys.drop_last());
        let p0 = agg_fold(f, merge, agg_zero(), ys.drop_last());
        let ps = agg_fold(f, merge, s, ys.drop_last());
        lemma_wrap_add_assoc(s.1, p0.1);
    }
}

/// Wrapped addition associates.
proof fn lemma_wrap_add_assoc(a: u64, b: u64)
    ensures
        forall|c: u64| #[trigger] wrap_add(wrap_add(a, b), c) == wrap_add(a, wrap_add(b, c)),
{
    assert forall|c: u64| #[trigger] wrap_add(wrap_add(a, b), c) == wrap_add(a, wrap_add(b, c)) by {
        let m: int = 0x1_0000_0000_0000_0000;
        vstd::arithmetic::div_mod::lemma_add_mod_noop(a + b, c as int, m);
        vstd::arithmetic::div_mod::lemma_add_mod_noop_right(a as int, b + c, m);
        vstd::arithmetic::div_mod::lemma_small_mod(c as nat, m as nat);
        vstd::arithmetic::div_mod::lemma_small_mod(a as nat, m as nat);
    }
}

/// The word image round-trips through its signed reading.
proof fn lemma_image_roundtrip(u: u64)
    ensures
        image64(unimage64(u)) == u,
{
    crate::hashing::lemma_pow256_values();
}

/// Aggregation mode equivalence: aggregating two partitions in
/// `Partial` mode and merging the two emitted partial states gives
/// the same accumulator state as aggregating the whole input at once.
pub proof fn lemma_aggregation_mode_equivalence(
    f: AggregateFunc,
    xs: Seq<Option<CellModel>>,
    ys: Seq<Option<CellModel>>,
)
    ensures
        agg_fold(
            f,
            true,
            agg_zero(),
            seq![
                agg_evaluate(f, agg_fold(f, false, agg_zero(), xs)),
                agg_evaluate(f, agg_fold(f, false, agg_zero(), ys)),
            ],
        ).1 == agg_fold(f, false, agg_zero(), xs + ys).1,
        agg_evaluate(
            f,
            agg_fold(
                f,
                true,
                agg_zero(),
                seq![
                    agg_evaluate(f, agg_fold(f, false, agg_zero(), xs)),
                    agg_evaluate(f, agg_fold(f, false, agg_zero(), ys)),
                ],
            ),
        ) == agg_evaluate(f, agg_fold(f, false, agg_zero(), xs + ys)),
{
    let sx = agg_fold(f, false, agg_zero(), xs);
    let sy = agg_fold(f, false, agg_zero(), ys);
    let sall = agg_fold(f, false, agg_zero(), xs + ys);
    lemma_agg_fold_append(f, false, agg_zero(), xs, ys);
    lemma_agg_fold_shift(f, false, sx, ys);
    let parts = seq![agg_evaluate(f, sx), agg_evaluate(f, sy)];
    assert(parts.drop_last() =~= seq![agg_evaluate(f, sx)]);
    assert(seq![agg_evaluate(f, sx)].drop_last() =~= Seq::<Option<CellModel>>::empty());
    let m1 = agg_merge(f, agg_zero(), agg_evaluate(f, sx));
    let m2 = agg_merge(f, m1, agg_evaluate(f, sy));
    assert(agg_fold(f, true, agg_zero(), Seq::<Option<CellModel>>::empty()) == agg_zero());
    assert(seq![agg_evaluate(f, sx)].last() == agg_evaluate(f, sx));
    assert(agg_fold(f, true, agg_zero(), seq![agg_evaluate(f, sx)]) == m1);
    assert(parts.last() == agg_evaluate(f, sy));
    assert(agg_fold(f, true, agg_zero(), parts) == m2);
    match f {
        AggregateFunc::Sum => {
            lemma_image_roundtrip(sx.1);
            lemma_image_roundtrip(sy.1);
            if sx.0 {
                assert(m1.1 == wrap_add(0, sx.1)) by {
                    vstd::arithmetic::div_mod::lemma_small_mod(
                        sx.1 as nat,
                        0x1_0000_0000_0000_0000,
                    );
                }
            } else {
                assert(sx.1 == 0) by {
                    lemma_sum_unseen_zero(xs);
                }
                assert(m1.1 == 0);
            }
            if sy.0 {
                lemma_wrap_add_assoc(0, sx.1);
            } else {
                assert(sy.1 == 0) by {
                    lemma_sum_unseen_zero(ys);
                }
                assert(wrap_add(m1.1, 0) == m1.1) by {
                    vstd::arithmetic::div_mod::lemma_small_mod(
                        m1.1 as nat,
                        0x1_0000_0000_0000_0000,
                    );
                }
            }
            assert(wrap_add(0, sall.1) == sall.1) by {
                vstd::arithmetic::div_mod::lemma_small_mod(sall.1 as nat, 0x1_0000_0000_0000_0000);
            }
            assert(m2.1 == sall.1) by {
                if sx.0 && sy.0 {
                    assert(wrap_add(0, sx.1) == sx.1) by {
                        vstd::arithmetic::div_mod::lemma_small_mod(
                            sx.1 as nat,
                            0x1_0000_0000_0000_0000,
                        );
                    }
                }
            }
            assert(m2.0 == sall.0);
        },
        AggregateFunc::Count => {
            assert(m1.1 == wrap_add(0, sx.1)) by {}
            assert(wrap_add(0, sx.1) == sx.1) by {
                vstd::arithmetic::div_mod::lemma_small_mod(sx.1 as nat, 0x1_0000_0000_0000_0000);
            }
            assert(wrap_add(0, sall.1) == sall.1) by {
                vstd::arithmetic::div_mod::lemma_small_mod(sall.1 as nat, 0x1_0000_0000_0000_0000);
            }
        },
    }
}

/// The raw input cells of several partitions, in order.
pub open spec fn parts_flatten(parts: Seq<Seq<Option<CellModel>>>) -> Seq<Option<CellModel>>
    decreases parts.len(),
{
    if parts.len() == 0 {
        Seq::empty()
    } else {
        parts_flatten(parts.drop_last()) + parts.last()
    }
}

/// The partial-state cells the partitions emit in `Partial` mode.
pub open spec fn partial_cells(f: AggregateFunc, parts: Seq<Seq<Option<CellModel>>>) -> Seq<
    Option<CellModel>,
> {
    parts.map_values(
        |p: Seq<Option<CellModel>>| agg_evaluate(f, agg_fold(f, false, agg_zero(), p)),
    )
}

/// Merging the partials of any partition reaches the state of
/// aggregating the whole input: the words agree, and so do the seen
/// flags wherever the result reads them.
proof fn lemma_merge_partials(f: AggregateFunc, parts: Seq<Seq<Option<CellModel>>>)
    ensures
        agg_fold(f, true, agg_zero(), partial_cells(f, parts)).1 == agg_fold(
            f,
            false,
            agg_zero(),
            parts_flatten(parts),
        ).1,
        f is Sum ==> agg_fold(f, true, agg_zero(), partial_cells(f, parts)).0 == agg_fold(
            f,
            false,
            agg_zero(),
            parts_flatten(parts),
        ).0,
        f is Count ==> !agg_fold(f, true, agg_zero(), partial_cells(f, parts)).0 && !agg_fold(
            f,
            false,
            agg_zero(),
            parts_flatten(parts),
        ).0,
    decreases parts.len(),
{
    if parts.len() == 0 {
        assert(partial_cells(f, parts) =~= Seq::<Option<CellModel>>::empty());
    } else {
        let pre = parts.drop_last();
        lemma_merge_partials(f, pre);
        let mk = agg_fold(f, true, agg_zero(), partial_cells(f, pre));
        let uk = agg_fold(f, false, agg_zero(), parts_flatten(pre));
        let l0 = agg_fold(f, false, agg_zero(), parts.last());
        assert(partial_cells(f, parts).drop_last() =~= partial_cells(f, pre));
        assert(partial_cells(f, parts).last() == agg_evaluate(f, l0));
        assert(agg_fold(f, true, agg_zero(), partial_cells(f, parts)) == agg_merge(
            f,
            mk,
            agg_evaluate(f, l0),
        ));
        lemma_agg_fold_append(f, false, agg_zero(), parts_flatten(pre), parts.last());
        lemma_agg_fold_shift(f, false, uk, parts.last());
        match f {
            AggregateFunc::Sum => {
                if l0.0 {
                    lemma_image_roundtrip(l0.1);
                } else {
                    lemma_sum_unseen_zero(parts.last());
                    assert(l0.1 == 0);
                    assert(wrap_add(mk.1, 0) == mk.1) by {
                        vstd::arithmetic::div_mod::lemma_small_mod(
                            mk.1 as nat,
                            0x1_0000_0000_0000_0000,
                        );
                    }
                }
            },
            AggregateFunc::Count => {
            },
        }
    }
}

/// Aggregation mode equivalence for any number of partitions:
/// merging the partial states the parts emit evaluates to the same
/// result as aggregating the whole input at once.
pub proof fn lemma_aggregation_mode_equivalence_n(
    f: AggregateFunc,
    parts: Seq<Seq<Option<CellModel>>>,
)
    ensures
        agg_evaluate(f, agg_fold(f, true, agg_zero(), partial_cells(f, parts))) == agg_evaluate(
            f,
            agg_fold(f, false, agg_zero(), parts_flatten(parts)),
        ),
{
    lemma_merge_partials(f, parts);
}

/// A sum that has seen nothing holds the zero word.
proof fn lemma_sum_unseen_zero(xs: Seq<Option<CellModel>>)
    ensures
        !agg_fold(AggregateFunc::Sum, false, agg_zero(), xs).0 ==> agg_fold(
            AggregateFunc::Sum,
            false,
            agg_zero(),
            xs,
        ).1 == 0,
    decreases xs.len(),
{
    if xs.len() > 0 {
        lemma_sum_unseen_zero(xs.drop_last());
    }
}

} // verus!
