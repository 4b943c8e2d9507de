use hash_ops::accum::AggregateFunc;
use hash_ops::aggregate::GroupedHashAggregateStreamV2;
use hash_ops::memory::{AggregationStateMemoryConsumer, ShortLivedMemoryPool};
use hash_ops::types::{AggregateMode, Batch, CellValue, Column, DataType, ExecError, Field, Schema};

fn field(name: &str, dt: DataType) -> Field {
    Field { name: name.to_string(), data_type: dt, nullable: true }
}

fn col_i64(vals: &[Option<i64>]) -> Column {
    Column {
        data_type: DataType::Int64,
        values: vals.iter().map(|v| v.map(CellValue::Int)).collect(),
    }
}

fn batch_ab(a: &[Option<i64>], b: &[Option<i64>]) -> Batch {
    Batch {
        schema: Schema {
            fields: vec![field("g", DataType::Int64), field("v", DataType::Int64)],
        },
        columns: vec![col_i64(a), col_i64(b)],
        num_rows: a.len(),
    }
}

fn sum_count_aggregator(mode: AggregateMode, batch_size: usize) -> GroupedHashAggregateStreamV2 {
    GroupedHashAggregateStreamV2::new(
        mode,
        Schema { fields: vec![field("g", DataType::Int64)] },
        vec![AggregateFunc::Sum, AggregateFunc::Count],
        vec!["v".to_string(), "v".to_string()],
        batch_size,
        1 << 30,
        0,
    )
    .unwrap()
}

fn drain(agg: &mut GroupedHashAggregateStreamV2) -> Vec<Batch> {
    let mut out = Vec::new();
    loop {
        match agg.create_batch_from_map() {
            Ok(Some(b)) => out.push(b),
            Ok(None) => break,
            Err(e) => panic!("aggregation error {:?}", e),
        }
    }
    out
}

fn rows_of(batches: &[Batch]) -> Vec<Vec<Option<i64>>> {
    let mut rows = Vec::new();
    for b in batches {
        for t in 0..b.num_rows {
            let mut row = Vec::new();
            for c in &b.columns {
                row.push(match &c.values[t] {
                    Some(CellValue::Int(v)) => Some(*v),
                    Some(CellValue::UInt(v)) => Some(*v as i64),
                    Some(_) => panic!("unexpected cell kind"),
                    None => None,
                });
            }
            rows.push(row);
        }
    }
    rows
}

fn sorted(mut rows: Vec<Vec<Option<i64>>>) -> Vec<Vec<Option<i64>>> {
    rows.sort();
    rows
}

#[test]
fn partial_sum_and_count_by_group() {
    let mut agg = sum_count_aggregator(AggregateMode::Partial, 1024);
    let batch = batch_ab(
        &[Some(1), Some(2), Some(1), Some(2), Some(1)],
        &[Some(10), Some(20), Some(30), None, Some(2)],
    );
    agg.group_aggregate_batch(&batch).unwrap();
    let out = drain(&mut agg);
    assert_eq!(
        sorted(rows_of(&out)),
        vec![
            vec![Some(1), Some(42), Some(3)],
            vec![Some(2), Some(20), Some(1)],
        ]
    );
    // after the stream ends every granted byte has been given back
    assert_eq!(agg.memory_consumer.used, 0);
}

#[test]
fn groups_keep_first_appearance_order() {
    let mut agg = sum_count_aggregator(AggregateMode::Partial, 1024);
    agg.group_aggregate_batch(&batch_ab(
        &[Some(7), Some(3), Some(7), Some(9)],
        &[Some(1), Some(1), Some(1), Some(1)],
    ))
    .unwrap();
    agg.group_aggregate_batch(&batch_ab(&[Some(3), Some(5)], &[Some(1), Some(1)])).unwrap();
    let out = drain(&mut agg);
    let rows = rows_of(&out);
    let keys: Vec<Option<i64>> = rows.iter().map(|r| r[0]).collect();
    assert_eq!(keys, vec![Some(7), Some(3), Some(9), Some(5)]);
}

#[test]
fn group_identity_under_permutation() {
    let mut agg1 = sum_count_aggregator(AggregateMode::Partial, 1024);
    agg1.group_aggregate_batch(&batch_ab(
        &[Some(1), Some(2), Some(3), Some(1)],
        &[Some(1), Some(2), Some(3), Some(4)],
    ))
    .unwrap();
    let out1 = drain(&mut agg1);
    let mut agg2 = sum_count_aggregator(AggregateMode::Partial, 1024);
    agg2.group_aggregate_batch(&batch_ab(
        &[Some(1), Some(3), Some(1), Some(2)],
        &[Some(4), Some(3), Some(1), Some(2)],
    ))
    .unwrap();
    let out2 = drain(&mut agg2);
    // the same rows in any order make the same groups
    assert_eq!(sorted(rows_of(&out1)), sorted(rows_of(&out2)));
    assert_eq!(rows_of(&out1).len(), 3);
}

#[test]
fn null_group_keys_form_their_own_group() {
    let mut agg = sum_count_aggregator(AggregateMode::Partial, 1024);
    agg.group_aggregate_batch(&batch_ab(
        &[None, Some(1), None],
        &[Some(5), Some(6), Some(7)],
    ))
    .unwrap();
    let out = drain(&mut agg);
    assert_eq!(
        sorted(rows_of(&out)),
        vec![vec![None, Some(12), Some(2)], vec![Some(1), Some(6), Some(1)]]
    );
}

#[test]
fn output_pagination_fills_batches() {
    let mut agg = sum_count_aggregator(AggregateMode::Partial, 2);
    agg.group_aggregate_batch(&batch_ab(
        &[Some(1), Some(2), Some(3), Some(4), Some(5)],
        &[Some(1), Some(1), Some(1), Some(1), Some(1)],
    ))
    .unwrap();
    let out = drain(&mut agg);
    let sizes: Vec<usize> = out.iter().map(|b| b.num_rows).collect();
    assert_eq!(sizes, vec![2, 2, 1]);
    assert_eq!(rows_of(&out).len(), 5);
}

#[test]
fn empty_input_emits_one_empty_batch() {
    let mut agg = sum_count_aggregator(AggregateMode::Partial, 4);
    let out = drain(&mut agg);
    assert_eq!(out.len(), 1);
    assert_eq!(out[0].num_rows, 0);
    assert_eq!(out[0].schema.fields.len(), 3);
}

#[test]
fn aggregation_mode_equivalence_on_parts() {
    // Partial over two parts, then Final over the partial states,
    // equals aggregating the whole input at once.
    let part1 = batch_ab(&[Some(1), Some(2)], &[Some(10), Some(20)]);
    let part2 = batch_ab(&[Some(2), Some(1)], &[Some(5), None]);
    let mut p1 = sum_count_aggregator(AggregateMode::Partial, 1024);
    p1.group_aggregate_batch(&part1).unwrap();
    let out1 = drain(&mut p1);
    let mut p2 = sum_count_aggregator(AggregateMode::Partial, 1024);
    p2.group_aggregate_batch(&part2).unwrap();
    let out2 = drain(&mut p2);
    let mut fin = GroupedHashAggregateStreamV2::new(
        AggregateMode::Final,
        Schema { fields: vec![field("g", DataType::Int64)] },
        vec![AggregateFunc::Sum, AggregateFunc::Count],
        vec!["v".to_string(), "c".to_string()],
        1024,
        1 << 30,
        0,
    )
    .unwrap();
    for b in out1.into_iter().chain(out2.into_iter()) {
        // the partial states feed the merge: the sum state as v, the
        // count state as c
        let states = Batch {
            schema: Schema {
                fields: vec![
                    field("g", DataType::Int64),
                    field("v", DataType::Int64),
                    field("c", DataType::UInt64),
                ],
            },
            columns: b.columns,
            num_rows: b.num_rows,
        };
        fin.group_aggregate_batch(&states).unwrap();
    }
    let out = drain(&mut fin);
    assert_eq!(
        sorted(rows_of(&out)),
        vec![
            vec![Some(1), Some(10), Some(1)],
            vec![Some(2), Some(25), Some(2)],
        ]
    );
}

#[test]
fn hash_rows_is_deterministic_and_split_stable() {
    let whole = vec![col_i64(&[Some(1), Some(2), Some(3), None])];
    let mut h1 = vec![0u64; 4];
    hash_ops::hashing::create_hashes(&whole, 7, &mut h1).unwrap();
    let mut h2 = vec![0u64; 4];
    hash_ops::hashing::create_hashes(&whole, 7, &mut h2).unwrap();
    assert_eq!(h1, h2);
    // hashing a split of the same rows gives the same per-row values
    let first = vec![col_i64(&[Some(1), Some(2)])];
    let mut hf = vec![0u64; 2];
    hash_ops::hashing::create_hashes(&first, 7, &mut hf).unwrap();
    assert_eq!(&h1[0..2], &hf[..]);
}

#[test]
fn combine_hashes_matches_formula() {
    let h = hash_ops::hashing::combine_hashes(3, 5);
    assert_eq!(h, (17u64 * 37).wrapping_add(3).wrapping_mul(37).wrapping_add(5));
}

#[test]
fn compact_rows_round_trip() {
    let cols = vec![
        col_i64(&[Some(-5), None, Some(7)]),
        Column {
            data_type: DataType::Utf8,
            values: vec![
                Some(CellValue::Str("ab".to_string())),
                Some(CellValue::Str("".to_string())),
                None,
            ],
        },
    ];
    let rows = hash_ops::rowcodec::create_group_rows(&cols, 3);
    // equal values encode equally, distinct ones differently
    assert_ne!(rows[0], rows[1]);
    let back = hash_ops::rowcodec::read_as_batch(
        &rows,
        &vec![DataType::Int64, DataType::Utf8],
    );
    assert_eq!(back.len(), 2);
    let ints: Vec<Option<i64>> = back[0]
        .values
        .iter()
        .map(|v| match v {
            Some(CellValue::Int(x)) => Some(*x),
            None => None,
            _ => panic!("unexpected cell kind"),
        })
        .collect();
    assert_eq!(ints, vec![Some(-5), None, Some(7)]);
    let strs: Vec<Option<String>> = back[1]
        .values
        .iter()
        .map(|v| match v {
            Some(CellValue::Str(x)) => Some(x.clone()),
            None => None,
            _ => panic!("unexpected cell kind"),
        })
        .collect();
    assert_eq!(strs, vec![Some("ab".to_string()), Some("".to_string()), None]);
}

#[test]
fn memory_consumer_refuses_over_budget_and_spill() {
    let mut consumer = AggregationStateMemoryConsumer::new(100);
    assert!(consumer.try_grow(60).is_ok());
    assert!(matches!(consumer.try_grow(50), Err(ExecError::ResourcesExhausted)));
    assert!(matches!(consumer.spill(), Err(ExecError::ResourcesExhausted)));
    consumer.shrink(60);
    assert_eq!(consumer.mem_used(), 0);
}

#[test]
fn memory_pool_amortizes_and_returns_slack() {
    let mut consumer = AggregationStateMemoryConsumer::new(1 << 24);
    let mut pool = ShortLivedMemoryPool::new();
    pool.allocate(&mut consumer, 10).unwrap();
    // one whole block was granted
    assert_eq!(consumer.mem_used(), 1 << 20);
    pool.allocate(&mut consumer, 10).unwrap();
    assert_eq!(consumer.mem_used(), 1 << 20);
    pool.close(&mut consumer);
    assert_eq!(consumer.mem_used(), 20);
}

#[test]
fn aggregation_over_budget_is_resources_exhausted() {
    let mut agg = GroupedHashAggregateStreamV2::new(
        AggregateMode::Partial,
        Schema { fields: vec![field("g", DataType::Int64)] },
        vec![AggregateFunc::Sum],
        vec!["v".to_string()],
        1024,
        16,
        0,
    )
    .unwrap();
    let r = agg.group_aggregate_batch(&batch_ab(&[Some(1)], &[Some(1)]));
    assert!(matches!(r, Err(ExecError::ResourcesExhausted)));
}

#[test]
fn aggregator_stream_stays_finished() {
    let mut agg = sum_count_aggregator(AggregateMode::Partial, 4);
    agg.group_aggregate_batch(&batch_ab(&[Some(1)], &[Some(2)])).unwrap();
    let out = drain(&mut agg);
    assert_eq!(rows_of(&out).len(), 1);
    // the terminal end of stream is idempotent
    assert!(matches!(agg.create_batch_from_map(), Ok(None)));
    assert!(matches!(agg.create_batch_from_map(), Ok(None)));
    assert_eq!(agg.memory_consumer.used, 0);
}
