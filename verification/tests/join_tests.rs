use hash_ops::columns::concat_batches;
use hash_ops::join::{build_join_indexes, HashJoinExec, HashJoinStream, JoinIndex, JoinLeftData};
use hash_ops::types::{
    Batch, CellValue, Column, DataType, ExecError, Field, JoinType, PartitionMode, Schema,
};

fn field(name: &str) -> Field {
    Field { name: name.to_string(), data_type: DataType::Int32, nullable: true }
}

fn col_i32(vals: &[i32]) -> Column {
    Column {
        data_type: DataType::Int32,
        values: vals.iter().map(|v| Some(CellValue::Int(*v as i64))).collect(),
    }
}

fn build_table_i32(a: (&str, &[i32]), b: (&str, &[i32]), c: (&str, &[i32])) -> Batch {
    Batch {
        schema: Schema { fields: vec![field(a.0), field(b.0), field(c.0)] },
        columns: vec![col_i32(a.1), col_i32(b.1), col_i32(c.1)],
        num_rows: a.1.len(),
    }
}

fn on_vec(on: &[(&str, &str)]) -> Vec<(String, String)> {
    on.iter().map(|(l, r)| (l.to_string(), r.to_string())).collect()
}

fn columns(schema: &Schema) -> Vec<String> {
    schema.fields.iter().map(|f| f.name.clone()).collect()
}

fn rows_of(batches: &[Batch]) -> Vec<Vec<Option<i64>>> {
    let mut rows = Vec::new();
    for b in batches {
        for t in 0..b.num_rows {
            let mut row = Vec::new();
            for c in &b.columns {
                row.push(match &c.values[t] {
                    Some(CellValue::Int(v)) => Some(*v),
                    Some(CellValue::UInt(v)) => Some(*v as i64),
                    Some(_) => panic!("unexpected cell kind"),
                    None => None,
                });
            }
            rows.push(row);
        }
    }
    rows.sort();
    rows
}

fn expected(rows: &[&[Option<i64>]]) -> Vec<Vec<Option<i64>>> {
    let mut v: Vec<Vec<Option<i64>>> = rows.iter().map(|r| r.to_vec()).collect();
    v.sort();
    v
}

fn run_join(
    left_batches: Vec<Batch>,
    right_batches: Vec<Batch>,
    on: &[(&str, &str)],
    jt: JoinType,
) -> (Vec<String>, Vec<Batch>) {
    let left_schema = left_batches[0].schema.clone();
    let right_schema = right_batches[0].schema.clone();
    let exec =
        HashJoinExec::try_new(left_schema, right_schema, &on_vec(on), jt, PartitionMode::CollectLeft)
            .unwrap();
    let names = columns(exec.schema());
    let ld = exec.build_left_data(&left_batches).unwrap();
    let out = probe(&exec, &ld, right_batches, jt);
    (names, out)
}

fn probe(exec: &HashJoinExec, ld: &JoinLeftData, right_batches: Vec<Batch>, jt: JoinType) -> Vec<Batch> {
    let ci = exec.column_indices_from_schema().unwrap();
    let visited = match jt {
        JoinType::Left | JoinType::Full => vec![false; ld.batch.num_rows],
        _ => Vec::new(),
    };
    let mut stream = HashJoinStream {
        schema: exec.schema().clone(),
        on_left: exec.on().iter().map(|p| p.0.clone()).collect(),
        on_right: exec.on().iter().map(|p| p.1.clone()).collect(),
        join_type: jt,
        column_indices: ci,
        visited_left_side: visited,
        is_exhausted: false,
        seed: exec.seed(),
    };
    let mut out = Vec::new();
    for b in right_batches {
        match stream.on_right_event(ld, Some(Ok(b))) {
            Some(Ok(ob)) => out.push(ob),
            Some(Err(e)) => panic!("join error {:?}", e),
            None => panic!("stream ended early"),
        }
    }
    loop {
        match stream.on_right_event(ld, None) {
            Some(Ok(ob)) => out.push(ob),
            Some(Err(e)) => panic!("join error {:?}", e),
            None => break,
        }
    }
    // a finished stream keeps returning the end of stream
    assert!(stream.on_right_event(ld, None).is_none());
    assert!(stream.on_right_event(ld, None).is_none());
    out
}

#[test]
fn join_inner_one() {
    let left =
        build_table_i32(("a1", &[1, 2, 3]), ("b1", &[4, 5, 5]), ("c1", &[7, 8, 9]));
    let right =
        build_table_i32(("a2", &[10, 20, 30]), ("b1", &[4, 5, 6]), ("c2", &[70, 80, 90]));
    let (names, out) = run_join(vec![left], vec![right], &[("b1", "b1")], JoinType::Inner);
    assert_eq!(names, vec!["a1", "b1", "c1", "a2", "c2"]);
    assert_eq!(
        rows_of(&out),
        expected(&[
            &[Some(1), Some(4), Some(7), Some(10), Some(70)],
            &[Some(2), Some(5), Some(8), Some(20), Some(80)],
            &[Some(3), Some(5), Some(9), Some(20), Some(80)],
        ])
    );
}

#[test]
fn join_inner_one_no_shared_column_names() {
    let left =
        build_table_i32(("a1", &[1, 2, 3]), ("b1", &[4, 5, 5]), ("c1", &[7, 8, 9]));
    let right =
        build_table_i32(("a2", &[10, 20, 30]), ("b2", &[4, 5, 6]), ("c2", &[70, 80, 90]));
    let (names, out) = run_join(vec![left], vec![right], &[("b1", "b2")], JoinType::Inner);
    assert_eq!(names, vec!["a1", "b1", "c1", "a2", "b2", "c2"]);
    assert_eq!(
        rows_of(&out),
        expected(&[
            &[Some(1), Some(4), Some(7), Some(10), Some(4), Some(70)],
            &[Some(2), Some(5), Some(8), Some(20), Some(5), Some(80)],
            &[Some(3), Some(5), Some(9), Some(20), Some(5), Some(80)],
        ])
    );
}

#[test]
fn join_inner_two() {
    let left = build_table_i32(("a1", &[1, 2, 2]), ("b2", &[1, 2, 2]), ("c1", &[7, 8, 9]));
    let right =
        build_table_i32(("a1", &[1, 2, 3]), ("b2", &[1, 2, 2]), ("c2", &[70, 80, 90]));
    let (names, out) =
        run_join(vec![left], vec![right], &[("a1", "a1"), ("b2", "b2")], JoinType::Inner);
    assert_eq!(names, vec!["a1", "b2", "c1", "c2"]);
    assert_eq!(
        rows_of(&out),
        expected(&[
            &[Some(1), Some(1), Some(7), Some(70)],
            &[Some(2), Some(2), Some(8), Some(80)],
            &[Some(2), Some(2), Some(9), Some(80)],
        ])
    );
}

#[test]
fn join_inner_one_two_parts_left() {
    let batch1 = build_table_i32(("a1", &[1, 2]), ("b2", &[1, 2]), ("c1", &[7, 8]));
    let batch2 = build_table_i32(("a1", &[2]), ("b2", &[2]), ("c1", &[9]));
    let right =
        build_table_i32(("a1", &[1, 2, 3]), ("b2", &[1, 2, 2]), ("c2", &[70, 80, 90]));
    let (names, out) = run_join(
        vec![batch1, batch2],
        vec![right],
        &[("a1", "a1"), ("b2", "b2")],
        JoinType::Inner,
    );
    assert_eq!(names, vec!["a1", "b2", "c1", "c2"]);
    assert_eq!(
        rows_of(&out),
        expected(&[
            &[Some(1), Some(1), Some(7), Some(70)],
            &[Some(2), Some(2), Some(8), Some(80)],
            &[Some(2), Some(2), Some(9), Some(80)],
        ])
    );
}

#[test]
fn join_inner_one_two_parts_right() {
    let left =
        build_table_i32(("a1", &[1, 2, 3]), ("b1", &[4, 5, 5]), ("c1", &[7, 8, 9]));
    let batch1 = build_table_i32(("a2", &[10, 20]), ("b1", &[4, 6]), ("c2", &[70, 80]));
    let batch2 = build_table_i32(("a2", &[30]), ("b1", &[5]), ("c2", &[90]));
    let exec = HashJoinExec::try_new(
        left.schema.clone(),
        batch1.schema.clone(),
        &on_vec(&[("b1", "b1")]),
        JoinType::Inner,
        PartitionMode::CollectLeft,
    )
    .unwrap();
    assert_eq!(columns(exec.schema()), vec!["a1", "b1", "c1", "a2", "c2"]);
    let ld = exec.build_left_data(&vec![left]).unwrap();
    // first part
    let out0 = probe(&exec, &ld, vec![batch1], JoinType::Inner);
    assert_eq!(
        rows_of(&out0),
        expected(&[&[Some(1), Some(4), Some(7), Some(10), Some(70)]])
    );
    // second part
    let out1 = probe(&exec, &ld, vec![batch2], JoinType::Inner);
    assert_eq!(
        rows_of(&out1),
        expected(&[
            &[Some(2), Some(5), Some(8), Some(30), Some(90)],
            &[Some(3), Some(5), Some(9), Some(30), Some(90)],
        ])
    );
}

#[test]
fn join_left_multi_batch() {
    let left =
        build_table_i32(("a1", &[1, 2, 3]), ("b1", &[4, 5, 7]), ("c1", &[7, 8, 9]));
    let right =
        build_table_i32(("a2", &[10, 20, 30]), ("b1", &[4, 5, 6]), ("c2", &[70, 80, 90]));
    let (names, out) =
        run_join(vec![left], vec![right.clone(), right], &[("b1", "b1")], JoinType::Left);
    assert_eq!(names, vec!["a1", "b1", "c1", "a2", "c2"]);
    assert_eq!(
        rows_of(&out),
        expected(&[
            &[Some(1), Some(4), Some(7), Some(10), Some(70)],
            &[Some(1), Some(4), Some(7), Some(10), Some(70)],
            &[Some(2), Some(5), Some(8), Some(20), Some(80)],
            &[Some(2), Some(5), Some(8), Some(20), Some(80)],
            &[Some(3), Some(7), Some(9), None, None],
        ])
    );
}

#[test]
fn join_full_multi_batch() {
    let left =
        build_table_i32(("a1", &[1, 2, 3]), ("b1", &[4, 5, 7]), ("c1", &[7, 8, 9]));
    let right =
        build_table_i32(("a2", &[10, 20, 30]), ("b2", &[4, 5, 6]), ("c2", &[70, 80, 90]));
    let (names, out) =
        run_join(vec![left], vec![right.clone(), right], &[("b1", "b2")], JoinType::Full);
    assert_eq!(names, vec!["a1", "b1", "c1", "a2", "b2", "c2"]);
    assert_eq!(
        rows_of(&out),
        expected(&[
            &[None, None, None, Some(30), Some(6), Some(90)],
            &[None, None, None, Some(30), Some(6), Some(90)],
            &[Some(1), Some(4), Some(7), Some(10), Some(4), Some(70)],
            &[Some(1), Some(4), Some(7), Some(10), Some(4), Some(70)],
            &[Some(2), Some(5), Some(8), Some(20), Some(5), Some(80)],
            &[Some(2), Some(5), Some(8), Some(20), Some(5), Some(80)],
            &[Some(3), Some(7), Some(9), None, None, None],
        ])
    );
}

#[test]
fn join_left_empty_right() {
    let left =
        build_table_i32(("a1", &[1, 2, 3]), ("b1", &[4, 5, 7]), ("c1", &[7, 8, 9]));
    let right = build_table_i32(("a2", &[]), ("b1", &[]), ("c2", &[]));
    let (names, out) = run_join(vec![left], vec![right], &[("b1", "b1")], JoinType::Left);
    assert_eq!(names, vec!["a1", "b1", "c1", "a2", "c2"]);
    assert_eq!(
        rows_of(&out),
        expected(&[
            &[Some(1), Some(4), Some(7), None, None],
            &[Some(2), Some(5), Some(8), None, None],
            &[Some(3), Some(7), Some(9), None, None],
        ])
    );
}

#[test]
fn join_full_empty_right() {
    let left =
        build_table_i32(("a1", &[1, 2, 3]), ("b1", &[4, 5, 7]), ("c1", &[7, 8, 9]));
    let right = build_table_i32(("a2", &[]), ("b2", &[]), ("c2", &[]));
    let (names, out) = run_join(vec![left], vec![right], &[("b1", "b2")], JoinType::Full);
    assert_eq!(names, vec!["a1", "b1", "c1", "a2", "b2", "c2"]);
    assert_eq!(
        rows_of(&out),
        expected(&[
            &[Some(1), Some(4), Some(7), None, None, None],
            &[Some(2), Some(5), Some(8), None, None, None],
            &[Some(3), Some(7), Some(9), None, None, None],
        ])
    );
}

#[test]
fn join_left_one() {
    let left =
        build_table_i32(("a1", &[1, 2, 3]), ("b1", &[4, 5, 7]), ("c1", &[7, 8, 9]));
    let right =
        build_table_i32(("a2", &[10, 20, 30]), ("b1", &[4, 5, 6]), ("c2", &[70, 80, 90]));
    let (names, out) = run_join(vec![left], vec![right], &[("b1", "b1")], JoinType::Left);
    assert_eq!(names, vec!["a1", "b1", "c1", "a2", "c2"]);
    assert_eq!(
        rows_of(&out),
        expected(&[
            &[Some(1), Some(4), Some(7), Some(10), Some(70)],
            &[Some(2), Some(5), Some(8), Some(20), Some(80)],
            &[Some(3), Some(7), Some(9), None, None],
        ])
    );
}

#[test]
fn join_right_one() {
    let left =
        build_table_i32(("a1", &[1, 2, 3]), ("b1", &[4, 5, 7]), ("c1", &[7, 8, 9]));
    let right =
        build_table_i32(("a2", &[10, 20, 30]), ("b1", &[4, 5, 6]), ("c2", &[70, 80, 90]));
    let (names, out) = run_join(vec![left], vec![right], &[("b1", "b1")], JoinType::Right);
    assert_eq!(names, vec!["a1", "c1", "a2", "b1", "c2"]);
    assert_eq!(
        rows_of(&out),
        expected(&[
            &[None, None, Some(30), Some(6), Some(90)],
            &[Some(1), Some(7), Some(10), Some(4), Some(70)],
            &[Some(2), Some(8), Some(20), Some(5), Some(80)],
        ])
    );
}

#[test]
fn join_full_one() {
    let left =
        build_table_i32(("a1", &[1, 2, 3]), ("b1", &[4, 5, 7]), ("c1", &[7, 8, 9]));
    let right =
        build_table_i32(("a2", &[10, 20, 30]), ("b2", &[4, 5, 6]), ("c2", &[70, 80, 90]));
    let (names, out) = run_join(vec![left], vec![right], &[("b1", "b2")], JoinType::Full);
    assert_eq!(names, vec!["a1", "b1", "c1", "a2", "b2", "c2"]);
    assert_eq!(
        rows_of(&out),
        expected(&[
            &[None, None, None, Some(30), Some(6), Some(90)],
            &[Some(1), Some(4), Some(7), Some(10), Some(4), Some(70)],
            &[Some(2), Some(5), Some(8), Some(20), Some(5), Some(80)],
            &[Some(3), Some(7), Some(9), None, None, None],
        ])
    );
}

#[test]
fn join_with_hash_collision() {
    let left = build_table_i32(("a", &[10, 20]), ("x", &[100, 200]), ("y", &[200, 300]));
    let seed = 0u64;
    let mut hashes_buff = vec![0u64; left.num_rows];
    let key_col = Column {
        data_type: left.columns[0].data_type,
        values: left.columns[0].values.clone(),
    };
    hash_ops::hashing::create_hashes(&vec![key_col], seed, &mut hashes_buff).unwrap();
    // file both rows under both hashes, forcing collisions
    let mut index = JoinIndex::new();
    index.insert_row(hashes_buff[0], 0);
    index.insert_row(hashes_buff[0], 1);
    if hashes_buff[1] != hashes_buff[0] {
        index.insert_row(hashes_buff[1], 0);
        index.insert_row(hashes_buff[1], 1);
    }
    let right = build_table_i32(("a", &[10, 20]), ("b", &[0, 0]), ("c", &[30, 40]));
    let left_data = JoinLeftData { index, batch: left };
    let (l, r) = build_join_indexes(
        &left_data,
        &right,
        JoinType::Inner,
        &vec!["a".to_string()],
        &vec!["a".to_string()],
        seed,
    )
    .unwrap();
    assert_eq!(l, vec![Some(0), Some(1)]);
    assert_eq!(r, vec![0, 1]);
}

#[test]
fn join_missing_on_column_is_refused() {
    let left = build_table_i32(("a1", &[1]), ("b1", &[2]), ("c1", &[3]));
    let right = build_table_i32(("a2", &[1]), ("b2", &[2]), ("c2", &[3]));
    let r = HashJoinExec::try_new(
        left.schema.clone(),
        right.schema.clone(),
        &on_vec(&[("nope", "b2")]),
        JoinType::Inner,
        PartitionMode::Partitioned,
    );
    assert!(matches!(r, Err(ExecError::Internal)));
}

#[test]
fn concat_batches_gives_absolute_rows() {
    let b1 = build_table_i32(("a", &[1, 2]), ("b", &[3, 4]), ("c", &[5, 6]));
    let b2 = build_table_i32(("a", &[7]), ("b", &[8]), ("c", &[9]));
    let schema = b1.schema.clone();
    let all = concat_batches(&schema, &vec![b1, b2]);
    assert_eq!(all.num_rows, 3);
    assert_eq!(
        rows_of(&[all]),
        expected(&[
            &[Some(1), Some(3), Some(5)],
            &[Some(2), Some(4), Some(6)],
            &[Some(7), Some(8), Some(9)],
        ])
    );
}

#[test]
fn right_join_collision_padding_is_exactly_once() {
    // force both build rows into both probed buckets; the probe row
    // that matches nothing still comes out exactly once, null-padded
    let left = build_table_i32(("a", &[10, 20]), ("x", &[100, 200]), ("y", &[200, 300]));
    let right = build_table_i32(("a", &[10, 99]), ("b", &[0, 0]), ("c", &[30, 40]));
    let seed = 0u64;
    let key_col = Column {
        data_type: right.columns[0].data_type,
        values: right.columns[0].values.clone(),
    };
    let mut probe_hashes = vec![0u64; right.num_rows];
    hash_ops::hashing::create_hashes(&vec![key_col], seed, &mut probe_hashes).unwrap();
    let mut index = JoinIndex::new();
    let mut seen = Vec::new();
    for h in probe_hashes.iter() {
        if !seen.contains(h) {
            index.insert_row(*h, 0);
            index.insert_row(*h, 1);
            seen.push(*h);
        }
    }
    let left_data = JoinLeftData { index, batch: left };
    let (l, r) = build_join_indexes(
        &left_data,
        &right,
        JoinType::Right,
        &vec!["a".to_string()],
        &vec!["a".to_string()],
        seed,
    )
    .unwrap();
    assert_eq!(l, vec![Some(0u64), None]);
    assert_eq!(r, vec![0u32, 1]);
}
