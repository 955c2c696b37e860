use ducer::select::{order_by_index, select_value, IndexedValue, Op};

fn occ(values: &[u64]) -> Vec<IndexedValue> {
    values
        .iter()
        .enumerate()
        .map(|(index, value)| IndexedValue { index, value: *value })
        .collect()
}

#[test]
fn positional_policies() {
    let v = occ(&[7, 3, 9, 1]);
    assert_eq!(select_value(Op::First, &v), 7);
    assert_eq!(select_value(Op::Mid, &v), 9);
    assert_eq!(select_value(Op::Last, &v), 1);
    let v = occ(&[7, 3, 9]);
    assert_eq!(select_value(Op::Mid, &v), 3);
    let v = occ(&[5]);
    assert_eq!(select_value(Op::First, &v), 5);
    assert_eq!(select_value(Op::Mid, &v), 5);
    assert_eq!(select_value(Op::Last, &v), 5);
}

#[test]
fn extrema() {
    let v = occ(&[7, 3, 9, 1, 4]);
    assert_eq!(select_value(Op::Min, &v), 1);
    assert_eq!(select_value(Op::Max, &v), 9);
}

#[test]
fn integer_mean() {
    assert_eq!(select_value(Op::Avg, &occ(&[1, 9])), 5);
    assert_eq!(select_value(Op::Avg, &occ(&[1, 2])), 1);
    assert_eq!(select_value(Op::Avg, &occ(&[1, 2, 4])), 2);
    // the sum does not fit 64 bits, the mean does
    assert_eq!(select_value(Op::Avg, &occ(&[u64::MAX, u64::MAX])), u64::MAX);
    assert_eq!(select_value(Op::Avg, &occ(&[u64::MAX, u64::MAX - 2])), u64::MAX - 1);
}

#[test]
fn median_of_odd_and_even_counts() {
    assert_eq!(select_value(Op::Median, &occ(&[9, 1, 5])), 5);
    assert_eq!(select_value(Op::Median, &occ(&[9, 1, 5, 3])), 4);
    assert_eq!(select_value(Op::Median, &occ(&[1, 9])), 5);
    assert_eq!(select_value(Op::Median, &occ(&[2, 9, 4, 7, 1])), 4);
    assert_eq!(select_value(Op::Median, &occ(&[u64::MAX, u64::MAX])), u64::MAX);
    assert_eq!(select_value(Op::Median, &occ(&[4])), 4);
}

#[test]
fn occurrences_are_ordered_by_map() {
    let shuffled = vec![
        IndexedValue { index: 2, value: 1 },
        IndexedValue { index: 0, value: 9 },
        IndexedValue { index: 1, value: 5 },
    ];
    assert_eq!(
        order_by_index(&shuffled),
        vec![
            IndexedValue { index: 0, value: 9 },
            IndexedValue { index: 1, value: 5 },
            IndexedValue { index: 2, value: 1 },
        ]
    );
}
