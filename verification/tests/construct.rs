use sparse_solver::entry::Entry;
use sparse_solver::sparse_row_matrix::SparseRowMatrix;
use sparse_solver::sparse_symmetric_matrix::SparseSymmetricMatrix;

fn entry(x: usize, y: usize, v: f64) -> Entry {
    Entry { x, y, v: v.to_bits() }
}

fn patterns(rows: Vec<Vec<f64>>) -> Vec<Vec<u64>> {
    rows.into_iter().map(|row| row.into_iter().map(f64::to_bits).collect()).collect()
}

fn full_three_by_three() -> Vec<Vec<u64>> {
    patterns(vec![vec![1.0, 2.0, 3.0], vec![2.0, 5.0, 6.0], vec![3.0, 6.0, 9.0]])
}

#[test]
fn test_construct() {
    let m = SparseSymmetricMatrix::new(&vec![
        entry(0, 0, 1.0),
        entry(0, 1, 2.0),
        entry(0, 2, 3.0),
        entry(1, 1, 5.0),
        entry(1, 2, 6.0),
        entry(2, 2, 9.0),
    ]);
    assert!(m.is_valid());
    assert_eq!(m.length, 2);
    assert_eq!(m.indices, vec![vec![0, 1, 2], vec![0, 1, 2], vec![0, 1, 2]]);
    assert_eq!(m.values, full_three_by_three());
}

#[test]
fn test_mixed_construct() {
    let m = SparseSymmetricMatrix::new(&vec![
        entry(2, 2, 9.0),
        entry(0, 0, 1.0),
        entry(0, 2, 3.0),
        entry(1, 1, 5.0),
        entry(1, 2, 6.0),
        entry(0, 1, 2.0),
    ]);
    assert!(m.is_valid());
    assert_eq!(m.length, 2);
    assert_eq!(m.indices, vec![vec![0, 1, 2], vec![0, 1, 2], vec![0, 1, 2]]);
    assert_eq!(m.values, full_three_by_three());
}

#[test]
fn test_duplicate_construct() {
    let m = SparseSymmetricMatrix::new(&vec![
        entry(0, 1, 2.0),
        entry(0, 0, 1.0),
        entry(1, 1, 5.0),
        entry(2, 1, 6.0),
        entry(1, 1, 5.0),
        entry(0, 2, 3.0),
        entry(2, 2, 9.0),
        entry(2, 2, 9.0),
        entry(2, 0, 3.0),
    ]);
    assert!(m.is_valid());
    assert_eq!(m.length, 2);
    assert_eq!(m.indices, vec![vec![0, 1, 2], vec![0, 1, 2], vec![0, 1, 2]]);
    assert_eq!(m.values, full_three_by_three());
}

#[test]
fn test_sparse_construct() {
    let m = SparseSymmetricMatrix::new(&vec![entry(10, 5, 10.0), entry(2, 8, 9.0)]);
    assert!(m.is_valid());
    assert_eq!(m.length, 10);
    assert_eq!(m.indices[2][0], 8);
    assert_eq!(m.indices[5][0], 10);
    assert_eq!(m.indices[8][0], 2);
    assert_eq!(m.indices[10][0], 5);
    assert_eq!(m.values[2][0], 9.0f64.to_bits());
    assert_eq!(m.values[5][0], 10.0f64.to_bits());
    assert_eq!(m.values[8][0], 9.0f64.to_bits());
    assert_eq!(m.values[10][0], 10.0f64.to_bits());
}

#[test]
fn sparse_construct_leaves_other_rows_empty() {
    let m = SparseSymmetricMatrix::new(&vec![entry(10, 5, 10.0), entry(2, 8, 9.0)]);
    assert_eq!(m.indices.len(), 11);
    assert_eq!(m.values.len(), 11);
    for i in 0..11 {
        let expected = if i == 2 || i == 5 || i == 8 || i == 10 { 1 } else { 0 };
        assert_eq!(m.indices[i].len(), expected);
        assert_eq!(m.values[i].len(), expected);
    }
}

#[test]
fn empty_input_gives_the_matrix_without_rows() {
    let m = SparseSymmetricMatrix::new(&[]);
    assert_eq!(m.length, 0);
    assert!(m.indices.is_empty());
    assert!(m.values.is_empty());
    assert!(m.is_valid());
    let view = SparseRowMatrix::new(&m);
    assert_eq!(view.len(), 0);
}

#[test]
fn single_diagonal_entry_at_zero_gives_one_row() {
    let m = SparseSymmetricMatrix::new(&[entry(0, 0, 4.0)]);
    assert_eq!(m.length, 0);
    assert_eq!(m.indices, vec![vec![0]]);
    assert_eq!(m.values, patterns(vec![vec![4.0]]));
}

#[test]
fn dimension_is_one_more_than_the_largest_index() {
    let m = SparseSymmetricMatrix::new(&[entry(3, 1, 1.0), entry(0, 7, 2.0), entry(4, 4, 3.0)]);
    assert_eq!(m.length, 7);
    assert_eq!(m.indices.len(), 8);
    let m = SparseSymmetricMatrix::new(&[entry(6, 0, 1.0)]);
    assert_eq!(m.length, 6);
    assert_eq!(m.indices.len(), 7);
}

#[test]
fn first_of_conflicting_duplicates_wins() {
    let m = SparseSymmetricMatrix::new(&[
        entry(0, 1, 2.0),
        entry(1, 0, 7.0),
        entry(0, 1, 8.0),
        entry(1, 1, 3.0),
        entry(1, 1, 4.0),
    ]);
    assert_eq!(m.indices, vec![vec![1], vec![0, 1]]);
    assert_eq!(m.values, patterns(vec![vec![2.0], vec![2.0, 3.0]]));
    let m = SparseSymmetricMatrix::new(&[entry(1, 0, 7.0), entry(0, 1, 2.0)]);
    assert_eq!(m.values, patterns(vec![vec![7.0], vec![7.0]]));
}

#[test]
fn stored_values_are_symmetric() {
    let entries = vec![
        entry(4, 1, 1.5),
        entry(0, 3, -2.5),
        entry(2, 2, 3.5),
        entry(3, 4, 4.5),
        entry(1, 4, 9.0),
        entry(0, 0, 6.5),
    ];
    let m = SparseSymmetricMatrix::new(&entries);
    for i in 0..m.indices.len() {
        for t in 0..m.indices[i].len() {
            let j = m.indices[i][t];
            let back = m.indices[j].iter().position(|&c| c == i).expect("mirror is stored");
            assert_eq!(m.values[j][back], m.values[i][t]);
        }
    }
    assert_eq!(m.indices[1], vec![4]);
    assert_eq!(m.values[1], vec![1.5f64.to_bits()]);
    assert_eq!(m.indices[4], vec![1, 3]);
}

#[test]
fn rows_are_strictly_increasing() {
    let m = SparseSymmetricMatrix::new(&[
        entry(0, 5, 1.0),
        entry(0, 2, 2.0),
        entry(0, 4, 3.0),
        entry(0, 2, 9.0),
        entry(0, 0, 4.0),
        entry(3, 0, 5.0),
    ]);
    assert_eq!(m.indices[0], vec![0, 2, 3, 4, 5]);
    assert_eq!(m.values[0], patterns(vec![vec![4.0, 2.0, 5.0, 3.0, 1.0]])[0]);
    for row in &m.indices {
        for t in 1..row.len() {
            assert!(row[t - 1] < row[t]);
        }
    }
}

#[test]
fn order_of_entries_does_not_matter_without_duplicates() {
    let entries = vec![
        entry(0, 0, 1.0),
        entry(0, 1, 2.0),
        entry(3, 1, 3.0),
        entry(2, 2, 4.0),
        entry(5, 0, 5.0),
        entry(4, 3, 6.0),
    ];
    let reference = SparseSymmetricMatrix::new(&entries);
    let mut shuffled = entries.clone();
    shuffled.reverse();
    shuffled.swap(1, 4);
    let other = SparseSymmetricMatrix::new(&shuffled);
    assert_eq!(other.length, reference.length);
    assert_eq!(other.indices, reference.indices);
    assert_eq!(other.values, reference.values);
}

#[test]
fn construction_is_repeatable() {
    let entries = vec![entry(2, 1, 1.0), entry(1, 2, 2.0), entry(0, 0, 3.0), entry(2, 1, 4.0)];
    let a = SparseSymmetricMatrix::new(&entries);
    let b = SparseSymmetricMatrix::new(&entries);
    assert_eq!(a.indices, b.indices);
    assert_eq!(a.values, b.values);
    assert_eq!(a.values[1], vec![1.0f64.to_bits()]);
}

#[test]
fn many_entries_sort_like_a_reference() {
    let mut state: u64 = 12345;
    let mut entries = Vec::new();
    for k in 0..400 {
        state = state.wrapping_mul(6364136223846793005).wrapping_add(1442695040888963407);
        let x = ((state >> 33) % 23) as usize;
        state = state.wrapping_mul(6364136223846793005).wrapping_add(1442695040888963407);
        let y = ((state >> 33) % 23) as usize;
        entries.push(entry(x, y, k as f64));
    }
    let m = SparseSymmetricMatrix::new(&entries);
    let n = m.indices.len();
    let mut dense: Vec<Vec<Option<u64>>> = vec![vec![None; n]; n];
    for e in &entries {
        if dense[e.x][e.y].is_none() {
            dense[e.x][e.y] = Some(e.v);
            dense[e.y][e.x] = Some(e.v);
        }
    }
    for i in 0..n {
        let expected: Vec<(usize, u64)> =
            (0..n).filter_map(|j| dense[i][j].map(|v| (j, v))).collect();
        let stored: Vec<(usize, u64)> =
            m.indices[i].iter().cloned().zip(m.values[i].iter().cloned()).collect();
        assert_eq!(stored, expected);
    }
}

#[test]
fn lower_triangle_puts_the_smaller_index_first() {
    let e = entry(5, 2, 1.25).lower_triangle();
    assert_eq!((e.x, e.y, e.v), (2, 5, 1.25f64.to_bits()));
    let e = entry(2, 5, 1.25).lower_triangle();
    assert_eq!((e.x, e.y, e.v), (2, 5, 1.25f64.to_bits()));
    let e = entry(3, 3, 1.25).lower_triangle();
    assert_eq!((e.x, e.y), (3, 3));
}

#[test]
fn symmetric_swaps_row_and_column() {
    let e = entry(5, 2, 1.25).symmetric();
    assert_eq!((e.x, e.y, e.v), (2, 5, 1.25f64.to_bits()));
}

#[test]
fn precedes_is_row_major_and_strict() {
    assert!(entry(0, 9, 0.0).precedes(&entry(1, 0, 0.0)));
    assert!(entry(1, 0, 0.0).precedes(&entry(1, 1, 0.0)));
    assert!(!entry(1, 1, 5.0).precedes(&entry(1, 1, 0.0)));
    assert!(!entry(2, 0, 0.0).precedes(&entry(1, 9, 0.0)));
    assert!(entry(1, 1, 5.0).same_place(&entry(1, 1, 0.0)));
    assert!(!entry(1, 1, 5.0).same_place(&entry(1, 2, 5.0)));
}

#[test]
fn validity_sees_infinities_and_nans() {
    let m = SparseSymmetricMatrix::new(&[entry(0, 0, 1.0), entry(0, 1, f64::INFINITY)]);
    assert!(!m.is_valid());
    let m = SparseSymmetricMatrix::new(&[entry(0, 0, 1.0), entry(1, 1, f64::NAN)]);
    assert!(!m.is_valid());
    let m = SparseSymmetricMatrix::new(&[entry(0, 0, f64::MAX), entry(1, 1, -0.0)]);
    assert!(m.is_valid());
    assert!(!SparseRowMatrix::new(&SparseSymmetricMatrix::new(&[entry(1, 0, f64::NEG_INFINITY)]))
        .is_valid());
}

#[test]
fn triplets_are_one_based_and_row_major() {
    let m = SparseSymmetricMatrix::new(&[entry(0, 0, 1.5), entry(0, 2, 6.5), entry(1, 1, 2.5)]);
    let t = m.triplets();
    assert_eq!(t.rows, vec![1, 1, 2, 3]);
    assert_eq!(t.columns, vec![1, 3, 2, 1]);
    assert_eq!(t.values, patterns(vec![vec![1.5, 6.5, 2.5, 6.5]])[0]);
    let compressed = SparseRowMatrix::new(&m).triplets();
    assert_eq!(compressed, t);
}

#[test]
fn get_reads_both_orientations() {
    let m = SparseSymmetricMatrix::new(&[entry(0, 3, 2.5), entry(2, 2, -1.0), entry(3, 0, 9.0)]);
    assert_eq!(m.len(), 4);
    assert_eq!(m.get(0, 3), Some(2.5f64.to_bits()));
    assert_eq!(m.get(3, 0), Some(2.5f64.to_bits()));
    assert_eq!(m.get(2, 2), Some((-1.0f64).to_bits()));
    assert_eq!(m.get(1, 1), None);
    assert_eq!(m.get(0, 0), None);
    assert_eq!(m.get(4, 0), None);
    assert_eq!(m.get(0, 4), None);
    for i in 0..4 {
        for j in 0..4 {
            assert_eq!(m.get(i, j), m.get(j, i));
        }
    }
    assert_eq!(SparseSymmetricMatrix::new(&[]).len(), 0);
}
