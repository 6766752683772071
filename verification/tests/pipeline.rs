use sparse_solver::canonical::{combine, extent};
use sparse_solver::entry::Entry;
use sparse_solver::sorting::{dedup, stable_sort};
use sparse_solver::sparse_row_matrix::SparseRowMatrix;
use sparse_solver::sparse_symmetric_matrix::SparseSymmetricMatrix;

fn given(x: usize, y: usize, v: u64) -> Entry {
    Entry { x, y, v }
}

fn plain(entries: &[Entry]) -> Vec<(usize, usize, u64)> {
    entries.iter().map(|e| (e.x, e.y, e.v)).collect()
}

#[test]
fn combine_appends_mirrors_of_off_diagonal_entries() {
    let out = combine(&[given(3, 1, 10), given(2, 2, 20), given(0, 4, 30)]);
    assert_eq!(
        plain(&out),
        vec![(1, 3, 10), (2, 2, 20), (0, 4, 30), (3, 1, 10), (4, 0, 30)]
    );
    assert!(combine(&[]).is_empty());
}

#[test]
fn extent_is_one_more_than_the_largest_index() {
    assert_eq!(extent(&[]), 0);
    assert_eq!(extent(&[given(0, 0, 1)]), 1);
    assert_eq!(extent(&[given(3, 9, 1), given(12, 2, 1), given(5, 5, 1)]), 13);
    assert_eq!(extent(&[given(usize::MAX - 1, 0, 1)]), usize::MAX);
}

#[test]
fn sort_is_row_major_and_stable() {
    let input = vec![
        given(2, 0, 1),
        given(0, 1, 2),
        given(2, 0, 3),
        given(0, 0, 4),
        given(0, 1, 5),
        given(1, 7, 6),
        given(2, 0, 7),
        given(0, 1, 8),
    ];
    let out = stable_sort(&input);
    assert_eq!(
        plain(&out),
        vec![
            (0, 0, 4),
            (0, 1, 2),
            (0, 1, 5),
            (0, 1, 8),
            (1, 7, 6),
            (2, 0, 1),
            (2, 0, 3),
            (2, 0, 7)
        ]
    );
    assert!(stable_sort(&vec![]).is_empty());
    assert_eq!(plain(&stable_sort(&vec![given(1, 1, 9)])), vec![(1, 1, 9)]);
}

#[test]
fn sort_agrees_with_the_standard_stable_sort() {
    let mut state: u64 = 77;
    let mut input = Vec::new();
    for k in 0..1000u64 {
        state = state.wrapping_mul(6364136223846793005).wrapping_add(1442695040888963407);
        let x = ((state >> 33) % 13) as usize;
        state = state.wrapping_mul(6364136223846793005).wrapping_add(1442695040888963407);
        let y = ((state >> 33) % 13) as usize;
        input.push(given(x, y, k));
    }
    let mut reference = input.clone();
    reference.sort_by(|a, b| (a.x, a.y).cmp(&(b.x, b.y)));
    assert_eq!(plain(&stable_sort(&input)), plain(&reference));
    let mut kept = reference.clone();
    kept.dedup_by(|a, b| a.x == b.x && a.y == b.y);
    assert_eq!(plain(&dedup(&reference)), plain(&kept));
}

#[test]
fn dedup_keeps_the_first_of_each_run() {
    let sorted = vec![
        given(0, 0, 4),
        given(0, 1, 2),
        given(0, 1, 5),
        given(0, 1, 8),
        given(1, 7, 6),
        given(2, 0, 1),
        given(2, 0, 3),
    ];
    assert_eq!(
        plain(&dedup(&sorted)),
        vec![(0, 0, 4), (0, 1, 2), (1, 7, 6), (2, 0, 1)]
    );
    assert!(dedup(&vec![]).is_empty());
}

#[test]
fn built_matrices_are_well_formed() {
    assert!(SparseSymmetricMatrix::new(&[]).is_well_formed());
    assert!(SparseSymmetricMatrix::new(&[given(0, 0, 1)]).is_well_formed());
    let m = SparseSymmetricMatrix::new(&[
        given(4, 1, 1),
        given(0, 3, 2),
        given(2, 2, 3),
        given(1, 4, 9),
        given(3, 0, 7),
    ]);
    assert!(m.is_well_formed());
}

#[test]
fn malformed_matrices_are_recognised() {
    let good = || SparseSymmetricMatrix {
        length: 1,
        indices: vec![vec![0, 1], vec![0]],
        values: vec![vec![5, 6], vec![6]],
    };
    assert!(good().is_well_formed());
    let mut m = good();
    m.length = 2;
    assert!(!m.is_well_formed());
    let mut m = good();
    m.values.pop();
    assert!(!m.is_well_formed());
    let mut m = good();
    m.values[0].pop();
    assert!(!m.is_well_formed());
    let mut m = good();
    m.indices[0] = vec![1, 0];
    m.values[0] = vec![6, 5];
    assert!(!m.is_well_formed());
    let mut m = good();
    m.indices[0] = vec![0, 0];
    assert!(!m.is_well_formed());
    let mut m = good();
    m.indices[0] = vec![0, 2];
    assert!(!m.is_well_formed());
    let mut m = good();
    m.values[1] = vec![7];
    assert!(!m.is_well_formed());
    let mut m = good();
    m.indices[1] = vec![];
    m.values[1] = vec![];
    assert!(!m.is_well_formed());
    let m = SparseSymmetricMatrix { length: 0, indices: vec![], values: vec![] };
    assert!(m.is_well_formed());
    let m = SparseSymmetricMatrix { length: 1, indices: vec![], values: vec![] };
    assert!(!m.is_well_formed());
    let m = SparseSymmetricMatrix { length: 0, indices: vec![vec![]], values: vec![vec![]] };
    assert!(m.is_well_formed());
}

#[test]
fn compressed_rows_keep_every_row_in_order() {
    let m = SparseSymmetricMatrix::new(&[
        given(0, 2, 11),
        given(0, 0, 12),
        given(3, 3, 13),
        given(1, 3, 14),
    ]);
    let c = SparseRowMatrix::new(&m);
    assert_eq!(c.len(), 4);
    let t = c.triplets();
    assert_eq!(t.rows, vec![1, 1, 2, 3, 4, 4]);
    assert_eq!(t.columns, vec![1, 3, 4, 1, 2, 4]);
    assert_eq!(t.values, vec![12, 11, 14, 11, 14, 13]);
    assert_eq!(t, m.triplets());
    assert!(c.is_valid());
}

fn by_sorting(entries: &[Entry]) -> (usize, Vec<Vec<usize>>, Vec<Vec<u64>>) {
    let mut sorted: Vec<Entry> = entries.iter().map(|e| e.lower_triangle()).collect();
    let mut mirrors: Vec<Entry> =
        sorted.iter().filter(|e| e.x != e.y).map(|e| e.symmetric()).collect();
    sorted.append(&mut mirrors);
    sorted.sort_by(|a, b| if a.x == b.x { a.y.cmp(&b.y) } else { a.x.cmp(&b.x) });
    sorted.dedup_by(|a, b| a.x == b.x && a.y == b.y);
    let length = sorted.iter().fold(0, |acc, e| acc.max(e.x.max(e.y)));
    let mut indices = vec![vec![]; length + 1];
    let mut values = vec![vec![]; length + 1];
    for e in sorted {
        indices[e.x].push(e.y);
        values[e.x].push(e.v);
    }
    (length, indices, values)
}

#[test]
fn construction_agrees_with_sort_then_dedup() {
    let mut state: u64 = 4242;
    let mut next = move || {
        state = state.wrapping_mul(6364136223846793005).wrapping_add(1442695040888963407);
        state >> 33
    };
    for round in 0..60 {
        let span = 1 + next() % 12;
        let count = 1 + next() % 80;
        let mut entries = Vec::new();
        for k in 0..count {
            entries.push(given((next() % span) as usize, (next() % span) as usize, round * 1000 + k));
        }
        let m = SparseSymmetricMatrix::new(&entries);
        let (length, indices, values) = by_sorting(&entries);
        assert_eq!(m.length, length);
        assert_eq!(m.indices, indices);
        assert_eq!(m.values, values);
        assert!(m.is_well_formed());
    }
}
