use glstsp::types::gls::GuidedLocalSearch;
use glstsp::types::matrix::SymmetricMatrix;
use glstsp::types::path::Path;
use glstsp::types::route::Route;

fn s1_matrix() -> SymmetricMatrix {
    let mut matrix = SymmetricMatrix::from_size(4);
    matrix.set(0, 1, 2);
    matrix.set(0, 2, 7);
    matrix.set(0, 3, 3);
    matrix.set(1, 2, 4);
    matrix.set(1, 3, 1);
    matrix.set(2, 3, 9);
    matrix
}

#[test]
fn gls_test() {
    let gls = GuidedLocalSearch::new(s1_matrix());
    let actual = gls.sequential();

    let expected = Route::new(Path::new(vec![0, 1, 2, 3]), 18);

    assert_eq!(actual, expected);
}

#[test]
fn nearest_neighbor_greedy_rows() {
    // Row 0 prefers vertex 3 (cost 3 over 2? no: costs 2, 7, 3 -> vertex 1),
    // then row 1 picks the nearer of {2, 3}, then the last remains.
    let gls = GuidedLocalSearch::new(s1_matrix());
    let route = gls.nearest_neighbor();
    // Row 0 over {1, 2, 3}: costs 2, 7, 3 -> vertex 1.
    // Row 1 over {2, 3}: costs 4, 1 -> vertex 3.
    // Row 2 over {2}: vertex 2.
    // Tour [0, 1, 3, 2], cost 2 + 1 + 9 + 7 = 19.
    assert!(route.path() == &Path::new(vec![0, 1, 3, 2]));
    assert_eq!(route.cost(), 19);
}

#[test]
fn local_search_uncrosses() {
    // Four corners of a square: the crossed tour pays two diagonals and
    // improves to the perimeter.
    let mut m = SymmetricMatrix::from_size(4);
    m.set(0, 1, 10);
    m.set(1, 2, 10);
    m.set(2, 3, 10);
    m.set(3, 0, 10);
    m.set(0, 2, 14);
    m.set(1, 3, 14);
    let check = |path: &Path| -> i32 {
        let mut m2 = SymmetricMatrix::from_size(4);
        m2.set(0, 1, 10);
        m2.set(1, 2, 10);
        m2.set(2, 3, 10);
        m2.set(3, 0, 10);
        m2.set(0, 2, 14);
        m2.set(1, 3, 14);
        m2.sum(&path.edges())
    };
    let gls = GuidedLocalSearch::new(m);
    let mut crossed = Path::new(vec![0, 2, 1, 3]);
    assert_eq!(check(&crossed), 48);
    let neighborhood = Path::new(vec![0, 3, 2, 1]);
    let mut penalties = SymmetricMatrix::from_size(4);
    gls.local_search(&mut crossed, &neighborhood, 0, &mut penalties);
    assert_eq!(check(&crossed), 40);
    assert!(crossed.is_hamiltonian());
}
