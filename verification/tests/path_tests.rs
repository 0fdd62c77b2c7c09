use glstsp::types::path::{HamiltonianResult, Path};

fn create_path() -> Path {
    Path::new(vec![0, 1, 2, 3, 4, 5, 6, 7])
}

#[test]
fn all() {
    let path = Path::new(vec![0, 1, 2, 3, 4, 5, 6, 7]);
    assert_eq!(path.check_hamiltonian(), HamiltonianResult::Valid);
    assert!(path.is_hamiltonian());
}

#[test]
fn first_is_repeated() {
    let path = Path::new(vec![1, 1, 2, 3, 4, 5, 6, 7]);
    assert_eq!(path.check_hamiltonian(), HamiltonianResult::VisitedTwice(1));
}

#[test]
fn second_is_repeated() {
    let path = Path::new(vec![0, 1, 2, 3, 4, 2, 6, 7]);
    assert_eq!(path.check_hamiltonian(), HamiltonianResult::VisitedTwice(2));
}

#[test]
fn internal_cycle() {
    let path = Path::new(vec![0, 1, 2, 3, 4, 5, 6, 0]);
    assert_eq!(path.check_hamiltonian(), HamiltonianResult::VisitedTwice(0));
}

#[test]
fn twist_all() {
    let mut actual = create_path();
    actual.twist(0, 7);
    assert_eq!(actual, Path::new(vec![7, 6, 5, 4, 3, 2, 1, 0]));
}

#[test]
fn twist_all_but_last() {
    let mut actual = create_path();
    actual.twist(0, 6);
    assert_eq!(actual, Path::new(vec![6, 5, 4, 3, 2, 1, 0, 7]));
}

#[test]
fn twist_one() {
    let mut actual = create_path();
    actual.twist(2, 3);
    assert_eq!(actual, Path::new(vec![0, 1, 3, 2, 4, 5, 6, 7]));
}

#[test]
fn twist_odd() {
    let mut actual = create_path();
    actual.twist(2, 5);
    assert_eq!(actual, Path::new(vec![0, 1, 5, 4, 3, 2, 6, 7]));
}

#[test]
fn twist_even() {
    let mut actual = create_path();
    actual.twist(2, 4);
    assert_eq!(actual, Path::new(vec![0, 1, 4, 3, 2, 5, 6, 7]));
}

#[test]
fn multiple_twists() {
    let mut actual = create_path();

    actual.twist(2, 4);
    assert_eq!(actual, Path::new(vec![0, 1, 4, 3, 2, 5, 6, 7]));

    actual.twist(3, 7);
    assert_eq!(actual, Path::new(vec![0, 1, 4, 7, 6, 5, 2, 3]));

    actual.twist(6, 7);
    assert_eq!(actual, Path::new(vec![0, 1, 4, 7, 6, 5, 3, 2]));
}

#[test]
fn path_twist_all() {
    let mut actual = create_path();
    actual.twist(7, 0);
    assert_eq!(actual, Path::new(vec![7, 1, 2, 3, 4, 5, 6, 0]));
}

#[test]
fn path_twist_all_but_last() {
    let mut actual = create_path();
    actual.twist(6, 0);
    assert_eq!(actual, Path::new(vec![6, 1, 2, 3, 4, 5, 0, 7]));
}

#[test]
fn path_twist_one() {
    let mut actual = create_path();
    actual.twist(3, 2);
    assert_eq!(actual, Path::new(vec![5, 4, 3, 2, 1, 0, 7, 6]));
}

#[test]
fn path_twist_odd() {
    let mut actual = create_path();
    actual.twist(5, 2);
    assert_eq!(actual, Path::new(vec![7, 6, 5, 3, 4, 2, 1, 0]));
}

#[test]
fn path_twist_even() {
    let mut actual = create_path();
    actual.twist(4, 2);
    assert_eq!(actual, Path::new(vec![6, 5, 4, 3, 2, 1, 0, 7]));
}

#[test]
fn path_multiple_twists() {
    let mut actual = create_path();

    actual.twist(4, 2);
    assert_eq!(actual, Path::new(vec![6, 5, 4, 3, 2, 1, 0, 7]));

    actual.twist(7, 3);
    assert_eq!(actual, Path::new(vec![4, 5, 6, 7, 2, 1, 0, 3]));

    actual.twist(7, 6);
    assert_eq!(actual, Path::new(vec![1, 2, 7, 6, 5, 4, 3, 0]));
}

#[test]
fn edges_single() {
    let path = Path::new(vec![0, 1]);

    let actual = path.edges();
    let expected = vec![(0, 1), (1, 0)];

    assert_eq!(actual, expected);
}

#[test]
fn edges() {
    let path = Path::new(vec![2, 0, 1, 3]);

    let actual = path.edges();
    let expected = vec![(2, 0), (0, 1), (1, 3), (3, 2)];

    assert_eq!(actual, expected);
}

#[test]
fn path_edges_single() {
    let path = Path::new(vec![0, 1]);

    let actual = path.interpolate_edges(0);
    let expected = vec![(0, 1)];

    assert_eq!(actual, expected);
}

#[test]
fn interpolate_no_skip() {
    let path = Path::new(vec![2, 0, 1, 3]);

    let actual = path.interpolate_edges(0);
    let expected = vec![(2, 0), (2, 1), (2, 3), (0, 1), (0, 3), (1, 3)];

    assert_eq!(actual, expected);
}

#[test]
fn interpolate_skip_1() {
    let path = Path::new(vec![2, 0, 1, 3]);

    let actual = path.interpolate_edges(1);
    let expected = vec![(2, 1), (2, 3), (0, 3)];

    assert_eq!(actual, expected);
}

#[test]
fn interpolate_skip_2() {
    let path = Path::new(vec![2, 0, 1, 3]);

    let actual = path.interpolate_edges(2);
    let expected = vec![(2, 3)];

    assert_eq!(actual, expected);
}

#[test]
fn interpolate_skip_all() {
    let path = Path::new(vec![2, 0, 1, 3]);

    let actual = path.interpolate_edges(3);
    let expected: Vec<(usize, usize)> = vec![];

    assert_eq!(actual, expected);
}

#[test]
fn twist_twice_restores() {
    let cases: Vec<(usize, usize)> = vec![(0, 7), (2, 5), (5, 2), (7, 0), (3, 3), (6, 1)];
    for (i, j) in cases {
        let mut p = create_path();
        p.twist(i, j);
        p.twist(i, j);
        assert_eq!(p, create_path());
    }
}

#[test]
fn twist_keeps_hamiltonian() {
    let cases: Vec<(usize, usize)> = vec![(0, 7), (2, 5), (5, 2), (7, 0), (4, 4), (6, 1)];
    for (i, j) in cases {
        let mut p = create_path();
        p.twist(i, j);
        assert!(p.is_hamiltonian());
    }
}
