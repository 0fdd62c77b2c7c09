use glstsp::load_matrix;
use glstsp::load_problem;
use glstsp::types::graph::Graph;
use glstsp::types::point::Point;

fn square_text() -> &'static str {
    "0 0\n10 0\n10 10\n0 10"
}

#[test]
fn load_matrix_reads_points() {
    let m = load_matrix("0 0\n3 4");
    assert_eq!(m.size(), 2);
    assert_eq!(m.get(0, 1), 5);
    assert_eq!(m.get(1, 0), 5);
    assert_eq!(m.get(0, 0), 0);
    assert_eq!(m.get(1, 1), 0);
}

#[test]
fn solve_square_is_optimal() {
    // A 2-opt local minimum over four corner points is the perimeter, for
    // any seed and step count.
    let problem = load_problem(square_text());
    assert_eq!(problem.solve(666, 0).cost(), 40);
    assert_eq!(problem.solve(666, 1).cost(), 40);
    assert_eq!(problem.solve(1, 5).cost(), 40);
    assert_eq!(problem.solve(12345, 25).cost(), 40);
}

#[test]
fn solve_returns_permutation() {
    let problem = load_problem(
        "0 0\n13 7\n2 9\n40 3\n25 25\n8 31\n30 1\n5 5",
    );
    for steps in [0usize, 1, 3, 10] {
        let route = problem.solve(666, steps);
        let mut seen = vec![false; 8];
        for k in 0..8 {
            let v = route.path().get(k);
            assert!(v < 8);
            assert!(!seen[v]);
            seen[v] = true;
        }
    }
}

#[test]
fn solve_cost_matches_distances() {
    let problem = load_problem("0 0\n13 7\n2 9\n40 3\n25 25\n8 31\n30 1\n5 5");
    let points = vec![
        Point::new(0, 0),
        Point::new(13, 7),
        Point::new(2, 9),
        Point::new(40, 3),
        Point::new(25, 25),
        Point::new(8, 31),
        Point::new(30, 1),
        Point::new(5, 5),
    ];
    let graph = Graph::new(&points);
    let route = problem.solve(7, 4);
    let mut tour: Vec<usize> = Vec::new();
    for k in 0..8 {
        tour.push(route.path().get(k));
    }
    assert_eq!(route.cost(), graph.sum_edges(&tour));
}

#[test]
fn solve_is_deterministic() {
    let problem = load_problem("0 0\n13 7\n2 9\n40 3\n25 25\n8 31\n30 1\n5 5");
    for steps in [0usize, 2, 7] {
        let a = problem.solve(666, steps);
        let b = problem.solve(666, steps);
        assert_eq!(a.cost(), b.cost());
        for k in 0..8 {
            assert_eq!(a.path().get(k), b.path().get(k));
        }
    }
}

#[test]
fn solve_two_points_trivial_tour() {
    let problem = load_problem("0 0\n3 4");
    let route = problem.solve(666, 3);
    assert_eq!(route.path().get(0), 0);
    assert_eq!(route.path().get(1), 1);
    assert_eq!(route.cost(), 10);
}

#[test]
fn solve_never_worse_than_greedy_start() {
    let problem = load_problem("0 0\n13 7\n2 9\n40 3\n25 25\n8 31\n30 1\n5 5");
    let greedy = problem.nearest_neighbor();
    for steps in [0usize, 1, 10] {
        let route = problem.solve(666, steps);
        assert!(route.cost() <= greedy.cost());
    }
}

#[test]
fn tour_sum_invariant_under_rotation() {
    let points = vec![
        Point::new(0, 0),
        Point::new(13, 7),
        Point::new(2, 9),
        Point::new(40, 3),
        Point::new(25, 25),
    ];
    let graph = Graph::new(&points);
    let tour = vec![2usize, 0, 4, 1, 3];
    let base = graph.sum_edges(&tour);
    for r in 1..5 {
        let mut rotated: Vec<usize> = Vec::new();
        for k in 0..5 {
            rotated.push(tour[(k + r) % 5]);
        }
        assert_eq!(graph.sum_edges(&rotated), base);
    }
}
