use navigation::matrix::{CostMatrix, INF};
use navigation::path_finder::{find, PathEdge};

// The three 6-waypoint fixtures, in fixed point with three decimals
// (units of 1/1000 kJ, 1/1000 s, 1/1000 Ah).

fn energy_cost() -> CostMatrix {
    CostMatrix::new(vec![
        vec![INF, 94793, 22634, 125215, 20567, 75933],
        vec![38706, INF, 41894, 32732, 42790, 27856],
        vec![20391, 95737, INF, 105813, 10618, 71252],
        vec![59780, 23384, 42622, INF, 43402, 29595],
        vec![17950, 96260, 10244, 106220, INF, 60634],
        vec![38542, 46552, 36104, 57639, 25860, INF],
    ])
    .unwrap()
}

fn time_cost() -> CostMatrix {
    CostMatrix::new(vec![
        vec![INF, 96774, 39395, 112903, 33951, 64516],
        vec![100000, INF, 96000, 37498, 95333, 36098],
        vec![39395, 92903, INF, 109032, 20646, 60645],
        vec![116667, 37498, 112667, INF, 112000, 50000],
        vec![33951, 92258, 20646, 108387, INF, 60000],
        vec![66667, 36098, 62667, 48387, 62000, INF],
    ])
    .unwrap()
}

fn capacity_cost() -> CostMatrix {
    CostMatrix::new(vec![
        vec![INF, 1155, 276, 1526, 251, 925],
        vec![472, INF, 510, 399, 521, 339],
        vec![248, 1166, INF, 1289, 129, 868],
        vec![728, 285, 519, INF, 529, 361],
        vec![219, 1173, 125, 1294, INF, 739],
        vec![470, 567, 440, 702, 315, INF],
    ])
    .unwrap()
}

#[test]
fn find_test() {
    let energy_expected_path = vec![
        PathEdge(0, 2),
        PathEdge(2, 4),
        PathEdge(4, 5),
        PathEdge(5, 3),
        PathEdge(3, 1),
        PathEdge(1, 0),
    ];

    let time_expected_path = vec![
        PathEdge(0, 5),
        PathEdge(5, 3),
        PathEdge(3, 1),
        PathEdge(1, 2),
        PathEdge(2, 4),
        PathEdge(4, 0),
    ];

    let capacity_expected_path = vec![
        PathEdge(0, 2),
        PathEdge(2, 4),
        PathEdge(4, 5),
        PathEdge(5, 3),
        PathEdge(3, 1),
        PathEdge(1, 0),
    ];

    let result = find(&energy_cost()).unwrap();
    assert_eq!(213615, result.get_cost());
    assert_eq!(energy_expected_path, *result.get_path());

    let result = find(&time_cost()).unwrap();
    assert_eq!(300998, result.get_cost());
    assert_eq!(time_expected_path, *result.get_path());

    let result = find(&capacity_cost()).unwrap();
    assert_eq!(2603, result.get_cost());
    assert_eq!(capacity_expected_path, *result.get_path());
}

// The returned cost is exactly the sum of the matrix entries along the
// returned edges: recompute it as an independent oracle.
#[test]
fn cost_matches_path_sum() {
    let rows = vec![
        vec![INF, 94793, 22634, 125215, 20567, 75933],
        vec![38706, INF, 41894, 32732, 42790, 27856],
        vec![20391, 95737, INF, 105813, 10618, 71252],
        vec![59780, 23384, 42622, INF, 43402, 29595],
        vec![17950, 96260, 10244, 106220, INF, 60634],
        vec![38542, 46552, 36104, 57639, 25860, INF],
    ];
    let m = CostMatrix::new(rows.clone()).unwrap();
    let result = find(&m).unwrap();
    let mut sum: u64 = 0;
    for e in result.get_path() {
        assert_ne!(INF, rows[e.from()][e.to()]);
        sum += rows[e.from()][e.to()];
    }
    assert_eq!(sum, result.get_cost());
}

// A tour visits all six vertices exactly once and closes at vertex 0.
#[test]
fn tour_is_permutation_cycle() {
    let result = find(&time_cost()).unwrap();
    let path = result.get_path();
    assert_eq!(6, path.len());
    assert_eq!(0, path[0].from());
    assert_eq!(0, path[5].to());
    for k in 0..5 {
        assert_eq!(path[k].to(), path[k + 1].from());
    }
    let mut seen = [false; 6];
    for e in path.iter() {
        assert!(!seen[e.from()]);
        seen[e.from()] = true;
    }
    assert!(seen.iter().all(|s| *s));
}

// A vertex with no finite outgoing edge admits no tour.
#[test]
fn no_outgoing_edge_means_no_tour() {
    let m = CostMatrix::new(vec![
        vec![INF, 1, 2],
        vec![INF, INF, INF],
        vec![3, 4, INF],
    ])
    .unwrap();
    assert!(find(&m).is_none());
}

// A vertex with no finite incoming edge admits no tour.
#[test]
fn no_incoming_edge_means_no_tour() {
    let m = CostMatrix::new(vec![
        vec![INF, 1, INF],
        vec![2, INF, INF],
        vec![3, 4, INF],
    ])
    .unwrap();
    assert!(find(&m).is_none());
}

// A single vertex has no self-loop, hence no closed tour.
#[test]
fn single_vertex_has_no_tour() {
    let m = CostMatrix::new(vec![vec![INF]]).unwrap();
    assert!(find(&m).is_none());
}

// Two runs on the same matrix agree on the cost (and, with the solver's
// fixed tie-break, on the path).
#[test]
fn find_is_deterministic() {
    let m = capacity_cost();
    let first = find(&m).unwrap();
    let second = find(&m).unwrap();
    assert_eq!(first.get_cost(), second.get_cost());
    assert_eq!(first.get_path(), second.get_path());
}

// A 3-vertex asymmetric matrix solved by hand: the two possible tours
// cost 1+20+300 = 321 and 10+200+3 = 213.
#[test]
fn three_vertex_exact_optimum() {
    let m = CostMatrix::new(vec![
        vec![INF, 1, 10],
        vec![3, INF, 20],
        vec![300, 200, INF],
    ])
    .unwrap();
    let result = find(&m).unwrap();
    assert_eq!(213, result.get_cost());
    assert_eq!(
        vec![PathEdge(0, 2), PathEdge(2, 1), PathEdge(1, 0)],
        *result.get_path()
    );
}

// With every leg equally priced, several tours share the minimum; the
// cost is still pinned, and the fixed tie-break keeps the runs in step.
#[test]
fn equal_cost_tours_agree() {
    let m = CostMatrix::new(vec![
        vec![INF, 5, 5],
        vec![5, INF, 5],
        vec![5, 5, INF],
    ])
    .unwrap();
    let first = find(&m).unwrap();
    let second = find(&m).unwrap();
    assert_eq!(15, first.get_cost());
    assert_eq!(first.get_cost(), second.get_cost());
    assert_eq!(first.get_path(), second.get_path());
}

#[test]
fn path_edge_getters() {
    let e = PathEdge(3, 5);
    assert_eq!(3, e.from());
    assert_eq!(5, e.to());
}
