use ant_q::greedy_solver::GreedySolver;
use ant_q::models::{AdjMatrix, Solver, VisitedVecExt, Way, WayVecExt};

fn chain_matrix() -> AdjMatrix<u32> {
    vec![
        vec![0, 1, 9, 9],
        vec![1, 0, 1, 9],
        vec![9, 1, 0, 1],
        vec![9, 9, 1, 0],
    ]
}

fn is_valid_tour(way: &Vec<usize>, n: usize) -> bool {
    if way.len() != n + 1 || way[0] != way[n] {
        return false;
    }
    let mut seen = vec![false; n];
    for &node in &way[..n] {
        if node >= n || seen[node] {
            return false;
        }
        seen[node] = true;
    }
    true
}

struct Lcg(u64);

impl Lcg {
    fn next(&mut self, bound: usize) -> usize {
        self.0 = self.0.wrapping_mul(6364136223846793005).wrapping_add(1442695040888963407);
        ((self.0 >> 33) as usize) % bound
    }
}

#[test]
fn greedy_follows_cheapest_edges_on_chain() {
    let matrix = chain_matrix();
    let tour = GreedySolver {}.solve(&matrix);
    assert_eq!(tour.way(), &vec![0, 1, 2, 3, 0]);
    assert_eq!(tour.score(), 12);
}

#[test]
fn greedy_breaks_ties_by_lowest_node() {
    let matrix = vec![vec![0, 5, 5], vec![5, 0, 5], vec![5, 5, 0]];
    let tour = GreedySolver {}.solve(&matrix);
    assert_eq!(tour.way(), &vec![0, 1, 2, 0]);
    assert_eq!(tour.score(), 15);
}

#[test]
fn greedy_on_single_node_is_trivial() {
    let matrix = vec![vec![0]];
    let tour = GreedySolver {}.solve(&matrix);
    assert_eq!(tour.way(), &vec![0, 0]);
    assert_eq!(tour.score(), 0);
}

#[test]
fn greedy_nearest_neighbor_tour_is_valid_on_asymmetric_matrix() {
    let matrix = vec![
        vec![0, 7, 3, 8, 2],
        vec![4, 0, 6, 1, 9],
        vec![5, 2, 0, 7, 3],
        vec![6, 8, 4, 0, 5],
        vec![3, 9, 1, 2, 0],
    ];
    let tour = GreedySolver {}.nearest_neighbor_tour(&matrix);
    assert_eq!(tour.way(), &vec![0, 4, 2, 1, 3, 0]);
    assert_eq!(tour.score(), 2 + 1 + 2 + 1 + 6);
    assert!(is_valid_tour(tour.way(), 5));
}

#[test]
fn way_cost_is_sum_of_edges_for_random_tours() {
    let mut rng = Lcg(42);
    for n in 1..9usize {
        let matrix: AdjMatrix<u32> = (0..n)
            .map(|i| (0..n).map(|j| if i == j { 0 } else { 1 + rng.next(1000) as u32 }).collect())
            .collect();
        for _ in 0..10 {
            let mut order: Vec<usize> = (0..n).collect();
            for i in (1..n).rev() {
                let j = rng.next(i + 1);
                order.swap(i, j);
            }
            order.push(order[0]);
            let expected: u64 = order.windows(2).map(|w| matrix[w[0]][w[1]] as u64).sum();
            let way = Way::new(&matrix, order.clone());
            assert_eq!(way.score(), expected);
            assert_eq!(way.way(), &order);
        }
    }
}

#[test]
fn way_of_zero_or_one_node_costs_nothing() {
    let matrix = chain_matrix();
    let empty = Way::new(&matrix, vec![]);
    assert_eq!(empty.score(), 0);
    assert!(!empty.contains(0, 0));
    let single = Way::new(&matrix, vec![2]);
    assert_eq!(single.score(), 0);
    assert!(!single.contains(2, 2));
}

#[test]
fn way_contains_only_directed_consecutive_edges() {
    let matrix = chain_matrix();
    let way = Way::new(&matrix, vec![0, 2, 1, 3, 0]);
    assert_eq!(way.score(), 9 + 1 + 9 + 9);
    assert!(way.contains(0, 2));
    assert!(way.contains(3, 0));
    assert!(!way.contains(2, 0));
    assert!(!way.contains(0, 1));
    assert!(!way.contains(0, 3));
    assert_eq!(way.adj_matrix(), &matrix);
}

#[test]
fn ways_compare_by_cost() {
    let matrix = chain_matrix();
    let cheap = Way::new(&matrix, vec![0, 1, 2, 3, 0]);
    let dear = Way::new(&matrix, vec![0, 2, 1, 3, 0]);
    let cheap_again = cheap.clone();
    assert!(cheap < dear);
    assert!(dear > cheap);
    assert!(cheap <= cheap_again);
    assert!(cheap == cheap_again);
    assert!(cheap != dear);
    assert_eq!(cheap.partial_cmp(&dear), Some(std::cmp::Ordering::Less));
}

#[test]
fn available_neighbors_lists_free_nodes_in_order() {
    let visited = vec![true, false, true, false, false];
    assert_eq!(visited.available_neighbors(), vec![1, 3, 4]);
    let all: Vec<bool> = vec![true, true];
    assert!(all.available_neighbors().is_empty());
    let none: Vec<bool> = vec![];
    assert!(none.available_neighbors().is_empty());
}

#[test]
fn iter_edges_pairs_consecutive_nodes() {
    let way: Vec<usize> = vec![3, 1, 2];
    assert_eq!(way.iter_edges(), vec![(3, 1), (1, 2)]);
    let single: Vec<usize> = vec![4];
    assert!(single.iter_edges().is_empty());
    let empty: Vec<usize> = vec![];
    assert!(empty.iter_edges().is_empty());
}
