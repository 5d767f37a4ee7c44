use ant_q::colony::Colony;
use ant_q::driver::{iteration_best, ConfigError, IterationDriver};
use ant_q::models::Way;
use ant_q::rand_utils::random_provider;

fn is_valid_tour(way: &Vec<usize>, n: usize) -> bool {
    if way.len() != n + 1 || way[0] != way[n] {
        return false;
    }
    let mut seen = vec![false; n];
    for &node in &way[..n] {
        if node >= n || seen[node] {
            return false;
        }
        seen[node] = true;
    }
    true
}

fn ring_matrix(n: usize) -> Vec<Vec<u32>> {
    (0..n)
        .map(|i| (0..n).map(|j| if i == j { 0 } else { 1 + ((j + n - i) % n) as u32 }).collect())
        .collect()
}

/// Runs every ant to completion, each always taking its lowest free node.
fn build_lowest_first(colony: &mut Colony) {
    while !colony.is_complete() {
        let choices: Vec<usize> =
            (0..colony.population_size()).map(|ant| colony.unvisited(ant)[0]).collect();
        colony.hop(&choices);
    }
}

#[test]
fn colony_hops_every_ant_in_lock_step() {
    let mut colony = Colony::with_starts(4, &vec![2, 0]);
    assert_eq!(colony.population_size(), 2);
    assert_eq!(colony.current(0), 2);
    assert_eq!(colony.unvisited(0), vec![0, 1, 3]);
    assert_eq!(colony.unvisited(1), vec![1, 2, 3]);
    colony.hop(&vec![3, 2]);
    assert_eq!(colony.current(0), 3);
    assert_eq!(colony.current(1), 2);
    assert_eq!(colony.start(1), 0);
    assert!(colony.is_visited(0, 3));
    assert!(!colony.is_visited(0, 1));
    assert!(!colony.is_complete());
}

#[test]
fn colony_finish_closes_each_walk_into_a_tour() {
    let matrix = ring_matrix(4);
    let mut colony = Colony::with_starts(4, &vec![2, 0, 3]);
    build_lowest_first(&mut colony);
    assert!(colony.is_complete());
    let ways = colony.finish(&matrix);
    assert_eq!(ways.len(), 3);
    assert_eq!(ways[0].way(), &vec![2, 0, 1, 3, 2]);
    assert_eq!(ways[1].way(), &vec![0, 1, 2, 3, 0]);
    assert_eq!(ways[2].way(), &vec![3, 0, 1, 2, 3]);
    assert_eq!(ways[1].score(), 8);
    assert_eq!(ways[0].score(), 3 + 2 + 3 + 4);
}

#[test]
fn explore_target_moves_forward_to_next_free_node() {
    let mut colony = Colony::with_starts(5, &vec![3]);
    colony.hop(&vec![4]);
    colony.hop(&vec![0]);
    assert_eq!(colony.explore_target(0, 1), 1);
    assert_eq!(colony.explore_target(0, 3), 1);
    assert_eq!(colony.explore_target(0, 4), 1);
    assert_eq!(colony.explore_target(0, 0), 1);
    colony.hop(&vec![1]);
    assert_eq!(colony.explore_target(0, 3), 2);
}

#[test]
fn scattered_colonies_build_valid_tours() {
    for n in 1..7usize {
        let matrix = ring_matrix(n);
        let mut rng = random_provider(Some(n as u64)).unwrap();
        let mut colony = Colony::scatter(&mut rng, n, 6);
        assert_eq!(colony.population_size(), 6);
        while !colony.is_complete() {
            let choices: Vec<usize> =
                (0..colony.population_size()).map(|ant| colony.explore(&mut rng, ant)).collect();
            colony.hop(&choices);
        }
        for way in colony.finish(&matrix) {
            assert!(is_valid_tour(way.way(), n));
        }
    }
}

#[test]
fn same_seed_scatters_ants_alike() {
    let starts = |seed: u64| {
        let mut rng = random_provider(Some(seed)).unwrap();
        let colony = Colony::scatter(&mut rng, 50, 20);
        (0..20).map(|ant| colony.start(ant)).collect::<Vec<usize>>()
    };
    assert_eq!(starts(7), starts(7));
    assert!(starts(7).iter().all(|&s| s < 50));
    assert!(starts(7).iter().any(|&s| s != starts(7)[0]));
}

#[test]
fn driver_rejects_empty_runs() {
    assert_eq!(IterationDriver::new(0, 5).err(), Some(ConfigError::ZeroIterations));
    assert_eq!(IterationDriver::new(0, 0).err(), Some(ConfigError::ZeroIterations));
    assert_eq!(IterationDriver::new(3, 0).err(), Some(ConfigError::ZeroPopulation));
    let driver = IterationDriver::new(3, 2).ok().unwrap();
    assert_eq!(driver.max_iterations(), 3);
    assert_eq!(driver.population_size(), 2);
    assert_eq!(driver.iteration(), 0);
    assert!(driver.is_running());
    assert!(driver.into_best().is_none());
}

#[test]
fn iteration_best_takes_first_cheapest() {
    let matrix = ring_matrix(3);
    let population = vec![
        Way::new(&matrix, vec![0, 2, 1, 0]),
        Way::new(&matrix, vec![1, 2, 0, 1]),
        Way::new(&matrix, vec![0, 1, 2, 0]),
    ];
    assert_eq!(population[0].score(), 9);
    assert_eq!(population[1].score(), 6);
    assert_eq!(population[2].score(), 6);
    assert_eq!(iteration_best(&population), 1);
}

#[test]
fn global_best_never_gets_worse() {
    let matrix = ring_matrix(4);
    let mut driver = IterationDriver::new(3, 1).ok().unwrap();
    let first = driver.record(&vec![Way::new(&matrix, vec![0, 2, 1, 3, 0])]);
    assert_eq!(first.way(), &vec![0, 2, 1, 3, 0]);
    let second = driver.record(&vec![Way::new(&matrix, vec![0, 3, 2, 1, 0])]);
    assert_eq!(second.way(), &vec![0, 2, 1, 3, 0]);
    assert!(second.score() <= first.score());
    let third = driver.record(&vec![
        Way::new(&matrix, vec![3, 2, 1, 0, 3]),
        Way::new(&matrix, vec![1, 2, 3, 0, 1]),
    ]);
    assert_eq!(third.way(), &vec![1, 2, 3, 0, 1]);
    assert_eq!(third.score(), 8);
    assert!(!driver.is_running());
    assert_eq!(driver.into_best().unwrap().way(), &vec![1, 2, 3, 0, 1]);
}

#[test]
fn equal_cost_candidate_replaces_best() {
    let matrix = ring_matrix(3);
    let mut driver = IterationDriver::new(2, 1).ok().unwrap();
    driver.record(&vec![Way::new(&matrix, vec![0, 1, 2, 0])]);
    let best = driver.record(&vec![Way::new(&matrix, vec![2, 0, 1, 2])]);
    assert_eq!(best.way(), &vec![2, 0, 1, 2]);
}

#[test]
fn single_ant_single_iteration_returns_its_tour() {
    let matrix = ring_matrix(5);
    let mut driver = IterationDriver::new(1, 1).ok().unwrap();
    let mut rng = random_provider(Some(11)).unwrap();
    let mut colony = Colony::scatter(&mut rng, 5, driver.population_size());
    build_lowest_first(&mut colony);
    let population = colony.finish(&matrix);
    assert_eq!(population.len(), 1);
    let built = population[0].clone();
    let best = driver.record(&population);
    assert!(best == built);
    assert!(!driver.is_running());
    let result = driver.into_best().unwrap();
    assert_eq!(result.way(), built.way());
    assert_eq!(result.score(), built.score());
    assert!(is_valid_tour(result.way(), 5));
}
