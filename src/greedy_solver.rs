use vstd::prelude::*;

use crate::models::{
    is_partial_walk, is_square, is_tour, lemma_distinct_nodes, lists_unvisited, matrix_view,
    AdjMatrix, Solver, VisitedVecExt, Way,
};

verus! {

/// `next` is a cheapest step out of the last node of `prefix` to a node not yet on it,
/// and the lowest-numbered one among equally cheap steps.
pub open spec fn is_nearest_step(m: Seq<Seq<u32>>, prefix: Seq<usize>, next: usize) -> bool {
    let from = prefix.last() as int;
    &&& (next as int) < m.len()
    &&& !prefix.contains(next)
    &&& forall|j: usize|
        (j as int) < m.len() && !prefix.contains(j) ==> m[from][next as int] <= #[trigger] m[from][j
            as int] && (j < next ==> m[from][next as int] < m[from][j as int])
}

/// The nearest-neighbour walk from node 0: each node after the first is the nearest
/// step from the walk so far.
pub open spec fn is_nearest_neighbor_walk(m: Seq<Seq<u32>>, way: Seq<usize>) -> bool {
    &&& way.len() >= 1
    &&& way[0] == 0
    &&& forall|i: int| 1 <= i < way.len() - 1 ==> is_nearest_step(m, way.take(i), #[trigger] way[i])
}

/// Builds a tour by always moving to the cheapest node not yet visited, starting at node 0.
pub struct GreedySolver {}

/// The position in `candidates` of the cheapest one by `row`, the first among equals.
fn cheapest(row: &Vec<u32>, candidates: &Vec<usize>) -> (r: usize)
    requires
        candidates@.len() > 0,
        forall|i: int, j: int|
            0 <= i < j < candidates@.len() ==> #[trigger] candidates@[i] < #[trigger] candidates@[j],
        forall|i: int| 0 <= i < candidates@.len() ==> (#[trigger] candidates@[i] as int) < row@.len(),
    ensures
        r < candidates@.len(),
        forall|i: int|
            0 <= i < candidates@.len() ==> row@[candidates@[r as int] as int] <= #[trigger] row@[candidates@[i] as int],
        forall|i: int|
            0 <= i < r ==> row@[candidates@[r as int] as int] < #[trigger] row@[candidates@[i] as int],
{
    let mut best: usize = 0;
    let mut index: usize = 1;
    while index < candidates.len()
        invariant
            forall|i: int| 0 <= i < candidates@.len() ==> (#[trigger] candidates@[i] as int) < row@.len(),
            best < index <= candidates@.len(),
            forall|i: int|
                0 <= i < index ==> row@[candidates@[best as int] as int] <= #[trigger] row@[candidates@[i] as int],
            forall|i: int|
                0 <= i < best ==> row@[candidates@[best as int] as int] < #[trigger] row@[candidates@[i] as int],
        decreases candidates@.len() - index,
    {
        if row[candidates[index]] < row[candidates[best]] {
            best = index;
        }
        index = index + 1;
    }
    best
}

impl Solver for GreedySolver {
    fn solve<'a>(&self, adj_matrix: &'a AdjMatrix<u32>) -> (r: Way<'a>)
        ensures
            is_nearest_neighbor_walk(matrix_view(adj_matrix), r.nodes()),
    {
        self.nearest_neighbor_tour(adj_matrix)
    }
}

impl GreedySolver {
    /// The nearest-neighbour tour from node 0, closed back to node 0.
    pub fn nearest_neighbor_tour<'a>(&self, adj_matrix: &'a AdjMatrix<u32>) -> (r: Way<'a>)
        requires
            is_square(matrix_view(adj_matrix)),
        ensures
            r.wf(),
            r.matrix() == matrix_view(adj_matrix),
            is_tour(r.nodes(), adj_matrix@.len()),
            is_nearest_neighbor_walk(matrix_view(adj_matrix), r.nodes()),
    {
        let ghost m = matrix_view(adj_matrix);
        let n = adj_matrix.len();
        let mut visited: Vec<bool> = vec![false; n];
        let mut way: Vec<usize> = Vec::new();
        visited.set(0, true);
        way.push(0);
        assert(is_partial_walk(way@, visited@, n as nat)) by {
            assert forall|v: usize| (v as int) < n implies (visited@[v as int] <==> #[trigger] way@.contains(v)) by {
                if v == 0 {
                    assert(way@[0] == v);
                }
            }
        }
        let mut free = visited.available_neighbors();
        while free.len() > 0
            invariant
                m == matrix_view(adj_matrix),
                is_square(m),
                n == m.len(),
                is_partial_walk(way@, visited@, n as nat),
                lists_unvisited(free@, visited@),
                way@.len() >= 1,
                way@[0] == 0,
                forall|i: int| 1 <= i < way@.len() ==> is_nearest_step(m, way@.take(i), #[trigger] way@[i]),
            decreases n - way@.len(),
        {
            proof {
                lemma_distinct_nodes(way@, n as nat);
                let v = free@[0];
                assert(!way@.contains(v));
            }
            let from = way[way.len() - 1];
            let row = &adj_matrix[from];
            assert(row@ == m[from as int]);
            let pick = cheapest(row, &free);
            let next = free[pick];
            let ghost before = way@;
            visited.set(next, true);
            way.push(next);
            proof {
                assert(before == way@.take(before.len() as int));
                assert forall|j: usize|
                    (j as int) < m.len() && !before.contains(j) implies m[from as int][next as int]
                        <= #[trigger] m[from as int][j as int] && (j < next ==> m[from as int][next
                        as int] < m[from as int][j as int]) by {
                    assert(free@.contains(j));
                    let k = choose|k: int| 0 <= k < free@.len() && free@[k] == j;
                    if j < next {
                        if k >= pick {
                            if k > pick {
                                assert(free@[pick as int] < free@[k]);
                            }
                        }
                    }
                }
                assert(is_nearest_step(m, way@.take(before.len() as int), way@[before.len() as int]));
                assert forall|i: int| 1 <= i < way@.len() implies is_nearest_step(m, way@.take(i), #[trigger] way@[i]) by {
                    if i < before.len() {
                        assert(way@.take(i) == before.take(i));
                    }
                }
                assert forall|v: usize| (v as int) < n implies (visited@[v as int] <==> #[trigger] way@.contains(v)) by {
                    if v == next {
                        assert(way@[before.len() as int] == v);
                    } else if before.contains(v) {
                        let k = choose|k: int| 0 <= k < before.len() && before[k] == v;
                        assert(way@[k] == v);
                    } else {
                        if way@.contains(v) {
                            let k = choose|k: int| 0 <= k < way@.len() && way@[k] == v;
                            assert(before[k] == v);
                        }
                    }
                }
            }
            free = visited.available_neighbors();
        }
        proof {
            lemma_distinct_nodes(way@, n as nat);
            assert forall|v: usize| (v as int) < n implies #[trigger] way@.contains(v) by {
                if !visited@[v as int] {
                    assert(free@.contains(v));
                }
            }
        }
        let ghost walk = way@;
        way.push(0);
        proof {
            assert(walk == way@.take(n as int));
            assert forall|i: int| 1 <= i < way@.len() - 1 implies is_nearest_step(m, way@.take(i), #[trigger] way@[i]) by {
                assert(way@.take(i) == walk.take(i));
            }
            assert forall|i: int, j: int| 0 <= i < j < n implies #[trigger] way@[i] != #[trigger] way@[j] by {
                assert(walk[i] != walk[j]);
            }
        }
        Way::new(adj_matrix, way)
    }
}

} // verus!
