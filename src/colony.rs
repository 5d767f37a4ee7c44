use vstd::prelude::*;

use rand::rngs::StdRng;

use crate::models::{
    edges_in_matrix, is_partial_walk, is_square, is_tour, lemma_distinct_nodes, lists_unvisited,
    matrix_view, AdjMatrix, VisitedVecExt, Way,
};
use crate::rand_utils::random_index;

verus! {

/// How far `v` lies after `drawn` when counting forward round `0..n`.
pub open spec fn forward_distance(drawn: int, v: int, n: int) -> int {
    if v >= drawn {
        v - drawn
    } else {
        v + n - drawn
    }
}

/// `r` lists, in increasing order, exactly the nodes below `n` that are not on `walk`.
pub open spec fn lists_free_nodes(r: Seq<usize>, walk: Seq<usize>, n: nat) -> bool {
    &&& forall|i: int, j: int| 0 <= i < j < r.len() ==> #[trigger] r[i] < #[trigger] r[j]
    &&& forall|i: int| 0 <= i < r.len() ==> (#[trigger] r[i] as int) < n && !walk.contains(r[i])
    &&& forall|v: usize| (v as int) < n && !walk.contains(v) ==> #[trigger] r.contains(v)
}

/// A population of ants building tours over the same nodes in lock-step: every hop
/// moves every ant by one node, so all partial walks always have the same length.
pub struct Colony {
    nodes_count: usize,
    steps: usize,
    visited: Vec<Vec<bool>>,
    ways: Vec<Vec<usize>>,
}

/// A walk through all `n` nodes of a square matrix, closed back to its first node,
/// is a tour whose edges all lie in the matrix.
proof fn lemma_closed_walk(m: Seq<Seq<u32>>, walk: Seq<usize>)
    requires
        is_square(m),
        walk.len() == m.len(),
        walk.no_duplicates(),
        forall|i: int| 0 <= i < walk.len() ==> (#[trigger] walk[i] as int) < m.len(),
    ensures
        is_tour(walk.push(walk[0]), m.len()),
        edges_in_matrix(m, walk.push(walk[0])),
        walk.push(walk[0]).len() <= u32::MAX + 1,
{
    let n = m.len();
    let way = walk.push(walk[0]);
    lemma_distinct_nodes(walk, n);
    assert(walk == way.take(n as int));
    assert forall|i: int| 0 <= i < way.len() - 1 implies (#[trigger] way[i] as int) < m.len()
        && (way[i + 1] as int) < m[way[i] as int].len() by {
        assert(m[way[i] as int].len() == n);
    }
    assert forall|i: int, j: int| 0 <= i < j < n implies #[trigger] way[i] != #[trigger] way[j] by {
        assert(walk[i] != walk[j]);
    }
}

impl Colony {
    /// Number of nodes of the graph.
    pub closed spec fn node_count(&self) -> nat {
        self.nodes_count as nat
    }

    /// The partial walk of each ant, in visiting order.
    pub closed spec fn walks(&self) -> Seq<Seq<usize>> {
        Seq::new(self.ways@.len(), |k: int| self.ways@[k]@)
    }

    /// Number of nodes each ant has visited so far.
    pub closed spec fn step_count(&self) -> nat {
        self.steps as nat
    }

    pub open spec fn population(&self) -> nat {
        self.walks().len()
    }

    pub closed spec fn wf(&self) -> bool {
        &&& 1 <= self.nodes_count <= u32::MAX
        &&& 1 <= self.steps <= self.nodes_count
        &&& self.ways@.len() >= 1
        &&& self.visited@.len() == self.ways@.len()
        &&& forall|k: int| 0 <= k < self.ways@.len() ==> #[trigger] self.ant_ok(k)
    }

    closed spec fn ant_ok(&self, k: int) -> bool {
        &&& self.ways@[k]@.len() == self.steps
        &&& is_partial_walk(self.ways@[k]@, self.visited@[k]@, self.nodes_count as nat)
    }

    /// One ant per entry of `starts`, each standing on its start node.
    pub fn with_starts(nodes_count: usize, starts: &Vec<usize>) -> (r: Colony)
        requires
            1 <= nodes_count <= u32::MAX,
            starts@.len() >= 1,
            forall|k: int| 0 <= k < starts@.len() ==> (#[trigger] starts@[k] as int) < nodes_count,
        ensures
            r.wf(),
            r.node_count() == nodes_count,
            r.step_count() == 1,
            r.walks() == Seq::new(starts@.len(), |k: int| seq![starts@[k]]),
    {
        let mut visited: Vec<Vec<bool>> = Vec::new();
        let mut ways: Vec<Vec<usize>> = Vec::new();
        let mut k: usize = 0;
        while k < starts.len()
            invariant
                1 <= nodes_count <= u32::MAX,
                forall|j: int| 0 <= j < starts@.len() ==> (#[trigger] starts@[j] as int) < nodes_count,
                k <= starts@.len(),
                visited@.len() == k,
                ways@.len() == k,
                forall|j: int|
                    0 <= j < k ==> #[trigger] ways@[j]@ == seq![starts@[j]] && is_partial_walk(
                        ways@[j]@,
                        visited@[j]@,
                        nodes_count as nat,
                    ),
            decreases starts@.len() - k,
        {
            let start = starts[k];
            let mut flags: Vec<bool> = vec![false; nodes_count];
            flags.set(start, true);
            let mut way: Vec<usize> = Vec::new();
            way.push(start);
            assert(is_partial_walk(way@, flags@, nodes_count as nat)) by {
                assert forall|v: usize| (v as int) < nodes_count implies (flags@[v as int]
                    <==> #[trigger] way@.contains(v)) by {
                    if v == start {
                        assert(way@[0] == v);
                    }
                }
            }
            visited.push(flags);
            ways.push(way);
            k = k + 1;
        }
        let r = Colony { nodes_count, steps: 1, visited, ways };
        assert(r.walks() =~= Seq::new(starts@.len(), |k: int| seq![starts@[k]]));
        r
    }

    /// `population_size` ants, each on a start node drawn uniformly from `rng`.
    pub fn scatter(rng: &mut StdRng, nodes_count: usize, population_size: usize) -> (r: Colony)
        requires
            1 <= nodes_count <= u32::MAX,
            population_size >= 1,
        ensures
            r.wf(),
            r.node_count() == nodes_count,
            r.step_count() == 1,
            r.population() == population_size,
    {
        let mut starts: Vec<usize> = Vec::new();
        let mut k: usize = 0;
        while k < population_size
            invariant
                1 <= nodes_count,
                k <= population_size,
                starts@.len() == k,
                forall|j: int| 0 <= j < k ==> (#[trigger] starts@[j] as int) < nodes_count,
            decreases population_size - k,
        {
            let start = random_index(rng, nodes_count);
            starts.push(start);
            k = k + 1;
        }
        Colony::with_starts(nodes_count, &starts)
    }

    pub fn nodes_count(&self) -> (r: usize)
        ensures
            r == self.node_count(),
    {
        self.nodes_count
    }

    pub fn population_size(&self) -> (r: usize)
        ensures
            r == self.population(),
    {
        self.ways.len()
    }

    /// Whether every ant has visited every node.
    pub fn is_complete(&self) -> (r: bool)
        requires
            self.wf(),
        ensures
            r == (self.step_count() == self.node_count()),
    {
        self.steps == self.nodes_count
    }

    /// The node an ant stands on.
    pub fn current(&self, ant: usize) -> (r: usize)
        requires
            self.wf(),
            ant < self.population(),
        ensures
            r == self.walks()[ant as int].last(),
    {
        assert(self.ant_ok(ant as int));
        let way = &self.ways[ant];
        way[way.len() - 1]
    }

    /// The node an ant started from.
    pub fn start(&self, ant: usize) -> (r: usize)
        requires
            self.wf(),
            ant < self.population(),
        ensures
            r == self.walks()[ant as int][0],
    {
        assert(self.ant_ok(ant as int));
        self.ways[ant][0]
    }

    /// Whether an ant has already visited `node`.
    pub fn is_visited(&self, ant: usize, node: usize) -> (r: bool)
        requires
            self.wf(),
            ant < self.population(),
            node < self.node_count(),
        ensures
            r == self.walks()[ant as int].contains(node),
    {
        assert(self.ant_ok(ant as int));
        self.visited[ant][node]
    }

    /// The nodes an ant has not visited yet, in increasing order.
    pub fn unvisited(&self, ant: usize) -> (r: Vec<usize>)
        requires
            self.wf(),
            ant < self.population(),
        ensures
            lists_free_nodes(r@, self.walks()[ant as int], self.node_count()),
    {
        let ghost walk = self.ways@[ant as int]@;
        assert(self.ant_ok(ant as int));
        let r = self.visited[ant].available_neighbors();
        assert(lists_unvisited(r@, self.visited@[ant as int]@));
        r
    }

    /// The first node not yet visited by an ant, counting forward from `drawn` and
    /// wrapping round after the last node; `drawn` itself when it is free.
    pub fn explore_target(&self, ant: usize, drawn: usize) -> (r: usize)
        requires
            self.wf(),
            ant < self.population(),
            drawn < self.node_count(),
            self.step_count() < self.node_count(),
        ensures
            r < self.node_count(),
            !self.walks()[ant as int].contains(r),
            forall|v: usize|
                (v as int) < self.node_count() && forward_distance(drawn as int, v as int, self.node_count() as int)
                    < forward_distance(drawn as int, r as int, self.node_count() as int)
                    ==> #[trigger] self.walks()[ant as int].contains(v),
    {
        let n = self.nodes_count;
        let ghost walk = self.ways@[ant as int]@;
        let flags = &self.visited[ant];
        assert(self.ant_ok(ant as int));
        assert(walk == self.walks()[ant as int]);
        let mut offset: usize = 0;
        while offset < n
            invariant
                n == self.node_count(),
                drawn < n,
                walk == self.walks()[ant as int],
                is_partial_walk(walk, flags@, n as nat),
                offset <= n,
                forall|v: usize|
                    (v as int) < n && forward_distance(drawn as int, v as int, n as int) < offset
                        ==> #[trigger] walk.contains(v),
            decreases n - offset,
        {
            let v = if offset < n - drawn {
                drawn + offset
            } else {
                offset - (n - drawn)
            };
            assert(forward_distance(drawn as int, v as int, n as int) == offset);
            if !flags[v] {
                return v;
            }
            offset = offset + 1;
        }
        proof {
            assert forall|v: usize| (v as int) < n implies #[trigger] walk.contains(v) by {
                assert(forward_distance(drawn as int, v as int, n as int) < n);
            }
            lemma_distinct_nodes(walk, n as nat);
        }
        0
    }

    /// A node for an ant's exploring step: drawn uniformly from all nodes, and moved
    /// forward to the next free one when the draw lands on a visited node.
    pub fn explore(&self, rng: &mut StdRng, ant: usize) -> (r: usize)
        requires
            self.wf(),
            ant < self.population(),
            self.step_count() < self.node_count(),
        ensures
            r < self.node_count(),
            !self.walks()[ant as int].contains(r),
    {
        let drawn = random_index(rng, self.nodes_count);
        self.explore_target(ant, drawn)
    }

    /// Moves every ant at once, ant `k` to `choices[k]`.
    pub fn hop(&mut self, choices: &Vec<usize>)
        requires
            old(self).wf(),
            old(self).step_count() < old(self).node_count(),
            choices@.len() == old(self).population(),
            forall|k: int|
                0 <= k < choices@.len() ==> (#[trigger] choices@[k] as int) < old(self).node_count()
                    && !old(self).walks()[k].contains(choices@[k]),
        ensures
            final(self).wf(),
            final(self).node_count() == old(self).node_count(),
            final(self).step_count() == old(self).step_count() + 1,
            final(self).walks() == Seq::new(
                old(self).population(),
                |k: int| old(self).walks()[k].push(choices@[k]),
            ),
    {
        let ghost old_ways = self.ways@;
        let n = self.nodes_count;
        let mut k: usize = 0;
        while k < choices.len()
            invariant
                self.nodes_count == n,
                old(self).nodes_count == n,
                self.steps == old(self).steps,
                1 <= n <= u32::MAX,
                1 <= self.steps < n,
                choices@.len() == old_ways.len(),
                self.ways@.len() == old_ways.len(),
                self.visited@.len() == old_ways.len(),
                old_ways == old(self).ways@,
                old(self).wf(),
                k <= choices@.len(),
                forall|j: int|
                    0 <= j < choices@.len() ==> (#[trigger] choices@[j] as int) < n
                        && !old_ways[j]@.contains(choices@[j]),
                forall|j: int|
                    0 <= j < k ==> #[trigger] self.ways@[j]@ == old_ways[j]@.push(choices@[j])
                        && is_partial_walk(self.ways@[j]@, self.visited@[j]@, n as nat),
                forall|j: int| k <= j < old_ways.len() ==> #[trigger] self.ways@[j] == old_ways[j],
                forall|j: int|
                    k <= j < old_ways.len() ==> #[trigger] self.visited@[j] == old(self).visited@[j],
            decreases choices@.len() - k,
        {
            let next = choices[k];
            let ghost before = old_ways[k as int]@;
            assert(old(self).ant_ok(k as int));
            let mut way = self.ways[k].clone();
            let mut flags = self.visited[k].clone();
            assert(way@ =~= before);
            assert(flags@ =~= old(self).visited@[k as int]@);
            way.push(next);
            flags.set(next, true);
            proof {
                assert forall|v: usize| (v as int) < n implies (flags@[v as int]
                    <==> #[trigger] way@.contains(v)) by {
                    if v == next {
                        assert(way@[before.len() as int] == v);
                    } else if before.contains(v) {
                        let i = choose|i: int| 0 <= i < before.len() && before[i] == v;
                        assert(way@[i] == v);
                    } else if way@.contains(v) {
                        let i = choose|i: int| 0 <= i < way@.len() && way@[i] == v;
                        assert(before[i] == v);
                    }
                }
            }
            self.ways.set(k, way);
            self.visited.set(k, flags);
            k = k + 1;
        }
        self.steps = self.steps + 1;
        assert forall|j: int| 0 <= j < self.ways@.len() implies #[trigger] self.ant_ok(j) by {
            assert(old(self).ant_ok(j));
        }
        assert(self.walks() =~= Seq::new(
            old(self).population(),
            |k: int| old(self).walks()[k].push(choices@[k]),
        ));
    }

    /// Closes every ant's walk back to its start node and measures it on `adj_matrix`.
    pub fn finish<'a>(&self, adj_matrix: &'a AdjMatrix<u32>) -> (r: Vec<Way<'a>>)
        requires
            self.wf(),
            self.step_count() == self.node_count(),
            is_square(matrix_view(adj_matrix)),
            adj_matrix@.len() == self.node_count(),
        ensures
            r@.len() == self.population(),
            forall|k: int|
                0 <= k < r@.len() ==> (#[trigger] r@[k]).wf() && r@[k].matrix() == matrix_view(
                    adj_matrix,
                ) && r@[k].nodes() == self.walks()[k].push(self.walks()[k][0]) && is_tour(
                    r@[k].nodes(),
                    self.node_count(),
                ),
    {
        let ghost m = matrix_view(adj_matrix);
        let n = self.nodes_count;
        let mut r: Vec<Way<'a>> = Vec::new();
        let mut k: usize = 0;
        while k < self.ways.len()
            invariant
                self.wf(),
                n == self.nodes_count,
                self.steps == n,
                m == matrix_view(adj_matrix),
                is_square(m),
                m.len() == n,
                k <= self.ways@.len(),
                r@.len() == k,
                forall|j: int|
                    0 <= j < k ==> (#[trigger] r@[j]).wf() && r@[j].matrix() == m && r@[j].nodes()
                        == self.walks()[j].push(self.walks()[j][0]) && is_tour(r@[j].nodes(), n as nat),
            decreases self.ways@.len() - k,
        {
            let ghost walk = self.ways@[k as int]@;
            assert(self.ant_ok(k as int));
            assert(walk == self.walks()[k as int]);
            let mut way = self.ways[k].clone();
            assert(way@ =~= walk);
            let start = way[0];
            way.push(start);
            proof {
                lemma_closed_walk(m, walk);
            }
            let tour = Way::new(adj_matrix, way);
            r.push(tour);
            k = k + 1;
        }
        r
    }
}

} // verus!
