use vstd::prelude::*;
use vstd::set_lib::{lemma_int_range, lemma_len_subset, lemma_subset_equality, set_int_range};

verus! {

/// A matrix of edge costs: `m[from][to]` is the cost of going from `from` to `to`.
pub type AdjMatrix<T> = Vec<Vec<T>>;

/// The cost matrix as a sequence of rows.
pub open spec fn matrix_view(m: &AdjMatrix<u32>) -> Seq<Seq<u32>> {
    Seq::new(m@.len(), |i: int| m@[i]@)
}

/// A non-empty square matrix, small enough that a closed tour over it has at most 2^32 positions.
pub open spec fn is_square(m: Seq<Seq<u32>>) -> bool {
    &&& 1 <= m.len() <= u32::MAX
    &&& forall|i: int| 0 <= i < m.len() ==> #[trigger] m[i].len() == m.len()
}

/// Every consecutive pair of `way` names a cell of `m`.
pub open spec fn edges_in_matrix(m: Seq<Seq<u32>>, way: Seq<usize>) -> bool {
    forall|i: int|
        0 <= i < way.len() - 1 ==> (#[trigger] way[i] as int) < m.len() && (way[i + 1] as int)
            < m[way[i] as int].len()
}

/// Number of consecutive pairs in `way`.
pub open spec fn edge_count(way: Seq<usize>) -> nat {
    if way.len() == 0 {
        0
    } else {
        (way.len() - 1) as nat
    }
}

/// Sum of the costs of the first `k` edges of `way`.
pub open spec fn prefix_cost(m: Seq<Seq<u32>>, way: Seq<usize>, k: int) -> int
    decreases k,
{
    if k <= 0 {
        0
    } else {
        prefix_cost(m, way, k - 1) + m[way[k - 1] as int][way[k] as int] as int
    }
}

/// Sum of the costs of all consecutive edges of `way`.
pub open spec fn way_cost(m: Seq<Seq<u32>>, way: Seq<usize>) -> int {
    prefix_cost(m, way, edge_count(way) as int)
}

/// `way[i] == from` and `way[i + 1] == to` for some `i`.
pub open spec fn has_edge(way: Seq<usize>, from: usize, to: usize) -> bool {
    exists|i: int| 0 <= i < way.len() - 1 && #[trigger] way[i] == from && way[i + 1] == to
}

/// Every node below `n` occurs among the first `n` positions of `way`.
pub open spec fn covers(way: Seq<usize>, n: nat) -> bool {
    forall|v: usize| (v as int) < n ==> #[trigger] way.take(n as int).contains(v)
}

/// A closed tour over `n` nodes: `n + 1` positions, the first `n` a permutation of
/// `0..n`, and the last equal to the first.
pub open spec fn is_tour(way: Seq<usize>, n: nat) -> bool {
    &&& n >= 1
    &&& way.len() == n + 1
    &&& way[0] == way[n as int]
    &&& forall|i: int| 0 <= i < n ==> (#[trigger] way[i] as int) < n
    &&& forall|i: int, j: int| 0 <= i < j < n ==> #[trigger] way[i] != #[trigger] way[j]
    &&& covers(way, n)
}

/// A walk in progress over `n` nodes: distinct nodes below `n`, with `visited`
/// flagging exactly the nodes already on it.
pub open spec fn is_partial_walk(way: Seq<usize>, visited: Seq<bool>, n: nat) -> bool {
    &&& visited.len() == n
    &&& way.no_duplicates()
    &&& forall|i: int| 0 <= i < way.len() ==> (#[trigger] way[i] as int) < n
    &&& forall|v: usize| (v as int) < n ==> (visited[v as int] <==> #[trigger] way.contains(v))
}

/// `r` lists, in increasing order, exactly the indices whose flag is `false`.
pub open spec fn lists_unvisited(r: Seq<usize>, visited: Seq<bool>) -> bool {
    &&& forall|i: int, j: int| 0 <= i < j < r.len() ==> #[trigger] r[i] < #[trigger] r[j]
    &&& forall|i: int|
        0 <= i < r.len() ==> (#[trigger] r[i] as int) < visited.len() && !visited[r[i] as int]
    &&& forall|v: usize| (v as int) < visited.len() && !visited[v as int] ==> #[trigger] r.contains(v)
}

/// Distinct nodes below `n` are at most `n`; they are exactly `n` when they cover `0..n`.
pub proof fn lemma_distinct_nodes(s: Seq<usize>, n: nat)
    requires
        s.no_duplicates(),
        n <= usize::MAX,
        forall|i: int| 0 <= i < s.len() ==> (#[trigger] s[i] as int) < n,
    ensures
        s.len() <= n,
        (forall|v: usize| (v as int) < n ==> #[trigger] s.contains(v)) <==> s.len() == n,
{
    let si = s.map_values(|x: usize| x as int);
    assert(si.no_duplicates()) by {
        assert forall|i: int, j: int| 0 <= i < si.len() && 0 <= j < si.len() && i != j implies si[i]
            != si[j] by {
            assert(s[i] != s[j]);
        }
    }
    si.unique_seq_to_set();
    let full = set_int_range(0, n as int);
    lemma_int_range(0, n as int);
    assert(si.to_set().subset_of(full)) by {
        assert forall|x: int| si.to_set().contains(x) implies full.contains(x) by {
            let i = choose|i: int| 0 <= i < si.len() && si[i] == x;
            assert(s[i] as int == x);
        }
    }
    lemma_len_subset(si.to_set(), full);
    if forall|v: usize| (v as int) < n ==> #[trigger] s.contains(v) {
        assert(full.subset_of(si.to_set())) by {
            assert forall|x: int| full.contains(x) implies si.to_set().contains(x) by {
                let v = x as usize;
                assert(s.contains(v));
                let i = choose|i: int| 0 <= i < s.len() && s[i] == v;
                assert(si[i] == x);
            }
        }
        lemma_len_subset(full, si.to_set());
    }
    if s.len() == n {
        lemma_subset_equality(si.to_set(), full);
        assert forall|v: usize| (v as int) < n implies #[trigger] s.contains(v) by {
            assert(full.contains(v as int));
            assert(si.to_set().contains(v as int));
            let i = choose|i: int| 0 <= i < si.len() && si[i] == v as int;
            assert(s[i] == v);
        }
    }
}

/// The nodes of a visited-flag vector that are still free.
pub trait VisitedVecExt {
    spec fn flags(&self) -> Seq<bool>;

    fn available_neighbors(&self) -> (r: Vec<usize>)
        ensures
            lists_unvisited(r@, self.flags()),
    ;
}

impl VisitedVecExt for Vec<bool> {
    open spec fn flags(&self) -> Seq<bool> {
        self@
    }

    fn available_neighbors(&self) -> (r: Vec<usize>) {
        let mut r: Vec<usize> = Vec::new();
        let mut index: usize = 0;
        while index < self.len()
            invariant
                index <= self@.len(),
                forall|i: int, j: int| 0 <= i < j < r@.len() ==> #[trigger] r@[i] < #[trigger] r@[j],
                forall|i: int|
                    0 <= i < r@.len() ==> (#[trigger] r@[i] as int) < index && !self@[r@[i] as int],
                forall|v: usize| (v as int) < index && !self@[v as int] ==> #[trigger] r@.contains(v),
            decreases self@.len() - index,
        {
            if !self[index] {
                let ghost before = r@;
                r.push(index);
                assert forall|v: usize| (v as int) < index + 1 && !self@[v as int] implies #[trigger] r@.contains(v) by {
                    if v == index {
                        assert(r@[r@.len() - 1] == v);
                    } else {
                        assert(before.contains(v));
                        let k = choose|k: int| 0 <= k < before.len() && before[k] == v;
                        assert(r@[k] == v);
                    }
                }
            } else {
                assert forall|v: usize| (v as int) < index + 1 && !self@[v as int] implies #[trigger] r@.contains(v) by {
                }
            }
            index = index + 1;
        }
        r
    }
}

/// The consecutive pairs of a sequence of nodes.
pub trait WayVecExt {
    spec fn node_seq(&self) -> Seq<usize>;

    fn iter_edges(&self) -> (r: Vec<(usize, usize)>)
        ensures
            r@.len() == edge_count(self.node_seq()),
            forall|i: int|
                0 <= i < r@.len() ==> #[trigger] r@[i] == (self.node_seq()[i], self.node_seq()[i + 1]),
    ;
}

impl WayVecExt for Vec<usize> {
    open spec fn node_seq(&self) -> Seq<usize> {
        self@
    }

    fn iter_edges(&self) -> (r: Vec<(usize, usize)>) {
        let mut r: Vec<(usize, usize)> = Vec::new();
        if self.len() == 0 {
            return r;
        }
        let mut index: usize = 0;
        while index < self.len() - 1
            invariant
                0 < self@.len(),
                index < self@.len(),
                r@.len() == index,
                forall|i: int| 0 <= i < r@.len() ==> #[trigger] r@[i] == (self@[i], self@[i + 1]),
            decreases self@.len() - index,
        {
            r.push((self[index], self[index + 1]));
            index = index + 1;
        }
        r
    }
}

/// A closed walk over a cost matrix together with its cost.
pub struct Way<'a> {
    adj_matrix: &'a AdjMatrix<u32>,
    way: Vec<usize>,
    score: u64,
}

impl<'a> Way<'a> {
    /// The cost matrix the walk is measured on.
    pub closed spec fn matrix(&self) -> Seq<Seq<u32>> {
        matrix_view(self.adj_matrix)
    }

    /// The nodes of the walk, in visiting order.
    pub closed spec fn nodes(&self) -> Seq<usize> {
        self.way@
    }

    /// The stored cost of the walk.
    pub closed spec fn cost(&self) -> u64 {
        self.score
    }

    /// The stored cost is the sum of the costs of the walk's edges.
    pub open spec fn wf(&self) -> bool {
        &&& edges_in_matrix(self.matrix(), self.nodes())
        &&& self.nodes().len() <= u32::MAX + 1
        &&& self.cost() == way_cost(self.matrix(), self.nodes())
    }

    pub fn new(adj_matrix: &'a AdjMatrix<u32>, way: Vec<usize>) -> (r: Self)
        requires
            edges_in_matrix(matrix_view(adj_matrix), way@),
            way@.len() <= u32::MAX + 1,
        ensures
            r.wf(),
            r.matrix() == matrix_view(adj_matrix),
            r.nodes() == way@,
            r.cost() == way_cost(matrix_view(adj_matrix), way@),
    {
        let score = Self::calculate_score(adj_matrix, &way);
        Way { adj_matrix, way, score }
    }

    pub fn adj_matrix(&self) -> (r: &AdjMatrix<u32>)
        ensures
            matrix_view(r) == self.matrix(),
    {
        self.adj_matrix
    }

    pub fn way(&self) -> (r: &Vec<usize>)
        ensures
            r@ == self.nodes(),
    {
        &self.way
    }

    pub fn score(&self) -> (r: u64)
        ensures
            r == self.cost(),
    {
        self.score
    }

    /// Whether `from` is directly followed by `to` somewhere on the walk.
    pub fn contains(&self, from: usize, to: usize) -> (r: bool)
        ensures
            r == has_edge(self.nodes(), from, to),
    {
        let way = &self.way;
        if way.len() == 0 {
            return false;
        }
        let mut index: usize = 0;
        while index < way.len() - 1
            invariant
                way@ == self.nodes(),
                0 < way@.len(),
                index < way@.len(),
                forall|i: int| 0 <= i < index ==> !(#[trigger] way@[i] == from && way@[i + 1] == to),
            decreases way@.len() - index,
        {
            if way[index] == from && way[index + 1] == to {
                return true;
            }
            index = index + 1;
        }
        false
    }

    fn calculate_score(adj_matrix: &AdjMatrix<u32>, way: &Vec<usize>) -> (r: u64)
        requires
            edges_in_matrix(matrix_view(adj_matrix), way@),
            way@.len() <= u32::MAX + 1,
        ensures
            r == way_cost(matrix_view(adj_matrix), way@),
    {
        let ghost m = matrix_view(adj_matrix);
        let edges = way.iter_edges();
        let mut sum: u64 = 0;
        let mut index: usize = 0;
        while index < edges.len()
            invariant
                m == matrix_view(adj_matrix),
                edges_in_matrix(m, way@),
                edges@.len() == edge_count(way@),
                edges@.len() <= u32::MAX,
                forall|i: int| 0 <= i < edges@.len() ==> #[trigger] edges@[i] == (way@[i], way@[i + 1]),
                index <= edges@.len(),
                sum == prefix_cost(m, way@, index as int),
                sum <= index * (u32::MAX as int),
            decreases edges@.len() - index,
        {
            let (from, to) = edges[index];
            assert(way@[index as int] == from);
            assert(m[from as int] == adj_matrix@[from as int]@);
            let edge = adj_matrix[from][to];
            assert(index * (u32::MAX as int) + u32::MAX <= u32::MAX * (u32::MAX as int)) by (nonlinear_arith)
                requires
                    index < u32::MAX,
            ;
            sum = sum + edge as u64;
            index = index + 1;
        }
        sum
    }
}

impl<'a> Clone for Way<'a> {
    fn clone(&self) -> (r: Self)
        ensures
            r.matrix() == self.matrix(),
            r.nodes() == self.nodes(),
            r.cost() == self.cost(),
    {
        let way = self.way.clone();
        assert(way@ =~= self.way@);
        Way { adj_matrix: self.adj_matrix, way, score: self.score }
    }
}

/// Whether two node sequences are equal.
fn same_nodes(a: &Vec<usize>, b: &Vec<usize>) -> (r: bool)
    ensures
        r == (a@ == b@),
{
    if a.len() != b.len() {
        return false;
    }
    let mut i: usize = 0;
    while i < a.len()
        invariant
            a@.len() == b@.len(),
            i <= a@.len(),
            forall|k: int| 0 <= k < i ==> a@[k] == b@[k],
        decreases a@.len() - i,
    {
        if a[i] != b[i] {
            return false;
        }
        i = i + 1;
    }
    assert(a@ =~= b@);
    true
}

/// Whether two cost matrices hold the same rows.
fn same_matrix(a: &AdjMatrix<u32>, b: &AdjMatrix<u32>) -> (r: bool)
    ensures
        r == (matrix_view(a) == matrix_view(b)),
{
    if a.len() != b.len() {
        assert(matrix_view(a).len() != matrix_view(b).len());
        return false;
    }
    let mut i: usize = 0;
    while i < a.len()
        invariant
            a@.len() == b@.len(),
            i <= a@.len(),
            forall|k: int| 0 <= k < i ==> a@[k]@ == b@[k]@,
        decreases a@.len() - i,
    {
        let row_a = &a[i];
        let row_b = &b[i];
        if row_a.len() != row_b.len() {
            assert(matrix_view(a)[i as int] != matrix_view(b)[i as int]);
            return false;
        }
        let mut j: usize = 0;
        while j < row_a.len()
            invariant
                a@.len() == b@.len(),
                i < a@.len(),
                row_a@ == a@[i as int]@,
                row_b@ == b@[i as int]@,
                row_a@.len() == row_b@.len(),
                j <= row_a@.len(),
                forall|k: int| 0 <= k < j ==> row_a@[k] == row_b@[k],
            decreases row_a@.len() - j,
        {
            if row_a[j] != row_b[j] {
                assert(matrix_view(a)[i as int][j as int] != matrix_view(b)[i as int][j as int]);
                return false;
            }
            j = j + 1;
        }
        assert(a@[i as int]@ =~= b@[i as int]@);
        i = i + 1;
    }
    assert(matrix_view(a) =~= matrix_view(b));
    true
}

/// Two walks are equal when they run over the same matrix, through the same nodes,
/// at the same cost.
impl<'a> PartialEq for Way<'a> {
    fn eq(&self, other: &Self) -> (r: bool) {
        same_matrix(self.adj_matrix, other.adj_matrix) && same_nodes(&self.way, &other.way)
            && self.score == other.score
    }
}

impl<'a> vstd::std_specs::cmp::PartialEqSpecImpl for Way<'a> {
    open spec fn obeys_eq_spec() -> bool {
        true
    }

    open spec fn eq_spec(&self, other: &Self) -> bool {
        &&& self.matrix() == other.matrix()
        &&& self.nodes() == other.nodes()
        &&& self.cost() == other.cost()
    }
}

/// Walks are ordered by cost alone: the cheaper one is the lesser.
impl<'a> PartialOrd for Way<'a> {
    fn partial_cmp(&self, other: &Self) -> (r: Option<core::cmp::Ordering>) {
        if self.score < other.score {
            Some(core::cmp::Ordering::Less)
        } else if self.score == other.score {
            Some(core::cmp::Ordering::Equal)
        } else {
            Some(core::cmp::Ordering::Greater)
        }
    }
}

impl<'a> vstd::std_specs::cmp::PartialOrdSpecImpl for Way<'a> {
    open spec fn obeys_partial_cmp_spec() -> bool {
        true
    }

    open spec fn partial_cmp_spec(&self, other: &Self) -> Option<core::cmp::Ordering> {
        if self.cost() < other.cost() {
            Some(core::cmp::Ordering::Less)
        } else if self.cost() == other.cost() {
            Some(core::cmp::Ordering::Equal)
        } else {
            Some(core::cmp::Ordering::Greater)
        }
    }
}

/// A tour-building strategy over a cost matrix.
pub trait Solver {
    fn solve<'a>(&self, adj_matrix: &'a AdjMatrix<u32>) -> (r: Way<'a>)
        requires
            is_square(matrix_view(adj_matrix)),
        ensures
            r.wf(),
            r.matrix() == matrix_view(adj_matrix),
            is_tour(r.nodes(), adj_matrix@.len()),
    ;
}

} // verus!
