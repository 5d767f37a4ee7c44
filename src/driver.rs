use vstd::prelude::*;

use crate::models::{is_tour, Way};

verus! {

/// A run size that cannot produce a tour.
#[derive(Debug, Clone, Copy, PartialEq, Eq, Structural)]
pub enum ConfigError {
    ZeroIterations,
    ZeroPopulation,
}

/// Two walks over the same matrix with the same nodes and cost.
pub open spec fn same_way(a: Way, b: Way) -> bool {
    &&& a.matrix() == b.matrix()
    &&& a.nodes() == b.nodes()
    &&& a.cost() == b.cost()
}

/// Position `i` holds a cheapest walk of `population`, and no earlier one is as cheap.
pub open spec fn is_first_cheapest(population: Seq<Way>, i: int) -> bool {
    &&& 0 <= i < population.len()
    &&& forall|j: int| 0 <= j < population.len() ==> population[i].cost() <= (#[trigger] population[j]).cost()
    &&& forall|j: int| 0 <= j < i ==> population[i].cost() < (#[trigger] population[j]).cost()
}

/// The best walk after offering `candidate` where `best` was stored: the candidate
/// unless it costs more than the stored walk.
pub open spec fn offer_outcome(best: Option<Way>, candidate: Way, r: Way) -> bool {
    match best {
        Some(b) => if candidate.cost() <= b.cost() {
            same_way(r, candidate)
        } else {
            same_way(r, b)
        },
        None => same_way(r, candidate),
    }
}

/// The position of the cheapest walk of `population`, the first among equals.
pub fn iteration_best<'a>(population: &Vec<Way<'a>>) -> (r: usize)
    requires
        population@.len() >= 1,
    ensures
        is_first_cheapest(population@, r as int),
{
    let mut best: usize = 0;
    let mut index: usize = 1;
    while index < population.len()
        invariant
            best < index <= population@.len(),
            forall|i: int|
                0 <= i < index ==> population@[best as int].cost() <= (#[trigger] population@[i]).cost(),
            forall|i: int| 0 <= i < best ==> population@[best as int].cost() < (#[trigger] population@[i]).cost(),
        decreases population@.len() - index,
    {
        if population[index].score() < population[best].score() {
            best = index;
        }
        index = index + 1;
    }
    best
}

/// Which finished walks the end-of-iteration reinforcement rewards.
#[derive(Debug, Clone, Copy, PartialEq, Eq, Structural)]
pub enum DelayedReinforcement {
    /// The best walk of the whole run so far.
    GlobalBest,
    /// The cheapest walk of the current iteration.
    IterationBest,
    /// Every walk of the current iteration.
    AntSystem,
}

impl DelayedReinforcement {
    /// The walks to reward after an iteration that built `population`, when
    /// `global_best` is the best walk of the run so far.
    pub fn reinforced_ways<'a>(&self, population: &Vec<Way<'a>>, global_best: &Way<'a>) -> (r: Vec<
        Way<'a>,
    >)
        requires
            population@.len() >= 1,
        ensures
            match *self {
                DelayedReinforcement::GlobalBest => r@.len() == 1 && same_way(r@[0], *global_best),
                DelayedReinforcement::IterationBest => r@.len() == 1 && exists|i: int|
                    #[trigger] is_first_cheapest(population@, i) && same_way(r@[0], population@[i]),
                DelayedReinforcement::AntSystem => r@.len() == population@.len() && forall|i: int|
                    0 <= i < r@.len() ==> same_way(#[trigger] r@[i], population@[i]),
            },
    {
        let mut r: Vec<Way<'a>> = Vec::new();
        match self {
            DelayedReinforcement::GlobalBest => {
                r.push(global_best.clone());
            },
            DelayedReinforcement::IterationBest => {
                let index = iteration_best(population);
                r.push(population[index].clone());
                assert(is_first_cheapest(population@, index as int));
            },
            DelayedReinforcement::AntSystem => {
                let mut i: usize = 0;
                while i < population.len()
                    invariant
                        i <= population@.len(),
                        r@.len() == i,
                        forall|k: int| 0 <= k < i ==> same_way(#[trigger] r@[k], population@[k]),
                    decreases population@.len() - i,
                {
                    r.push(population[i].clone());
                    i = i + 1;
                }
            },
        }
        r
    }
}

/// The counter of a run of a fixed number of iterations, with the best walk found so far.
pub struct IterationDriver<'a> {
    max_iterations: u32,
    population_size: usize,
    iteration: u32,
    best_way: Option<Way<'a>>,
}

impl<'a> IterationDriver<'a> {
    pub closed spec fn max_iteration_count(&self) -> nat {
        self.max_iterations as nat
    }

    pub closed spec fn population(&self) -> nat {
        self.population_size as nat
    }

    /// Number of iterations done so far.
    pub closed spec fn done(&self) -> nat {
        self.iteration as nat
    }

    /// The best walk found so far, if any iteration has run.
    pub closed spec fn best(&self) -> Option<Way<'a>> {
        self.best_way
    }

    pub closed spec fn wf(&self) -> bool {
        &&& self.max_iterations >= 1
        &&& self.population_size >= 1
        &&& self.iteration <= self.max_iterations
        &&& (self.iteration == 0 <==> self.best_way is None)
        &&& (self.best_way matches Some(b) ==> b.wf())
    }

    /// A run of `max_iterations` iterations of `population_size` ants each; both must
    /// be positive.
    pub fn new(max_iterations: u32, population_size: usize) -> (r: Result<Self, ConfigError>)
        ensures
            max_iterations == 0 ==> r == Err::<Self, ConfigError>(ConfigError::ZeroIterations),
            max_iterations >= 1 && population_size == 0 ==> r == Err::<Self, ConfigError>(
                ConfigError::ZeroPopulation,
            ),
            max_iterations >= 1 && population_size >= 1 ==> (r matches Ok(d) && d.wf()
                && d.max_iteration_count() == max_iterations && d.population() == population_size
                && d.done() == 0 && d.best() is None),
    {
        if max_iterations == 0 {
            Err(ConfigError::ZeroIterations)
        } else if population_size == 0 {
            Err(ConfigError::ZeroPopulation)
        } else {
            Ok(IterationDriver { max_iterations, population_size, iteration: 0, best_way: None })
        }
    }

    pub fn max_iterations(&self) -> (r: u32)
        ensures
            r == self.max_iteration_count(),
    {
        self.max_iterations
    }

    pub fn population_size(&self) -> (r: usize)
        ensures
            r == self.population(),
    {
        self.population_size
    }

    pub fn iteration(&self) -> (r: u32)
        ensures
            r == self.done(),
    {
        self.iteration
    }

    /// Whether iterations remain.
    pub fn is_running(&self) -> (r: bool)
        ensures
            r == (self.done() < self.max_iteration_count()),
    {
        self.iteration < self.max_iterations
    }

    /// Offers `candidate` as the best walk: it replaces the stored one unless it costs
    /// more. Returns the stored walk after the offer.
    fn global_best_way(&mut self, candidate: Way<'a>) -> (r: Way<'a>)
        requires
            candidate.wf(),
            old(self).best() matches Some(b) ==> b.wf(),
        ensures
            final(self).max_iteration_count() == old(self).max_iteration_count(),
            final(self).population() == old(self).population(),
            final(self).done() == old(self).done(),
            final(self).best() matches Some(b) && same_way(b, r),
            r.wf(),
            match old(self).best() {
                Some(b) => if candidate.cost() <= b.cost() {
                    r == candidate
                } else {
                    same_way(r, b) && final(self).best() == old(self).best()
                },
                None => r == candidate,
            },
    {
        match &self.best_way {
            Some(way) => {
                if candidate.score() <= way.score() {
                    self.best_way = Some(candidate.clone());
                    candidate
                } else {
                    way.clone()
                }
            },
            None => {
                self.best_way = Some(candidate.clone());
                candidate
            },
        }
    }

    /// Ends one iteration on the walks its ants built: the cheapest of them is offered
    /// as the best walk, and the best walk after that is returned. The best cost
    /// never rises from one iteration to the next, and when every walk offered so far
    /// is a tour over `n` nodes, so is the returned one.
    pub fn record(&mut self, population: &Vec<Way<'a>>) -> (r: Way<'a>)
        requires
            old(self).wf(),
            old(self).done() < old(self).max_iteration_count(),
            population@.len() >= 1,
            forall|i: int| 0 <= i < population@.len() ==> (#[trigger] population@[i]).wf(),
        ensures
            final(self).wf(),
            final(self).max_iteration_count() == old(self).max_iteration_count(),
            final(self).population() == old(self).population(),
            final(self).done() == old(self).done() + 1,
            final(self).best() matches Some(b) && same_way(b, r),
            r.wf(),
            exists|i: int|
                #[trigger] is_first_cheapest(population@, i) && offer_outcome(
                    old(self).best(),
                    population@[i],
                    r,
                ),
            old(self).best() matches Some(b) ==> r.cost() <= b.cost(),
            old(self).best() matches Some(b) ==> (final(self).best() matches Some(nb) && nb.cost()
                <= b.cost()),
            forall|n: nat|
                #![trigger is_tour(r.nodes(), n)]
                (forall|i: int|
                    0 <= i < population@.len() ==> is_tour(#[trigger] population@[i].nodes(), n)) && (
                old(self).best() matches Some(b) ==> is_tour(b.nodes(), n)) ==> is_tour(r.nodes(), n),
    {
        let index = iteration_best(population);
        let candidate = population[index].clone();
        self.iteration = self.iteration + 1;
        let r = self.global_best_way(candidate);
        assert(is_first_cheapest(population@, index as int));
        r
    }

    /// The best walk of the run; `None` only when no iteration has run.
    pub fn into_best(self) -> (r: Option<Way<'a>>)
        requires
            self.wf(),
        ensures
            r == self.best(),
            r is None <==> self.done() == 0,
    {
        self.best_way
    }
}

} // verus!
