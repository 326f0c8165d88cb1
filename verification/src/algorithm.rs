//! The generational search engine: tournament selection, elitist
//! replacement, the per-generation population transition, the convergence
//! loop, and the multi-problem driver.

use vstd::prelude::*;
use vstd::pervasive::VecAdditionalExecFns;
use vstd::set_lib::{lemma_int_range, lemma_len_subset, set_int_range};
use crate::{Parameters, Problem};
use crate::individual::{
    coords_sampled, evaluator_ok, fitness_fresh, lemma_swap_preserves_sampled, sampler_ok,
    swap_exchanges, Individual, IndividualView,
};
use crate::rng::{rng_below, rng_from_seed};

verus! {

/// One terminated search: the problem, the configuration it ran under, the
/// best individual at termination, and the index of the terminating
/// generation.  Exhaustion without convergence is the normal outcome in
/// which `iterations` equals the configured generation bound; convergence
/// is reported by a strictly smaller index.
pub struct Results {
    pub problem: Problem,
    pub parameters: Parameters,
    pub individual: Individual,
    pub iterations: usize,
}

/// One member is acceptable for a population of `problem` in dimension
/// `dim`: it solves that problem with a vector of that length.
pub open spec fn ind_ok(ind: Individual, problem: Problem, dim: nat) -> bool {
    &&& ind@.problem == problem
    &&& ind@.solution.len() == dim
}

/// Every member solves `problem` in dimension `dim`.
pub open spec fn pop_wf(pop: Seq<Individual>, problem: Problem, dim: nat) -> bool {
    forall|i: int| 0 <= i < pop.len() ==> #[trigger] ind_ok(pop[i], problem, dim)
}

/// Every member's cached fitness is a fresh evaluation of its own vector.
pub open spec fn pop_fresh<E: Fn(Problem, Vec<u64>) -> u64>(eval: E, pop: Seq<Individual>) -> bool {
    forall|i: int| 0 <= i < pop.len() ==> fitness_fresh(eval, #[trigger] pop[i]@)
}

/// Every coordinate of every member is a sampler output for `problem`:
/// the population-level domain invariant.  Construction and mutation only
/// ever place sampler outputs, and crossover only exchanges coordinates
/// between members, so the invariant survives every generation.
pub open spec fn pop_sampled<S: Fn(Problem) -> u64>(
    sample: S,
    problem: Problem,
    pop: Seq<Individual>,
) -> bool {
    forall|i: int|
        0 <= i < pop.len() ==> #[trigger] coords_sampled(sample, problem, pop[i]@.solution)
}

/// The fitness keys of a population, in population order.
pub open spec fn keys_of(pop: Seq<Individual>) -> Seq<u64> {
    pop.map_values(|ind: Individual| ind.fitness)
}

/// The position of the first minimal key: a later key displaces the
/// running minimum only when it is strictly smaller, so ties fall to the
/// earliest position.
pub open spec fn first_min_index(keys: Seq<u64>) -> int
    recommends
        keys.len() >= 1,
    decreases keys.len(),
{
    if keys.len() <= 1 {
        0
    } else {
        let m = first_min_index(keys.drop_last());
        if keys[keys.len() - 1] < keys[m] {
            keys.len() - 1
        } else {
            m
        }
    }
}

/// The first minimal position is in range, is minimal, and every earlier
/// position holds a strictly larger key.
pub proof fn lemma_first_min_index(keys: Seq<u64>)
    requires
        keys.len() >= 1,
    ensures
        0 <= first_min_index(keys) < keys.len(),
        forall|i: int| 0 <= i < keys.len() ==> keys[first_min_index(keys)] <= #[trigger] keys[i],
        forall|i: int| 0 <= i < first_min_index(keys) ==> #[trigger] keys[i] > keys[
            first_min_index(keys)
        ],
    decreases keys.len(),
{
    if keys.len() > 1 {
        let prefix = keys.drop_last();
        lemma_first_min_index(prefix);
        assert(forall|i: int| 0 <= i < prefix.len() ==> prefix[i] == #[trigger] keys[i]);
    }
}

/// The fittest member of the population: the position of its minimal
/// fitness key, ties broken by population order.
pub fn best_index(population: &Vec<Individual>) -> (r: usize)
    requires
        population@.len() >= 1,
    ensures
        r < population@.len(),
        r == first_min_index(keys_of(population@)),
{
    let mut best: usize = 0;
    let mut i: usize = 1;
    while i < population.len()
        invariant
            1 <= i <= population@.len(),
            best < i,
            best == first_min_index(keys_of(population@).take(i as int)),
        decreases population@.len() - i,
    {
        proof {
            let k = keys_of(population@);
            assert(k.take(i + 1).drop_last() =~= k.take(i as int));
            assert(k.take(i + 1)[i as int] == population@[i as int].fitness);
        }
        if population[i].fitness < population[best].fitness {
            best = i;
        }
        i = i + 1;
    }
    proof {
        assert(keys_of(population@).take(population@.len() as int) =~= keys_of(population@));
    }
    best
}

/// The fitness keys that a sequence of draws picks out of the population.
pub open spec fn drawn_keys(pop: Seq<Individual>, draws: Seq<usize>) -> Seq<u64> {
    draws.map_values(|d: usize| pop[d as int].fitness)
}

/// Tournament selection over an explicit list of drawn positions: returns
/// a copy of the drawn member with minimal fitness, ties broken by draw
/// order — the first minimal draw wins.
pub fn select_by(population: &Vec<Individual>, draws: &Vec<usize>) -> (r: Individual)
    requires
        population@.len() >= 1,
        draws@.len() >= 1,
        forall|i: int| 0 <= i < draws@.len() ==> #[trigger] draws@[i] < population@.len(),
    ensures
        ({
            let w = first_min_index(drawn_keys(population@, draws@));
            &&& 0 <= w < draws@.len()
            &&& r@ == population@[draws@[w] as int]@
        }),
        exists|i: int| 0 <= i < population@.len() && r@ == #[trigger] population@[i]@,
{
    let mut wi: usize = 0;
    let mut i: usize = 1;
    while i < draws.len()
        invariant
            population@.len() >= 1,
            forall|j: int| 0 <= j < draws@.len() ==> #[trigger] draws@[j] < population@.len(),
            1 <= i <= draws@.len(),
            wi < i,
            wi == first_min_index(drawn_keys(population@, draws@).take(i as int)),
        decreases draws@.len() - i,
    {
        proof {
            let k = drawn_keys(population@, draws@);
            assert(k.take(i + 1).drop_last() =~= k.take(i as int));
            assert(k.take(i + 1)[i as int] == population@[draws@[i as int] as int].fitness);
        }
        if population[draws[i]].fitness < population[draws[wi]].fitness {
            wi = i;
        }
        i = i + 1;
    }
    proof {
        let k = drawn_keys(population@, draws@);
        assert(k.take(draws@.len() as int) =~= k);
        lemma_first_min_index(k);
    }
    population[draws[wi]].clone()
}

/// Tournament selection: draws `n` members independently and uniformly at
/// random, with replacement, and returns a copy of the fittest draw (first
/// minimal draw on ties).  The result is always a copy of some member.
pub fn select(population: &Vec<Individual>, n: usize, rng: &mut rand::rngs::StdRng) -> (r:
    Individual)
    requires
        population@.len() >= 1,
        n >= 1,
    ensures
        exists|i: int| 0 <= i < population@.len() && r@ == #[trigger] population@[i]@,
{
    let mut draws: Vec<usize> = Vec::new();
    while draws.len() < n
        invariant
            population@.len() >= 1,
            draws@.len() <= n,
            forall|j: int| 0 <= j < draws@.len() ==> #[trigger] draws@[j] < population@.len(),
        decreases n - draws.len(),
    {
        let d = rng_below(rng, population.len());
        draws.push(d);
    }
    select_by(population, &draws)
}

/// Law: a tournament whose draws cover every position of the population
/// selects the population's minimal fitness — with the full population in
/// the tournament, no draw order can return anything less fit.
pub proof fn lemma_tournament_covering_draws(pop: Seq<Individual>, draws: Seq<usize>)
    requires
        1 <= pop.len() <= usize::MAX,
        draws.len() >= 1,
        forall|i: int| 0 <= i < draws.len() ==> #[trigger] draws[i] < pop.len(),
        forall|j: usize| (j as int) < pop.len() ==> #[trigger] draws.contains(j),
    ensures
        ({
            let w = first_min_index(drawn_keys(pop, draws));
            pop[draws[w] as int].fitness == pop[first_min_index(keys_of(pop))].fitness
        }),
{
    let dk = drawn_keys(pop, draws);
    let k = keys_of(pop);
    let w = first_min_index(dk);
    let b = first_min_index(k);
    lemma_first_min_index(dk);
    lemma_first_min_index(k);
    assert(draws.contains(b as usize));
    let bi = choose|i: int| 0 <= i < draws.len() && draws[i] == b as usize;
    assert(draws[bi] as int == b);
    assert(dk[bi] == pop[draws[bi] as int].fitness);
    assert(dk[w] <= dk[bi]);
    assert(dk[w] == pop[draws[w] as int].fitness);
    assert(k[b] == pop[b].fitness);
    assert(k[draws[w] as int] == pop[draws[w] as int].fitness);
    assert(k[b] <= k[draws[w] as int]);
}

/// Law: when the population's fittest member is strictly fitter than every
/// other member, a covering tournament returns exactly that member,
/// whatever the draw order.
pub proof fn lemma_tournament_unique_fittest(pop: Seq<Individual>, draws: Seq<usize>)
    requires
        1 <= pop.len() <= usize::MAX,
        draws.len() >= 1,
        forall|i: int| 0 <= i < draws.len() ==> #[trigger] draws[i] < pop.len(),
        forall|j: usize| (j as int) < pop.len() ==> #[trigger] draws.contains(j),
        forall|j: int|
            0 <= j < pop.len() && j != first_min_index(keys_of(pop)) ==> #[trigger] pop[j].fitness
                > pop[first_min_index(keys_of(pop))].fitness,
    ensures
        draws[first_min_index(drawn_keys(pop, draws))] as int == first_min_index(keys_of(pop)),
{
    let dk = drawn_keys(pop, draws);
    let k = keys_of(pop);
    let w = first_min_index(dk);
    let b = first_min_index(k);
    lemma_tournament_covering_draws(pop, draws);
    lemma_first_min_index(dk);
    lemma_first_min_index(k);
    assert(pop[draws[w] as int].fitness == pop[b].fitness);
    if draws[w] as int != b {
        assert(pop[draws[w] as int].fitness > pop[b].fitness);
    }
}

/// Whether some listed slot names position `j`.
pub open spec fn slot_hit(slots: Seq<usize>, j: int) -> bool {
    exists|t: int| 0 <= t < slots.len() && (#[trigger] slots[t]) as int == j
}

/// Overwrites the offspring at every listed slot with a copy of the elite
/// individual, drawing nothing itself: the slots are handed in, so what
/// elitism does is stated exactly — listed slots bear the elite, all other
/// slots are untouched.  A slot listed twice is simply overwritten twice
/// with the same value.
pub fn apply_elitism(offspring: &mut Vec<Individual>, elite: &Individual, slots: &Vec<usize>)
    requires
        forall|i: int| 0 <= i < slots@.len() ==> #[trigger] slots@[i] < old(offspring)@.len(),
    ensures
        final(offspring)@.len() == old(offspring)@.len(),
        forall|j: int|
            0 <= j < final(offspring)@.len() ==> #[trigger] final(offspring)@[j]@ == (
            if slot_hit(slots@, j) {
                elite@
            } else {
                old(offspring)@[j]@
            }),
{
    let mut i: usize = 0;
    while i < slots.len()
        invariant
            forall|t: int| 0 <= t < slots@.len() ==> #[trigger] slots@[t] < old(offspring)@.len(),
            i <= slots@.len(),
            offspring@.len() == old(offspring)@.len(),
            forall|j: int|
                0 <= j < offspring@.len() ==> #[trigger] offspring@[j]@ == (
                if slot_hit(slots@.take(i as int), j) {
                    elite@
                } else {
                    old(offspring)@[j]@
                }),
        decreases slots@.len() - i,
    {
        let s = slots[i];
        let ghost prev = offspring@;
        let copy = elite.clone();
        let ghost copied = copy;
        offspring.set(s, copy);
        proof {
            let pre = slots@.take(i as int);
            let post_seq = slots@.take(i as int + 1);
            assert(offspring@ == prev.update(s as int, copied));
            assert(post_seq[i as int] == s);
            assert(slot_hit(post_seq, s as int));
            assert forall|j: int| slot_hit(post_seq, j) implies (slot_hit(pre, j) || j == s as int) by {
                let t = choose|t: int| 0 <= t < post_seq.len() && post_seq[t] as int == j;
                if t < i as int {
                    assert(pre[t] == post_seq[t]);
                }
            }
            assert forall|j: int| slot_hit(pre, j) implies slot_hit(post_seq, j) by {
                let t = choose|t: int| 0 <= t < pre.len() && pre[t] as int == j;
                assert(post_seq[t] == pre[t]);
            }
            assert forall|j: int| 0 <= j < offspring@.len() implies #[trigger] offspring@[j]@ == (
                if slot_hit(post_seq, j) {
                    elite@
                } else {
                    old(offspring)@[j]@
                }) by {
                if j == s as int {
                    assert(offspring@[j] == copied);
                } else {
                    assert(offspring@[j] == prev[j]);
                }
            }
        }
        i = i + 1;
    }
    proof {
        assert(slots@.take(slots@.len() as int) =~= slots@);
    }
}

/// The population positions that carry a given fitness key.
pub open spec fn positions_with_fitness(pop: Seq<Individual>, fitness: u64) -> Set<int> {
    Set::new(|j: int| 0 <= j < pop.len() && pop[j].fitness == fitness)
}

/// Law: after elitist replacement through `k` distinct slots, at least `k`
/// positions of the population bear the elite's fitness.  Slots drawn with
/// replacement may collide; only distinct slots are counted here.
pub proof fn lemma_elitism_count(pop: Seq<Individual>, slots: Seq<usize>, elite: IndividualView)
    requires
        pop.len() <= usize::MAX,
        slots.no_duplicates(),
        forall|i: int| 0 <= i < slots.len() ==> #[trigger] slots[i] < pop.len(),
        forall|i: int| 0 <= i < slots.len() ==> #[trigger] pop[slots[i] as int]@ == elite,
    ensures
        positions_with_fitness(pop, elite.fitness).len() >= slots.len(),
{
    let positions = positions_with_fitness(pop, elite.fitness);
    let slot_positions = slots.map_values(|s: usize| s as int);
    assert(slot_positions.no_duplicates()) by {
        assert forall|i: int, j: int|
            0 <= i < slot_positions.len() && 0 <= j < slot_positions.len() && i != j implies
            slot_positions[i] != slot_positions[j] by {
            assert(slots[i] != slots[j]);
        }
    }
    slot_positions.unique_seq_to_set();
    let slot_set = slot_positions.to_set();
    assert(slot_set.len() == slots.len());
    assert(slot_set.subset_of(positions)) by {
        assert forall|p: int| slot_set.contains(p) implies positions.contains(p) by {
            let t = choose|t: int|
                0 <= t < slot_positions.len() && slot_positions[t] == p;
            assert(pop[slots[t] as int]@ == elite);
        }
    }
    lemma_int_range(0, pop.len() as int);
    lemma_len_subset(positions, set_int_range(0, pop.len() as int));
    lemma_len_subset(slot_set, positions);
}

/// Law: what [`apply_elitism`] leaves behind bears the elite's fitness in
/// at least as many positions as there are distinct slots — overwriting
/// `k` distinct slots with the prior best leaves at least `k` members
/// carrying its fitness.
pub proof fn lemma_elitism_positions(
    before: Seq<Individual>,
    after: Seq<Individual>,
    slots: Seq<usize>,
    elite: IndividualView,
)
    requires
        after.len() == before.len(),
        before.len() <= usize::MAX,
        slots.no_duplicates(),
        forall|i: int| 0 <= i < slots.len() ==> #[trigger] slots[i] < before.len(),
        forall|j: int|
            0 <= j < after.len() ==> #[trigger] after[j]@ == (if slot_hit(slots, j) {
                elite
            } else {
                before[j]@
            }),
    ensures
        positions_with_fitness(after, elite.fitness).len() >= slots.len(),
{
    assert forall|i: int| 0 <= i < slots.len() implies #[trigger] after[slots[i] as int]@
        == elite by {
        assert(slot_hit(slots, slots[i] as int));
    }
    lemma_elitism_count(after, slots, elite);
}

/// Produces the next generation from the current population: for each of
/// `population / 2` pairs, two parents are tournament-selected, each may
/// mutate, the pair always goes through crossover (which refreshes both
/// fitness caches), and both offspring are appended; then `elitism` slots,
/// drawn uniformly with replacement, are overwritten with a copy of the
/// current generation's fittest member.
///
/// The offspring population has exactly the size of its parent population;
/// every member solves the same problem in the same dimension, every one
/// of its coordinates is a sampler output, and its fitness cache is fresh;
/// and with any elitism at all the prior best survives.
pub fn next_generation<S: Fn(Problem) -> u64, E: Fn(Problem, Vec<u64>) -> u64>(
    population: &Vec<Individual>,
    problem: Problem,
    params: Parameters,
    rng: &mut rand::rngs::StdRng,
    sample: &S,
    eval: &E,
) -> (next: Vec<Individual>)
    requires
        params.well_formed(),
        population@.len() == params.population,
        pop_wf(population@, problem, params.dimension as nat),
        pop_fresh(*eval, population@),
        pop_sampled(*sample, problem, population@),
        sampler_ok(*sample),
        evaluator_ok(*eval),
    ensures
        next@.len() == population@.len(),
        pop_wf(next@, problem, params.dimension as nat),
        pop_fresh(*eval, next@),
        pop_sampled(*sample, problem, next@),
        params.elitism >= 1 ==> exists|j: int|
            0 <= j < next@.len() && #[trigger] next@[j]@ == population@[first_min_index(
                keys_of(population@),
            )]@,
{
    let mut offspring: Vec<Individual> = Vec::new();
    let half = population.len() / 2;
    let mut pair: usize = 0;
    while pair < half
        invariant
            params.well_formed(),
            population@.len() == params.population,
            pop_wf(population@, problem, params.dimension as nat),
            pop_fresh(*eval, population@),
            pop_sampled(*sample, problem, population@),
            sampler_ok(*sample),
            evaluator_ok(*eval),
            half == population@.len() / 2,
            pair <= half,
            offspring@.len() == 2 * pair,
            pop_wf(offspring@, problem, params.dimension as nat),
            pop_fresh(*eval, offspring@),
            pop_sampled(*sample, problem, offspring@),
        decreases half - pair,
    {
        let mut x = select(population, params.selection, rng);
        let mut y = select(population, params.selection, rng);
        proof {
            let dim = params.dimension as nat;
            let xi = choose|i: int| 0 <= i < population@.len() && x@ == population@[i]@;
            assert(ind_ok(population@[xi], problem, dim));
            assert(coords_sampled(*sample, problem, population@[xi]@.solution));
            let yi = choose|i: int| 0 <= i < population@.len() && y@ == population@[i]@;
            assert(ind_ok(population@[yi], problem, dim));
            assert(coords_sampled(*sample, problem, population@[yi]@.solution));
        }
        x.mutate(params.mutation, rng, sample);
        y.mutate(params.mutation, rng, sample);
        let ghost mid_x = x@;
        let ghost mid_y = y@;
        proof {
            assert(coords_sampled(*sample, problem, mid_x.solution));
            assert(coords_sampled(*sample, problem, mid_y.solution));
        }
        Individual::crossover(&mut x, &mut y, params.crossover, rng, eval);
        proof {
            let dim = params.dimension as nat;
            assert(ind_ok(x, problem, dim));
            assert(ind_ok(y, problem, dim));
            assert(fitness_fresh(*eval, x@));
            assert(fitness_fresh(*eval, y@));
            let (start, n) = choose|start: int, n: int|
                swap_exchanges(mid_x.solution, mid_y.solution, x@.solution, y@.solution, start, n);
            lemma_swap_preserves_sampled(
                *sample,
                problem,
                mid_x.solution,
                mid_y.solution,
                x@.solution,
                y@.solution,
                start,
                n,
            );
            assert(coords_sampled(*sample, problem, x@.solution));
            assert(coords_sampled(*sample, problem, y@.solution));
        }
        offspring.push(x);
        offspring.push(y);
        pair = pair + 1;
    }
    let b = best_index(population);
    let elite = population[b].clone();
    let mut slots: Vec<usize> = Vec::new();
    while slots.len() < params.elitism
        invariant
            offspring@.len() >= 2,
            slots@.len() <= params.elitism,
            forall|t: int| 0 <= t < slots@.len() ==> #[trigger] slots@[t] < offspring@.len(),
        decreases params.elitism - slots.len(),
    {
        let s = rng_below(rng, offspring.len());
        slots.push(s);
    }
    let ghost bred = offspring@;
    apply_elitism(&mut offspring, &elite, &slots);
    proof {
        let dim = params.dimension as nat;
        lemma_first_min_index(keys_of(population@));
        assert(ind_ok(population@[b as int], problem, dim));
        assert(fitness_fresh(*eval, population@[b as int]@));
        assert(coords_sampled(*sample, problem, population@[b as int]@.solution));
        assert forall|j: int| 0 <= j < offspring@.len() implies #[trigger] ind_ok(
            offspring@[j],
            problem,
            dim,
        ) by {
            if !slot_hit(slots@, j) {
                assert(offspring@[j]@ == bred[j]@);
                assert(ind_ok(bred[j], problem, dim));
            }
        }
        assert forall|j: int| 0 <= j < offspring@.len() implies fitness_fresh(
            *eval,
            #[trigger] offspring@[j]@,
        ) by {
            if !slot_hit(slots@, j) {
                assert(offspring@[j]@ == bred[j]@);
                assert(fitness_fresh(*eval, bred[j]@));
            }
        }
        assert forall|j: int| 0 <= j < offspring@.len() implies #[trigger] coords_sampled(
            *sample,
            problem,
            offspring@[j]@.solution,
        ) by {
            if !slot_hit(slots@, j) {
                assert(offspring@[j]@ == bred[j]@);
                assert(coords_sampled(*sample, problem, bred[j]@.solution));
            } else {
                assert(offspring@[j]@ == elite@);
            }
        }
        if params.elitism >= 1 {
            let j = slots@[0] as int;
            assert(slot_hit(slots@, j));
            assert(offspring@[j]@ == elite@);
        }
    }
    offspring
}

/// Whether the progress sink accepts every report.
pub open spec fn progress_ok<P: Fn(usize, Individual)>(progress: P) -> bool {
    forall|gen: usize, ind: Individual| #[trigger] call_requires(progress, (gen, ind))
}

/// What one terminated search guarantees: the result carries the problem
/// and configuration it ran under; the best individual solves that problem
/// in the configured dimension, every one of its coordinates is a sampler
/// output (the domain invariant), and its fitness is freshly evaluated; a
/// generation index below the bound means convergence (fitness strictly
/// under the tolerance), and an index at a positive bound means exhaustion
/// (the fittest member still at or above the tolerance).
pub open spec fn search_post<S: Fn(Problem) -> u64, E: Fn(Problem, Vec<u64>) -> u64>(
    r: Results,
    problem: Problem,
    params: Parameters,
    sample: S,
    eval: E,
) -> bool {
    &&& r.problem == problem
    &&& r.parameters == params
    &&& r.iterations <= params.iterations
    &&& r.individual@.problem == problem
    &&& r.individual@.solution.len() == params.dimension
    &&& coords_sampled(sample, problem, r.individual@.solution)
    &&& fitness_fresh(eval, r.individual@)
    &&& (r.iterations < params.iterations ==> r.individual@.fitness < params.tolerance)
    &&& (r.iterations == params.iterations && params.iterations >= 1
        ==> r.individual@.fitness >= params.tolerance)
}

/// Searches for convergence to the configured tolerance for `problem`
/// across the n-dimensional hypercube, evolving a population of
/// individuals through up to `iterations` generations.
///
/// Each generation the population is wholly replaced by its offspring;
/// then its fittest member (first minimal on ties) is examined, and the
/// search converges as soon as that member's fitness falls below the
/// tolerance.  With a positive verbosity, every 10th generation is
/// reported to the progress sink; the sink receives a copy and cannot
/// touch the search.  A bound of zero generations exhausts immediately,
/// reporting the fittest member of the freshly sampled population at
/// generation index zero.
pub fn search<
    S: Fn(Problem) -> u64,
    E: Fn(Problem, Vec<u64>) -> u64,
    P: Fn(usize, Individual),
>(
    problem: Problem,
    params: Parameters,
    rng: &mut rand::rngs::StdRng,
    sample: &S,
    eval: &E,
    progress: &P,
) -> (r: Results)
    requires
        params.well_formed(),
        sampler_ok(*sample),
        evaluator_ok(*eval),
        progress_ok(*progress),
    ensures
        search_post(r, problem, params, *sample, *eval),
{
    let mut population: Vec<Individual> = Vec::new();
    while population.len() < params.population
        invariant
            params.dimension >= 1,
            population@.len() <= params.population,
            pop_wf(population@, problem, params.dimension as nat),
            pop_fresh(*eval, population@),
            pop_sampled(*sample, problem, population@),
            sampler_ok(*sample),
            evaluator_ok(*eval),
        decreases params.population - population.len(),
    {
        let ind = Individual::new(problem, params.dimension, sample, eval);
        proof {
            assert(ind_ok(ind, problem, params.dimension as nat));
            assert(fitness_fresh(*eval, ind@));
            assert(coords_sampled(*sample, problem, ind@.solution));
        }
        population.push(ind);
    }
    let mut i: usize = 0;
    while i < params.iterations
        invariant
            params.well_formed(),
            i <= params.iterations,
            population@.len() == params.population,
            pop_wf(population@, problem, params.dimension as nat),
            pop_fresh(*eval, population@),
            pop_sampled(*sample, problem, population@),
            sampler_ok(*sample),
            evaluator_ok(*eval),
            progress_ok(*progress),
            i >= 1 ==> population@[first_min_index(keys_of(population@))].fitness
                >= params.tolerance,
        decreases params.iterations - i,
    {
        let next = next_generation(&population, problem, params, rng, sample, eval);
        population = next;
        let b = best_index(&population);
        proof {
            lemma_first_min_index(keys_of(population@));
            assert(ind_ok(population@[b as int], problem, params.dimension as nat));
            assert(fitness_fresh(*eval, population@[b as int]@));
            assert(coords_sampled(*sample, problem, population@[b as int]@.solution));
        }
        if population[b].fitness < params.tolerance {
            let individual = population[b].clone();
            return Results { problem, parameters: params, individual, iterations: i };
        }
        if params.verbosity > 0 && i % 10 == 0 {
            progress(i, population[b].clone());
        }
        i = i + 1;
    }
    let b = best_index(&population);
    proof {
        lemma_first_min_index(keys_of(population@));
        assert(ind_ok(population@[b as int], problem, params.dimension as nat));
        assert(fitness_fresh(*eval, population@[b as int]@));
        assert(coords_sampled(*sample, problem, population@[b as int]@.solution));
    }
    let individual = population[b].clone();
    Results { problem, parameters: params, individual, iterations: params.iterations }
}

/// Runs one independent search per requested problem, in the order the
/// problems are given, and returns exactly one result per problem, in that
/// same order.  Each search owns its own random source, derived from the
/// base seed and the problem's position, so no random state is shared
/// between searches.
pub fn run_all<
    S: Fn(Problem) -> u64,
    E: Fn(Problem, Vec<u64>) -> u64,
    P: Fn(usize, Individual),
>(
    problems: &Vec<Problem>,
    params: Parameters,
    base_seed: u64,
    sample: &S,
    eval: &E,
    progress: &P,
) -> (results: Vec<Results>)
    requires
        params.well_formed(),
        sampler_ok(*sample),
        evaluator_ok(*eval),
        progress_ok(*progress),
    ensures
        results@.len() == problems@.len(),
        forall|i: int|
            0 <= i < results@.len() ==> search_post(
                #[trigger] results@[i],
                problems@[i],
                params,
                *sample,
                *eval,
            ),
{
    let mut results: Vec<Results> = Vec::new();
    let mut i: usize = 0;
    while i < problems.len()
        invariant
            params.well_formed(),
            sampler_ok(*sample),
            evaluator_ok(*eval),
            progress_ok(*progress),
            i <= problems@.len(),
            results@.len() == i,
            forall|j: int|
                0 <= j < results@.len() ==> search_post(
                    #[trigger] results@[j],
                    problems@[j],
                    params,
                    *sample,
                    *eval,
                ),
        decreases problems@.len() - i,
    {
        let mut search_rng = rng_from_seed(base_seed.wrapping_add(i as u64));
        let r = search(problems[i], params, &mut search_rng, sample, eval, progress);
        results.push(r);
        i = i + 1;
    }
    results
}

} // verus!
