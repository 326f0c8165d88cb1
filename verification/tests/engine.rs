//! Behavioral tests for the search engine: operators, elitism, selection,
//! configuration checking, and the driver.

use std::cell::RefCell;
use std::rc::Rc;

use rand::rngs::StdRng;
use rand::SeedableRng;

use genalg::algorithm::{apply_elitism, best_index, run_all, search, select, select_by};
use genalg::individual::Individual;
use genalg::{ConfigError, Parameters, Problem, PROB_ONE};

/// Order key of a finite fitness value: strictly monotone, so a smaller key
/// means a smaller (better) fitness.  NaN is a fatal programming error.
fn key_of(f: f64) -> u64 {
    assert!(!f.is_nan(), "fitness must never be NaN");
    let b = f.to_bits();
    if b & 0x8000_0000_0000_0000 != 0 {
        !b
    } else {
        b | 0x8000_0000_0000_0000
    }
}

fn key_to_f(k: u64) -> f64 {
    if k & 0x8000_0000_0000_0000 != 0 {
        f64::from_bits(k & 0x7FFF_FFFF_FFFF_FFFF)
    } else {
        f64::from_bits(!k)
    }
}

fn domain(p: Problem) -> (f64, f64) {
    match p {
        Problem::Ackley => (-30.0, 30.0),
        Problem::Griewangk => (-600.0, 600.0),
        Problem::Rastrigin => (-5.12, 5.12),
        Problem::Rosenbrock => (-2.048, 2.048),
        Problem::Schwefel => (-512.03, 511.97),
        Problem::Sphere => (-5.12, 5.12),
    }
}

fn fitness(p: Problem, x: &[f64]) -> f64 {
    let n = x.len() as f64;
    match p {
        Problem::Ackley => {
            20.0 + std::f64::consts::E
                - 20.0
                    * (-0.2 * (n.recip() * x.iter().fold(0.0, |s, v| s + v.powi(2))).sqrt()).exp()
                - (n.recip()
                    * x.iter()
                        .fold(0.0, |s, v| s + (2.0 * std::f64::consts::PI * v).cos()))
                .exp()
        }
        Problem::Griewangk => {
            1.0 + x.iter().fold(0.0, |s, v| s + v.powi(2) / 4000.0)
                - x.iter()
                    .enumerate()
                    .fold(1.0, |pr, (i, v)| pr * (v / ((i + 1) as f64).sqrt()).cos())
        }
        Problem::Rastrigin => {
            10.0 * n
                + x.iter().fold(0.0, |s, v| {
                    s + v.powi(2) - 10.0 * (2.0 * std::f64::consts::PI * v).cos()
                })
        }
        Problem::Rosenbrock => x
            .iter()
            .skip(1)
            .zip(x)
            .fold(0.0, |s, (nx, v)| {
                s + 100.0 * (nx - v.powi(2)).powi(2) + (v - 1.0).powi(2)
            }),
        Problem::Schwefel => {
            418.9829 * n + x.iter().fold(0.0, |s, v| s + v * v.abs().sqrt().sin())
        }
        Problem::Sphere => x.iter().fold(0.0, |s, v| s + v.powi(2)),
    }
}

fn decode(v: &[u64]) -> Vec<f64> {
    v.iter().map(|&b| f64::from_bits(b)).collect()
}

fn encode(v: &[f64]) -> Vec<u64> {
    v.iter().map(|f| f.to_bits()).collect()
}

fn eval_words(p: Problem, v: Vec<u64>) -> u64 {
    key_of(fitness(p, &decode(&v)))
}

fn make_sampler(seed: u64) -> impl Fn(Problem) -> u64 {
    let rng = RefCell::new(StdRng::seed_from_u64(seed));
    move |p: Problem| {
        let (lo, hi) = domain(p);
        let x: f64 = rand::RngExt::random_range(&mut *rng.borrow_mut(), lo..hi);
        x.to_bits()
    }
}

fn no_progress(_gen: usize, _best: Individual) {}

fn base_params() -> Parameters {
    Parameters {
        tolerance: key_of(0.01),
        dimension: 2,
        population: 50,
        iterations: 500,
        selection: 4,
        elitism: 2,
        mutation: prob(0.8),
        crossover: prob(0.8),
        verbosity: 0,
    }
}

fn prob(p: f64) -> u64 {
    let scaled = (p * 4294967296.0).round() as u64;
    scaled.min(PROB_ONE)
}

fn individual_from(p: Problem, xs: &[f64]) -> Individual {
    Individual {
        solution: encode(xs),
        fitness: key_of(fitness(p, xs)),
        problem: p,
    }
}

#[test]
fn key_encoding_is_monotone() {
    let values = [
        -1.0e300, -512.03, -420.9687, -1.5, -0.0, 0.0, 1e-12, 0.01, 1.0, 420.9687, 1.0e300,
    ];
    for w in values.windows(2) {
        assert!(key_of(w[0]) <= key_of(w[1]));
    }
    for v in values {
        assert_eq!(key_to_f(key_of(v)), v);
    }
    assert!(key_of(-0.5) < key_of(0.0));
    assert!(key_of(0.0) < key_of(0.5));
}

#[test]
fn validate_accepts_good_configuration() {
    assert_eq!(base_params().validate(), Ok(()));
}

#[test]
fn validate_reports_each_fault() {
    let good = base_params();
    let cases: Vec<(Parameters, ConfigError)> = vec![
        (Parameters { dimension: 0, ..good }, ConfigError::ZeroDimension),
        (Parameters { population: 1, ..good }, ConfigError::PopulationTooSmall),
        (Parameters { population: 51, ..good }, ConfigError::OddPopulation),
        (Parameters { iterations: 0, ..good }, ConfigError::ZeroIterations),
        (Parameters { selection: 0, ..good }, ConfigError::ZeroSelection),
        (
            Parameters { elitism: 51, ..good },
            ConfigError::ElitismExceedsPopulation,
        ),
        (
            Parameters { mutation: PROB_ONE + 1, ..good },
            ConfigError::MutationOutOfRange,
        ),
        (
            Parameters { crossover: PROB_ONE + 1, ..good },
            ConfigError::CrossoverOutOfRange,
        ),
    ];
    for (bad, expected) in cases {
        assert_eq!(bad.validate(), Err(expected));
    }
}

#[test]
fn new_individual_samples_domain_and_caches_fitness() {
    let sampler = make_sampler(7);
    let ind = Individual::new(Problem::Rastrigin, 6, &sampler, &eval_words);
    assert_eq!(ind.solution.len(), 6);
    assert_eq!(ind.problem, Problem::Rastrigin);
    let xs = decode(&ind.solution);
    let (lo, hi) = domain(Problem::Rastrigin);
    for x in &xs {
        assert!(lo <= *x && *x < hi);
    }
    assert_eq!(ind.fitness, key_of(fitness(Problem::Rastrigin, &xs)));
}

#[test]
fn mutate_changes_at_most_one_coordinate_within_domain() {
    // A scenario for the mutation law: the vector keeps its length, at most
    // one coordinate moves, and the new value lies in the problem's domain.
    let sampler = make_sampler(11);
    let mut rng = StdRng::seed_from_u64(42);
    for _ in 0..50 {
        let before = [1.0, -2.0, 3.0, 0.25, -0.125];
        let mut ind = individual_from(Problem::Sphere, &before);
        ind.mutate(PROB_ONE, &mut rng, &sampler);
        let after = decode(&ind.solution);
        assert_eq!(after.len(), before.len());
        let changed: Vec<usize> = (0..before.len()).filter(|&i| after[i] != before[i]).collect();
        assert!(changed.len() <= 1);
        let (lo, hi) = domain(Problem::Sphere);
        for &i in &changed {
            assert!(lo <= after[i] && after[i] < hi);
        }
    }
}

#[test]
fn mutate_with_full_chance_resamples_exactly_one_coordinate() {
    // A sampler that returns a sentinel absent from the vector makes the
    // resample observable: at full chance, exactly one coordinate must
    // carry the sentinel afterwards.
    let sentinel: f64 = 4.25;
    let sampler = move |_p: Problem| sentinel.to_bits();
    let mut rng = StdRng::seed_from_u64(77);
    for _ in 0..20 {
        let before = [1.0, -2.0, 3.0];
        let mut ind = individual_from(Problem::Sphere, &before);
        ind.mutate(PROB_ONE, &mut rng, &sampler);
        let after = decode(&ind.solution);
        let hits = after.iter().filter(|&&v| v == sentinel).count();
        assert_eq!(hits, 1);
        assert_eq!(after.iter().filter(|&&v| v != sentinel).count(), 2);
    }
}

#[test]
fn mutate_with_zero_chance_is_identity() {
    let sampler = make_sampler(13);
    let mut rng = StdRng::seed_from_u64(99);
    let before = [0.5, -0.5, 0.25];
    let mut ind = individual_from(Problem::Sphere, &before);
    ind.mutate(0, &mut rng, &sampler);
    assert_eq!(decode(&ind.solution), before);
}

#[test]
fn crossover_refreshes_fitness_exactly() {
    // A scenario for the crossover law: both operands' cached fitness equals
    // a fresh recomputation on their possibly swapped vectors.
    let mut rng = StdRng::seed_from_u64(5);
    for _ in 0..30 {
        let mut x = individual_from(Problem::Rastrigin, &[1.0, -2.0, 3.0, -4.0]);
        let mut y = individual_from(Problem::Rastrigin, &[0.1, 0.2, 0.3, 0.4]);
        Individual::crossover(&mut x, &mut y, prob(0.8), &mut rng, &eval_words);
        assert_eq!(x.fitness, key_of(fitness(Problem::Rastrigin, &decode(&x.solution))));
        assert_eq!(y.fitness, key_of(fitness(Problem::Rastrigin, &decode(&y.solution))));
    }
}

#[test]
fn crossover_swaps_a_window_pairwise() {
    // Whatever window was chosen, at every position the pair of coordinates
    // is either kept or exchanged; lengths never change.
    let mut rng = StdRng::seed_from_u64(17);
    for _ in 0..50 {
        let a = [1.0, 2.0, 3.0, 4.0, 5.0];
        let b = [-1.0, -2.0, -3.0, -4.0, -5.0];
        let mut x = individual_from(Problem::Sphere, &a);
        let mut y = individual_from(Problem::Sphere, &b);
        Individual::crossover(&mut x, &mut y, PROB_ONE, &mut rng, &eval_words);
        let xa = decode(&x.solution);
        let ya = decode(&y.solution);
        assert_eq!(xa.len(), 5);
        assert_eq!(ya.len(), 5);
        for k in 0..5 {
            let kept = xa[k] == a[k] && ya[k] == b[k];
            let swapped = xa[k] == b[k] && ya[k] == a[k];
            assert!(kept || swapped);
        }
    }
}

#[test]
fn crossover_with_zero_chance_keeps_vectors() {
    let mut rng = StdRng::seed_from_u64(23);
    let a = [1.0, 2.0, 3.0];
    let b = [4.0, 5.0, 6.0];
    let mut x = individual_from(Problem::Sphere, &a);
    let mut y = individual_from(Problem::Sphere, &b);
    // Poison the caches: crossover must refresh them even without a swap.
    x.fitness = 0;
    y.fitness = 0;
    Individual::crossover(&mut x, &mut y, 0, &mut rng, &eval_words);
    assert_eq!(decode(&x.solution), a);
    assert_eq!(decode(&y.solution), b);
    assert_eq!(x.fitness, key_of(fitness(Problem::Sphere, &a)));
    assert_eq!(y.fitness, key_of(fitness(Problem::Sphere, &b)));
}

#[test]
fn best_index_breaks_ties_by_population_order() {
    let pop = vec![
        individual_from(Problem::Sphere, &[2.0, 0.0]),
        individual_from(Problem::Sphere, &[1.0, 0.0]),
        individual_from(Problem::Sphere, &[0.0, 1.0]),
        individual_from(Problem::Sphere, &[1.0, 0.0]),
    ];
    // Positions 2 holds fitness 1; positions 1 and 3 also hold fitness 1.
    assert_eq!(pop[1].fitness, pop[2].fitness);
    assert_eq!(best_index(&pop), 1);
}

#[test]
fn select_by_returns_first_minimal_draw() {
    let pop = vec![
        individual_from(Problem::Sphere, &[3.0]),
        individual_from(Problem::Sphere, &[-1.0]),
        individual_from(Problem::Sphere, &[2.0]),
        individual_from(Problem::Sphere, &[1.0]),
    ];
    // Draw order decides ties: positions 3 and 1 carry equal fitness but
    // distinct solutions, and position 3 is drawn first.
    assert_eq!(pop[1].fitness, pop[3].fitness);
    let winner = select_by(&pop, &vec![2, 3, 1, 0]);
    assert_eq!(winner.solution, pop[3].solution);
    assert_ne!(winner.solution, pop[1].solution);
    assert_eq!(winner.fitness, pop[3].fitness);
}

#[test]
fn full_tournament_returns_the_single_fittest() {
    // A scenario for the tournament law: draws covering the population
    // return the unique fittest member, in any draw order.
    let pop = vec![
        individual_from(Problem::Sphere, &[3.0]),
        individual_from(Problem::Sphere, &[0.5]),
        individual_from(Problem::Sphere, &[2.0]),
        individual_from(Problem::Sphere, &[1.0]),
    ];
    for draws in [vec![0, 1, 2, 3], vec![3, 2, 1, 0], vec![2, 0, 3, 1]] {
        let winner = select_by(&pop, &draws);
        assert_eq!(winner.solution, pop[1].solution);
    }
}

#[test]
fn select_returns_a_member() {
    let pop = vec![
        individual_from(Problem::Sphere, &[3.0]),
        individual_from(Problem::Sphere, &[0.5]),
        individual_from(Problem::Sphere, &[2.0]),
    ];
    let mut rng = StdRng::seed_from_u64(3);
    for _ in 0..20 {
        let chosen = select(&pop, 2, &mut rng);
        assert!(pop.iter().any(|m| m.solution == chosen.solution && m.fitness == chosen.fitness));
    }
}

#[test]
fn elitism_overwrites_exactly_the_listed_slots() {
    // A scenario for the elitism law: with two distinct slots, at least two
    // positions bear the elite's fitness, and unlisted slots are untouched.
    let mut offspring = vec![
        individual_from(Problem::Sphere, &[5.0]),
        individual_from(Problem::Sphere, &[6.0]),
        individual_from(Problem::Sphere, &[7.0]),
        individual_from(Problem::Sphere, &[8.0]),
    ];
    let elite = individual_from(Problem::Sphere, &[0.1]);
    let untouched = offspring[1].clone();
    apply_elitism(&mut offspring, &elite, &vec![0, 2]);
    assert_eq!(offspring.len(), 4);
    assert_eq!(offspring[0].fitness, elite.fitness);
    assert_eq!(offspring[2].fitness, elite.fitness);
    assert_eq!(offspring[0].solution, elite.solution);
    assert_eq!(offspring[1].solution, untouched.solution);
    let bearing = offspring.iter().filter(|m| m.fitness == elite.fitness).count();
    assert!(bearing >= 2);
}

#[test]
fn zero_iterations_returns_exhausted_best_of_initial_population() {
    // The evaluator records every key it hands out; with zero generations
    // the result must be the best of the freshly sampled population at
    // generation index zero.
    let log: Rc<RefCell<Vec<u64>>> = Rc::new(RefCell::new(Vec::new()));
    let log_in = Rc::clone(&log);
    let eval = move |p: Problem, v: Vec<u64>| {
        let k = eval_words(p, v);
        log_in.borrow_mut().push(k);
        k
    };
    let sampler = make_sampler(31);
    let mut rng = StdRng::seed_from_u64(32);
    let params = Parameters { iterations: 0, ..base_params() };
    let r = search(Problem::Sphere, params, &mut rng, &sampler, &eval, &no_progress);
    assert_eq!(r.iterations, 0);
    assert_eq!(r.problem, Problem::Sphere);
    let keys = log.borrow();
    assert_eq!(keys.len(), 50);
    assert_eq!(r.individual.fitness, *keys.iter().min().unwrap());
}

#[test]
fn population_size_is_invariant_across_generations() {
    // A scenario for the size-invariance law: the engine proves it for each
    // transition; here a short run must report a correctly sized result
    // population through its best individual's dimension.
    let sampler = make_sampler(41);
    let mut rng = StdRng::seed_from_u64(43);
    let params = Parameters { iterations: 3, tolerance: key_of(-1.0), ..base_params() };
    let r = search(Problem::Rastrigin, params, &mut rng, &sampler, &eval_words, &no_progress);
    assert_eq!(r.iterations, 3);
    assert_eq!(r.individual.solution.len(), 2);
}

#[test]
fn driver_returns_one_tagged_result_per_problem() {
    // The driver law: one result per requested problem, in request order,
    // each tagged with its own problem.
    let problems = vec![
        Problem::Sphere,
        Problem::Rastrigin,
        Problem::Sphere,
        Problem::Griewangk,
    ];
    let sampler = make_sampler(51);
    let params = Parameters { iterations: 2, tolerance: key_of(-1.0), ..base_params() };
    let results = run_all(&problems, params, 7, &sampler, &eval_words, &no_progress);
    assert_eq!(results.len(), 4);
    for (i, r) in results.iter().enumerate() {
        assert_eq!(r.problem, problems[i]);
        assert_eq!(r.parameters, params);
        assert_eq!(r.iterations, 2);
    }
}

#[test]
fn individuals_order_by_fitness_alone() {
    let a = individual_from(Problem::Sphere, &[1.0, 0.0]);
    let b = individual_from(Problem::Sphere, &[0.0, 1.0]);
    let c = individual_from(Problem::Sphere, &[2.0, 0.0]);
    assert!(a == b);
    assert!(a < c);
    assert!(c > b);
    assert_eq!(a.partial_cmp(&b), Some(std::cmp::Ordering::Equal));
    assert_eq!(a.partial_cmp(&c), Some(std::cmp::Ordering::Less));
}
