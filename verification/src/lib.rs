//! A generational genetic algorithm for real-valued benchmark problems.
//!
//! The engine evolves a fixed-size population of candidate solutions by
//! tournament selection, jump mutation, two-point crossover with wraparound,
//! and elitist replacement, until the best fitness falls below a tolerance
//! or a generation bound is reached.
//!
//! Fitness values and solution coordinates are carried as opaque 64-bit
//! words: a coordinate is the bit pattern of a real number, and a fitness is
//! an order key (a strictly monotone image of the real fitness, so a smaller
//! key always means a fitter individual).  The caller supplies the fitness
//! evaluator and the domain sampler as functions over these words; every
//! decision the engine takes — who is selected, what is swapped, when the
//! search stops — is made here and verified.

use vstd::prelude::*;

pub mod individual;
pub mod rng;
pub mod algorithm;

verus! {

/// The closed set of benchmark problems the engine can optimize.
///
/// Each variant stands for one fitness function on real vectors together
/// with a sampling domain; both live with the caller, which hands them to
/// the engine as an evaluator and a sampler over coordinate bit patterns.
#[derive(Clone, Copy, PartialEq, Eq, Structural, Debug)]
pub enum Problem {
    Ackley,
    Griewangk,
    Rastrigin,
    Rosenbrock,
    Schwefel,
    Sphere,
}

/// A probability equal to one, in the engine's fixed-point scale: chances
/// are given as a numerator over 2^32, so 0 never fires, `PROB_ONE` always
/// fires, and values in between fire with probability `numerator / 2^32`.
pub const PROB_ONE: u64 = 0x1_0000_0000;

/// The resolved configuration of one search, read-only to the engine.
///
/// `tolerance` is a fitness order key; `mutation` and `crossover` are
/// probabilities as numerators over 2^32 (see [`PROB_ONE`]).
#[derive(Clone, Copy, PartialEq, Eq, Structural, Debug)]
pub struct Parameters {
    pub tolerance: u64,
    pub dimension: usize,
    pub population: usize,
    pub iterations: usize,
    pub selection: usize,
    pub elitism: usize,
    pub mutation: u64,
    pub crossover: u64,
    pub verbosity: usize,
}

/// A configuration fault that is detected before any search starts.
#[derive(Clone, Copy, PartialEq, Eq, Structural, Debug)]
pub enum ConfigError {
    /// The dimension is zero.
    ZeroDimension,
    /// The population has fewer than two members.
    PopulationTooSmall,
    /// The population size is odd, so offspring pairs cannot fill it.
    OddPopulation,
    /// No generations were requested.
    ZeroIterations,
    /// The tournament draws no candidates.
    ZeroSelection,
    /// More elite replacements than population slots.
    ElitismExceedsPopulation,
    /// The mutation chance lies outside [0, 1].
    MutationOutOfRange,
    /// The crossover chance lies outside [0, 1].
    CrossoverOutOfRange,
}

impl Parameters {
    /// What every search requires of its configuration.  `iterations` is
    /// deliberately unconstrained: a search over zero generations is a
    /// normal, immediately exhausted run.
    pub open spec fn well_formed(self) -> bool {
        &&& self.dimension >= 1
        &&& self.population >= 2
        &&& self.population % 2 == 0
        &&& self.selection >= 1
        &&& self.elitism <= self.population
        &&& self.mutation <= PROB_ONE
        &&& self.crossover <= PROB_ONE
    }

    /// The first configuration fault, in the order the checks run, or
    /// `None` when the configuration can be handed to a search.
    pub open spec fn spec_first_fault(self) -> Option<ConfigError> {
        if self.dimension < 1 {
            Some(ConfigError::ZeroDimension)
        } else if self.population < 2 {
            Some(ConfigError::PopulationTooSmall)
        } else if self.population % 2 != 0 {
            Some(ConfigError::OddPopulation)
        } else if self.iterations < 1 {
            Some(ConfigError::ZeroIterations)
        } else if self.selection < 1 {
            Some(ConfigError::ZeroSelection)
        } else if self.elitism > self.population {
            Some(ConfigError::ElitismExceedsPopulation)
        } else if self.mutation > PROB_ONE {
            Some(ConfigError::MutationOutOfRange)
        } else if self.crossover > PROB_ONE {
            Some(ConfigError::CrossoverOutOfRange)
        } else {
            None
        }
    }

    /// Checks the configuration before a search starts, reporting the first
    /// fault found.  A passing configuration is well formed and asks for at
    /// least one generation.
    pub fn validate(&self) -> (r: Result<(), ConfigError>)
        ensures
            r == (match self.spec_first_fault() {
                Some(e) => Result::<(), ConfigError>::Err(e),
                None => Result::<(), ConfigError>::Ok(()),
            }),
            r is Ok <==> (self.well_formed() && self.iterations >= 1),
    {
        if self.dimension < 1 {
            Err(ConfigError::ZeroDimension)
        } else if self.population < 2 {
            Err(ConfigError::PopulationTooSmall)
        } else if self.population % 2 != 0 {
            Err(ConfigError::OddPopulation)
        } else if self.iterations < 1 {
            Err(ConfigError::ZeroIterations)
        } else if self.selection < 1 {
            Err(ConfigError::ZeroSelection)
        } else if self.elitism > self.population {
            Err(ConfigError::ElitismExceedsPopulation)
        } else if self.mutation > PROB_ONE {
            Err(ConfigError::MutationOutOfRange)
        } else if self.crossover > PROB_ONE {
            Err(ConfigError::CrossoverOutOfRange)
        } else {
            Ok(())
        }
    }
}

} // verus!
