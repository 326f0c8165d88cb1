//! A candidate solution: a fixed-length coordinate vector and its cached
//! fitness key, tied to the problem it solves.

use vstd::prelude::*;
use vstd::pervasive::VecAdditionalExecFns;
use crate::{Problem, PROB_ONE};
use crate::rng::{flip, rng_below};

verus! {

/// The mathematical value of an [`Individual`]: the problem it belongs to,
/// the coordinates as a sequence of bit patterns, and the fitness key.
#[verifier::ext_equal]
pub ghost struct IndividualView {
    pub problem: Problem,
    pub solution: Seq<u64>,
    pub fitness: u64,
}

/// An orderable, cloneable solution with a cached fitness key.
///
/// `solution` holds one 64-bit coordinate word per dimension; `fitness` is
/// the order key the evaluator returned for exactly this vector, except
/// between [`Individual::mutate`] and the [`Individual::crossover`] that
/// always follows it, which is the single point where fitness is refreshed.
pub struct Individual {
    pub solution: Vec<u64>,
    pub fitness: u64,
    pub problem: Problem,
}

impl View for Individual {
    type V = IndividualView;

    open spec fn view(&self) -> IndividualView {
        IndividualView {
            problem: self.problem,
            solution: self.solution@,
            fitness: self.fitness,
        }
    }
}

/// A sampler may be asked for a coordinate of any problem.
pub open spec fn sampler_ok<S: Fn(Problem) -> u64>(sample: S) -> bool {
    forall|p: Problem| #[trigger] call_requires(sample, (p,))
}

/// An evaluator may be asked for the fitness of any vector of any problem.
pub open spec fn evaluator_ok<E: Fn(Problem, Vec<u64>) -> u64>(eval: E) -> bool {
    forall|p: Problem, v: Vec<u64>| #[trigger] call_requires(eval, (p, v))
}

/// The cached fitness is a fresh evaluation: some vector holding exactly
/// the individual's coordinates was handed to the evaluator, and the key
/// came back for it.
pub open spec fn fitness_fresh<E: Fn(Problem, Vec<u64>) -> u64>(
    eval: E,
    v: IndividualView,
) -> bool {
    exists|s: Vec<u64>| s@ == v.solution && #[trigger] call_ensures(eval, (v.problem, s), v.fitness)
}

/// Every coordinate of the vector is an output of the sampler for
/// `problem`.  With a sampler that draws from the problem's domain, this
/// is the domain invariant: no operator ever makes up a coordinate.
pub open spec fn coords_sampled<S: Fn(Problem) -> u64>(
    sample: S,
    problem: Problem,
    solution: Seq<u64>,
) -> bool {
    forall|j: int|
        0 <= j < solution.len() ==> call_ensures(sample, (problem,), #[trigger] solution[j])
}

/// The distance from `start` forward to `k`, walking cyclically through a
/// vector of length `len`.
pub open spec fn wrap_offset(k: int, start: int, len: int) -> int {
    if k >= start {
        k - start
    } else {
        k - start + len
    }
}

/// Whether position `k` lies among the `n` positions starting at `start`,
/// taken cyclically in a vector of length `len`.
pub open spec fn in_swap_window(k: int, start: int, n: int, len: int) -> bool {
    wrap_offset(k, start, len) < n
}

/// The two new coordinate vectors come from the two old ones by exchanging
/// exactly the cyclic window of `n` positions starting at `start`.
pub open spec fn swap_exchanges(
    old_x: Seq<u64>,
    old_y: Seq<u64>,
    new_x: Seq<u64>,
    new_y: Seq<u64>,
    start: int,
    n: int,
) -> bool {
    let len = old_x.len() as int;
    &&& 0 <= start < len
    &&& 0 <= n < len
    &&& new_x.len() == len
    &&& new_y.len() == len
    &&& forall|k: int|
        0 <= k < len ==> #[trigger] new_x[k] == (if in_swap_window(k, start, n, len) {
            old_y[k]
        } else {
            old_x[k]
        })
    &&& forall|k: int|
        0 <= k < len ==> #[trigger] new_y[k] == (if in_swap_window(k, start, n, len) {
            old_x[k]
        } else {
            old_y[k]
        })
}

/// Law: exchanging a window between two vectors whose coordinates are all
/// sampler outputs yields two vectors whose coordinates are all sampler
/// outputs — crossover moves coordinates, it never makes one up.
pub proof fn lemma_swap_preserves_sampled<S: Fn(Problem) -> u64>(
    sample: S,
    problem: Problem,
    old_x: Seq<u64>,
    old_y: Seq<u64>,
    new_x: Seq<u64>,
    new_y: Seq<u64>,
    start: int,
    n: int,
)
    requires
        old_y.len() == old_x.len(),
        swap_exchanges(old_x, old_y, new_x, new_y, start, n),
        coords_sampled(sample, problem, old_x),
        coords_sampled(sample, problem, old_y),
    ensures
        coords_sampled(sample, problem, new_x),
        coords_sampled(sample, problem, new_y),
{
    let len = old_x.len() as int;
    assert forall|k: int| 0 <= k < new_x.len() implies call_ensures(
        sample,
        (problem,),
        #[trigger] new_x[k],
    ) by {
        if in_swap_window(k, start, n, len) {
            assert(new_x[k] == old_y[k]);
        } else {
            assert(new_x[k] == old_x[k]);
        }
    }
    assert forall|k: int| 0 <= k < new_y.len() implies call_ensures(
        sample,
        (problem,),
        #[trigger] new_y[k],
    ) by {
        if in_swap_window(k, start, n, len) {
            assert(new_y[k] == old_x[k]);
        } else {
            assert(new_y[k] == old_y[k]);
        }
    }
}

impl Individual {
    /// Constructs a new individual for `problem` from `dimension` fresh
    /// domain samples, with its fitness evaluated on that vector.
    pub fn new<S: Fn(Problem) -> u64, E: Fn(Problem, Vec<u64>) -> u64>(
        problem: Problem,
        dimension: usize,
        sample: &S,
        eval: &E,
    ) -> (r: Individual)
        requires
            dimension >= 1,
            sampler_ok(*sample),
            evaluator_ok(*eval),
        ensures
            r@.problem == problem,
            r@.solution.len() == dimension,
            coords_sampled(*sample, problem, r@.solution),
            fitness_fresh(*eval, r@),
    {
        let mut solution: Vec<u64> = Vec::new();
        while solution.len() < dimension
            invariant
                solution@.len() <= dimension,
                sampler_ok(*sample),
                forall|j: int|
                    0 <= j < solution@.len() ==> call_ensures(
                        *sample,
                        (problem,),
                        #[trigger] solution@[j],
                    ),
            decreases dimension - solution.len(),
        {
            solution.push(sample(problem));
        }
        let evaluated = solution.clone();
        let ghost snapshot = evaluated;
        let fitness = eval(problem, evaluated);
        proof {
            assert(snapshot@ =~= solution@);
            assert(call_ensures(*eval, (problem, snapshot), fitness));
        }
        let r = Individual { solution, fitness, problem };
        proof {
            assert(r@.solution == snapshot@);
            assert(r@.problem == problem && r@.fitness == fitness);
            assert(fitness_fresh(*eval, r@));
        }
        r
    }

    /// With probability `chance / 2^32`, resamples one uniformly chosen
    /// coordinate from the problem's domain (a "jump" mutation).  The
    /// endpoints are exact: a zero chance never touches the vector, a full
    /// chance always resamples exactly one coordinate.
    ///
    /// Fitness is not re-evaluated here: by contract, `crossover` always
    /// runs afterwards and refreshes it.
    pub fn mutate<S: Fn(Problem) -> u64>(
        &mut self,
        chance: u64,
        rng: &mut rand::rngs::StdRng,
        sample: &S,
    )
        requires
            old(self)@.solution.len() >= 1,
            chance <= PROB_ONE,
            sampler_ok(*sample),
        ensures
            final(self)@.problem == old(self)@.problem,
            final(self)@.fitness == old(self)@.fitness,
            final(self)@.solution.len() == old(self)@.solution.len(),
            final(self)@.solution == old(self)@.solution || exists|j: int|
                0 <= j < old(self)@.solution.len() && call_ensures(
                    *sample,
                    (old(self)@.problem,),
                    #[trigger] final(self)@.solution[j],
                ) && final(self)@.solution == old(self)@.solution.update(
                    j,
                    final(self)@.solution[j],
                ),
            chance == 0 ==> final(self)@.solution == old(self)@.solution,
            chance == PROB_ONE ==> exists|j: int|
                0 <= j < old(self)@.solution.len() && call_ensures(
                    *sample,
                    (old(self)@.problem,),
                    #[trigger] final(self)@.solution[j],
                ) && final(self)@.solution == old(self)@.solution.update(
                    j,
                    final(self)@.solution[j],
                ),
            coords_sampled(*sample, old(self)@.problem, old(self)@.solution) ==> coords_sampled(
                *sample,
                old(self)@.problem,
                final(self)@.solution,
            ),
    {
        if flip(rng, chance) {
            let i = rng_below(rng, self.solution.len());
            let fresh = sample(self.problem);
            self.solution.set(i, fresh);
            proof {
                let j = i as int;
                assert(self@.solution == old(self)@.solution.update(j, self@.solution[j]));
                assert(call_ensures(*sample, (old(self)@.problem,), self@.solution[j]));
                if coords_sampled(*sample, old(self)@.problem, old(self)@.solution) {
                    assert forall|k: int| 0 <= k < self@.solution.len() implies call_ensures(
                        *sample,
                        (old(self)@.problem,),
                        #[trigger] self@.solution[k],
                    ) by {
                        if k != j {
                            assert(self@.solution[k] == old(self)@.solution[k]);
                        }
                    }
                }
            }
        }
    }

    /// With probability `chance / 2^32`, exchanges a random cyclic window
    /// of coordinates between `x` and `y`: a start position and a window
    /// length are drawn below the dimension, and the window wraps around
    /// the end of the vector.
    ///
    /// Fitness is always re-evaluated for both operands, whether or not a
    /// window was exchanged: this is the single point where a preceding
    /// `mutate`'s deferred fitness refresh is resolved.
    pub fn crossover<E: Fn(Problem, Vec<u64>) -> u64>(
        x: &mut Individual,
        y: &mut Individual,
        chance: u64,
        rng: &mut rand::rngs::StdRng,
        eval: &E,
    )
        requires
            old(x)@.problem == old(y)@.problem,
            old(x)@.solution.len() == old(y)@.solution.len(),
            old(x)@.solution.len() >= 1,
            chance <= PROB_ONE,
            evaluator_ok(*eval),
        ensures
            final(x)@.problem == old(x)@.problem,
            final(y)@.problem == old(y)@.problem,
            final(x)@.solution.len() == old(x)@.solution.len(),
            final(y)@.solution.len() == old(y)@.solution.len(),
            exists|start: int, n: int|
                #[trigger] swap_exchanges(
                    old(x)@.solution,
                    old(y)@.solution,
                    final(x)@.solution,
                    final(y)@.solution,
                    start,
                    n,
                ),
            chance == 0 ==> final(x)@.solution == old(x)@.solution && final(y)@.solution == old(
                y,
            )@.solution,
            fitness_fresh(*eval, final(x)@),
            fitness_fresh(*eval, final(y)@),
    {
        let len = x.solution.len();
        if flip(rng, chance) {
            let start = rng_below(rng, len);
            let n = rng_below(rng, len);
            let mut c: usize = 0;
            let mut idx: usize = start;
            while c < n
                invariant
                    x@.solution.len() == len,
                    y@.solution.len() == len,
                    x@.problem == old(x)@.problem,
                    y@.problem == old(y)@.problem,
                    x@.fitness == old(x)@.fitness,
                    y@.fitness == old(y)@.fitness,
                    start < len,
                    n < len,
                    0 <= c <= n,
                    idx < len,
                    wrap_offset(idx as int, start as int, len as int) == c,
                    forall|k: int|
                        0 <= k < len ==> #[trigger] x@.solution[k] == (if in_swap_window(
                            k,
                            start as int,
                            c as int,
                            len as int,
                        ) {
                            old(y)@.solution[k]
                        } else {
                            old(x)@.solution[k]
                        }),
                    forall|k: int|
                        0 <= k < len ==> #[trigger] y@.solution[k] == (if in_swap_window(
                            k,
                            start as int,
                            c as int,
                            len as int,
                        ) {
                            old(x)@.solution[k]
                        } else {
                            old(y)@.solution[k]
                        }),
                decreases n - c,
            {
                let xv = x.solution[idx];
                let yv = y.solution[idx];
                x.solution.set(idx, yv);
                y.solution.set(idx, xv);
                proof {
                    assert forall|k: int| 0 <= k < len && k != idx implies wrap_offset(
                        k,
                        start as int,
                        len as int,
                    ) != c by {}
                }
                c = c + 1;
                idx = if idx + 1 == len {
                    0
                } else {
                    idx + 1
                };
            }
            proof {
                assert(swap_exchanges(
                    old(x)@.solution,
                    old(y)@.solution,
                    x@.solution,
                    y@.solution,
                    start as int,
                    n as int,
                ));
            }
        } else {
            proof {
                assert(swap_exchanges(
                    old(x)@.solution,
                    old(y)@.solution,
                    x@.solution,
                    y@.solution,
                    0,
                    0,
                ));
            }
        }
        let ghost mid_x = x@.solution;
        let ghost mid_y = y@.solution;
        let xc = x.solution.clone();
        let ghost x_snapshot = xc;
        let xf = eval(x.problem, xc);
        x.fitness = xf;
        let yc = y.solution.clone();
        let ghost y_snapshot = yc;
        let yf = eval(y.problem, yc);
        y.fitness = yf;
        proof {
            assert(x@.solution == mid_x && y@.solution == mid_y);
            assert(x_snapshot@ =~= x@.solution);
            assert(y_snapshot@ =~= y@.solution);
            assert(call_ensures(*eval, (x@.problem, x_snapshot), x@.fitness));
            assert(call_ensures(*eval, (y@.problem, y_snapshot), y@.fitness));
            assert(fitness_fresh(*eval, x@));
            assert(fitness_fresh(*eval, y@));
        }
    }
}

impl PartialEq for Individual {
    /// Individuals compare by fitness alone, so equality must too, to stay
    /// consistent with the ordering.
    fn eq(&self, other: &Self) -> (r: bool) {
        self.fitness == other.fitness
    }
}

impl vstd::std_specs::cmp::PartialEqSpecImpl for Individual {
    open spec fn obeys_eq_spec() -> bool {
        true
    }

    open spec fn eq_spec(&self, other: &Self) -> bool {
        self.fitness == other.fitness
    }
}

impl Eq for Individual {

}

impl PartialOrd for Individual {
    /// Orders strictly by fitness key; a lower key is fitter.  Keys are
    /// totally ordered integers, so every pair of individuals compares.
    fn partial_cmp(&self, other: &Self) -> (r: Option<core::cmp::Ordering>) {
        if self.fitness < other.fitness {
            Some(core::cmp::Ordering::Less)
        } else if self.fitness == other.fitness {
            Some(core::cmp::Ordering::Equal)
        } else {
            Some(core::cmp::Ordering::Greater)
        }
    }
}

impl vstd::std_specs::cmp::PartialOrdSpecImpl for Individual {
    open spec fn obeys_partial_cmp_spec() -> bool {
        true
    }

    open spec fn partial_cmp_spec(&self, other: &Self) -> Option<core::cmp::Ordering> {
        if self.fitness < other.fitness {
            Some(core::cmp::Ordering::Less)
        } else if self.fitness == other.fitness {
            Some(core::cmp::Ordering::Equal)
        } else {
            Some(core::cmp::Ordering::Greater)
        }
    }
}

impl Clone for Individual {
    /// Duplicates the solution vector; the copy shares nothing with the
    /// original.
    fn clone(&self) -> (r: Self)
        ensures
            r@ == self@,
    {
        let solution = self.solution.clone();
        proof {
            assert(solution@ =~= self.solution@);
        }
        Individual { solution, fitness: self.fitness, problem: self.problem }
    }
}

} // verus!
