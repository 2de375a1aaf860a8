//! The annealing loop: move generation, scoring, stochastic acceptance and
//! temperature update, until the temperature crosses its floor or the
//! iteration budget is spent.

use vstd::prelude::*;
use crate::config::Config;
use crate::cooling::cooling_spec;
use crate::cooling::temperature_at;
use crate::cooling::TEMP_LIMIT;
use crate::distance::calc_path_length;
use crate::distance::path_length_spec;
use crate::distance::DistanceMatrix;
use crate::distance::ENTRY_LIMIT;
use crate::errors::RunError;
use crate::fixed::exp_neg;
use crate::fixed::exp_neg_spec;
use crate::fixed::exp_pos;
use crate::fixed::exp_pos_spec;
use crate::fixed::lemma_exp_neg_below_one;
use crate::fixed::lemma_exp_pos_above_one;
use crate::fixed::EXP_ARG_LIMIT;
use crate::fixed::EXP_CAP;
use crate::fixed::SCALE;
use crate::rng::RandomSource;
use crate::tour::generate;
use crate::tour::initialize_solution;
use crate::tour::is_no_op_method;
use crate::tour::lemma_tour_entries_in_range;
use crate::tour::lemma_candidate_is_tour;
use crate::tour::lemma_tour_len;
use crate::tour::min_tour_len;
use crate::tour::min_tour_length;
use crate::tour::valid_tour;
use vstd::arithmetic::div_mod::lemma_div_is_ordered;
use vstd::arithmetic::div_mod::lemma_div_multiples_vanish;
use vstd::arithmetic::div_mod::lemma_basic_div;

verus! {

/// No tour cost the engine can produce exceeds this.
pub const LEN_LIMIT: u128 = 2_000_000_000_000_000_000_000_000_000_000_000_000;

/// The rounded-up ratio `a / b`.
pub open spec fn ceil_div(a: int, b: int) -> int {
    (a + b - 1) / b
}

/// The acceptance probability in fixed point, from the cost difference
/// (candidate minus current) and the temperature: e^(-delta/T), saturated
/// at `EXP_CAP` and truncated to 0 beyond `EXP_ARG_LIMIT`. The ratio is
/// rounded away from zero, so any strict improvement stays strictly above
/// one even at high temperatures.
pub open spec fn prob_from_delta(delta: int, temp: int) -> int {
    if delta <= 0 {
        let m = ceil_div(-delta * (SCALE as int), temp);
        if m >= EXP_ARG_LIMIT {
            EXP_CAP as int
        } else {
            exp_pos_spec(m)
        }
    } else {
        let m = ceil_div(delta * (SCALE as int), temp);
        if m >= EXP_ARG_LIMIT {
            0
        } else {
            exp_neg_spec(m)
        }
    }
}

/// `min(ceil(mag * SCALE / temperature), EXP_ARG_LIMIT)`.
fn ratio_capped(mag: u128, temperature: u64) -> (r: u64)
    requires
        1 <= temperature,
        mag <= LEN_LIMIT,
    ensures
        r <= EXP_ARG_LIMIT,
        ceil_div(mag as int * (SCALE as int), temperature as int) >= EXP_ARG_LIMIT ==> r
            == EXP_ARG_LIMIT,
        ceil_div(mag as int * (SCALE as int), temperature as int) < EXP_ARG_LIMIT ==> r
            == ceil_div(mag as int * (SCALE as int), temperature as int),
{
    let t = temperature as u128;
    if mag >= t * 15 {
        proof {
            let mi = mag as int;
            let ti = temperature as int;
            assert(mi * (SCALE as int) >= ti * 15 * (SCALE as int)) by (nonlinear_arith)
                requires
                    mi >= ti * 15,
                    ti >= 1,
            ;
            assert(ti * 15 * (SCALE as int) == ti * (15 * (SCALE as int))) by (nonlinear_arith);
            lemma_div_multiples_vanish(15 * (SCALE as int), ti);
            lemma_div_is_ordered(ti * (15 * (SCALE as int)), mi * (SCALE as int), ti);
            lemma_div_is_ordered(mi * (SCALE as int), mi * (SCALE as int) + ti - 1, ti);
        }
        return EXP_ARG_LIMIT;
    }
    proof {
        let mi = mag as int;
        let ti = temperature as int;
        assert(mi * (SCALE as int) < ti * 15 * (SCALE as int)) by (nonlinear_arith)
            requires
                mi < ti * 15,
                ti >= 1,
        ;
        assert(ti * 15 * (SCALE as int) == ti * (15 * (SCALE as int))) by (nonlinear_arith);
        assert(mi * (SCALE as int) + ti - 1 < ti * (15 * (SCALE as int)) + ti);
        assert(ti * (15 * (SCALE as int)) + ti == ti * (15 * (SCALE as int) + 1))
            by (nonlinear_arith);
        assert((mi * (SCALE as int) + ti - 1) / ti < 15 * (SCALE as int) + 1) by {
            if (mi * (SCALE as int) + ti - 1) / ti >= 15 * (SCALE as int) + 1 {
                assert(((mi * (SCALE as int) + ti - 1) / ti) * ti >= (15 * (SCALE as int) + 1)
                    * ti) by (nonlinear_arith)
                    requires
                        (mi * (SCALE as int) + ti - 1) / ti >= 15 * (SCALE as int) + 1,
                        ti >= 1,
                ;
                vstd::arithmetic::div_mod::lemma_fundamental_div_mod(
                    mi * (SCALE as int) + ti - 1,
                    ti,
                );
                vstd::arithmetic::div_mod::lemma_mod_bound(mi * (SCALE as int) + ti - 1, ti);
                assert((15 * (SCALE as int) + 1) * ti == ti * (15 * (SCALE as int) + 1))
                    by (nonlinear_arith);
            }
        }
    }
    let num = mag * (SCALE as u128);
    let m_wide = (num + t - 1) / t;
    let m = m_wide as u64;
    if m >= EXP_ARG_LIMIT {
        EXP_ARG_LIMIT
    } else {
        m
    }
}

/// The acceptance probability for one candidate: e^((current - candidate)/T)
/// in fixed point. Strict improvements give a value strictly above one,
/// equal costs give exactly one, and deteriorations give a value below one
/// that reaches exactly zero once the ratio passes `EXP_ARG_LIMIT`.
pub fn acceptance_probability(
    current_length: u128,
    candidate_length: u128,
    temperature: u64,
) -> (r: u64)
    requires
        1 <= temperature,
        current_length <= LEN_LIMIT,
        candidate_length <= LEN_LIMIT,
    ensures
        r == prob_from_delta(
            candidate_length as int - current_length as int,
            temperature as int,
        ),
        r <= EXP_CAP,
{
    if candidate_length <= current_length {
        let mag = current_length - candidate_length;
        let m = ratio_capped(mag, temperature);
        if m >= EXP_ARG_LIMIT {
            EXP_CAP
        } else {
            exp_pos(m)
        }
    } else {
        let mag = candidate_length - current_length;
        let m = ratio_capped(mag, temperature);
        if m >= EXP_ARG_LIMIT {
            0
        } else {
            exp_neg(m)
        }
    }
}

/// A strictly better candidate has acceptance probability strictly above
/// one, whatever the temperature: it is always accepted.
pub proof fn lemma_probability_better(delta: int, temp: int)
    requires
        delta < 0,
        temp >= 1,
    ensures
        prob_from_delta(delta, temp) > SCALE,
{
    let x = -delta * (SCALE as int);
    assert(x >= SCALE) by (nonlinear_arith)
        requires
            delta <= -1,
            x == -delta * (SCALE as int),
    ;
    let m = ceil_div(x, temp);
    assert(x + temp - 1 >= temp);
    lemma_div_is_ordered(temp, x + temp - 1, temp);
    vstd::arithmetic::div_mod::lemma_div_by_self(temp);
    assert(m >= 1);
    if m < EXP_ARG_LIMIT {
        lemma_exp_pos_above_one(m);
    }
}

/// An equally good candidate has acceptance probability exactly one: it is
/// always accepted.
pub proof fn lemma_probability_equal(temp: int)
    requires
        temp >= 1,
    ensures
        prob_from_delta(0, temp) == SCALE,
{
    lemma_basic_div(temp - 1, temp);
    crate::fixed::lemma_exp_pos_at_zero();
}

/// A strictly worse candidate has acceptance probability strictly below one.
pub proof fn lemma_probability_worse(delta: int, temp: int)
    requires
        delta > 0,
        temp >= 1,
    ensures
        0 <= prob_from_delta(delta, temp) < SCALE,
{
    let x = delta * (SCALE as int);
    assert(x >= SCALE) by (nonlinear_arith)
        requires
            delta >= 1,
            x == delta * (SCALE as int),
    ;
    let m = ceil_div(x, temp);
    assert(x + temp - 1 >= temp);
    lemma_div_is_ordered(temp, x + temp - 1, temp);
    vstd::arithmetic::div_mod::lemma_div_by_self(temp);
    assert(m >= 1);
    if m < EXP_ARG_LIMIT {
        lemma_exp_neg_below_one(m);
    }
}

/// Once the temperature is small enough against a given deterioration, the
/// acceptance probability is exactly zero: the candidate is never accepted.
pub proof fn lemma_probability_worse_cold(delta: int, temp: int)
    requires
        delta > 0,
        temp >= 1,
        temp * (EXP_ARG_LIMIT as int) <= delta * (SCALE as int),
    ensures
        prob_from_delta(delta, temp) == 0,
{
    let x = delta * (SCALE as int);
    lemma_div_multiples_vanish(EXP_ARG_LIMIT as int, temp);
    lemma_div_is_ordered(temp * (EXP_ARG_LIMIT as int), x, temp);
    lemma_div_is_ordered(x, x + temp - 1, temp);
}


/// The two decisions every iteration is forced into: an improving or
/// equal-cost candidate is always accepted, and a worsening candidate is
/// never accepted once the temperature is small enough against the
/// deterioration.
pub proof fn lemma_entry_forced_decisions(e: TraceEntry, c: Config, j: int)
    requires
        entry_wf(e, c, j),
        e.temperature >= 1,
    ensures
        e.delta <= 0 ==> e.accepted,
        e.delta > 0 && (e.temperature as int) * (EXP_ARG_LIMIT as int) <= (e.delta as int) * (
        SCALE as int) ==> !e.accepted,
{
    if e.delta < 0 {
        lemma_probability_better(e.delta as int, e.temperature as int);
    } else if e.delta == 0 {
        lemma_probability_equal(e.temperature as int);
    } else if (e.temperature as int) * (EXP_ARG_LIMIT as int) <= (e.delta as int) * (
    SCALE as int) {
        lemma_probability_worse_cold(e.delta as int, e.temperature as int);
    }
}

/// Why one run stopped.
#[derive(Clone, Copy, PartialEq, Eq, Structural, Debug)]
pub enum StopReason {
    /// The temperature fell to or below the configured minimum.
    Converged,
    /// The iteration counter reached the configured maximum.
    Exhausted,
}

/// One line of the run's trace: what the iteration generated and decided.
#[derive(Clone, Copy, PartialEq, Eq, Structural, Debug)]
pub struct TraceEntry {
    /// The iteration this entry records, counted from 1.
    pub iteration: u64,
    /// Candidate cost minus current cost.
    pub delta: i128,
    /// The temperature the decision was taken at.
    pub temperature: u64,
    /// The acceptance probability in fixed point.
    pub acceptance_probability: u64,
    /// Whether the candidate replaced the current tour.
    pub accepted: bool,
}

/// The result of one annealing run: the final tour with its cost, the
/// per-iteration trace, and how the run stopped.
pub struct AnnealOutcome {
    pub tour: Vec<usize>,
    pub cost: u128,
    pub trace: Vec<TraceEntry>,
    pub iterations: u64,
    pub final_temperature: u64,
    pub stop: StopReason,
}

/// The temperature in force while iteration `j + 1` runs: the initial
/// temperature for the first iteration, afterwards the configured schedule
/// recomputed from the initial value at the previous iteration count.
pub open spec fn temperature_before(c: Config, j: int) -> int {
    if j <= 0 {
        c.initial_temperature as int
    } else {
        cooling_spec(
            c.cooling_method,
            c.initial_temperature as int,
            c.temperature_decay as int,
            j as nat,
        )
    }
}

/// What every recorded trace entry guarantees: its position, the
/// temperature the schedule prescribes there, the acceptance probability
/// recomputable from its own delta and temperature, and the two forced
/// decisions (probability one or above always accepts, probability zero
/// never does).
pub open spec fn entry_wf(e: TraceEntry, c: Config, j: int) -> bool {
    &&& e.iteration == j + 1
    &&& e.temperature == temperature_before(c, j)
    &&& e.acceptance_probability == prob_from_delta(e.delta as int, e.temperature as int)
    &&& (e.acceptance_probability == 0 ==> !e.accepted)
    &&& (e.acceptance_probability >= SCALE ==> e.accepted)
}

/// One annealing run from a given starting tour. Terminates within the
/// configured iteration budget, or as soon as the temperature crosses the
/// configured minimum, whichever comes first; with a reserved no-op
/// strategy the starting tour is returned unchanged.
pub fn anneal_from(
    distance: &DistanceMatrix,
    config: &Config,
    initial: Vec<usize>,
    rng: &mut RandomSource,
) -> (r: AnnealOutcome)
    requires
        distance.wf(),
        config.wf(),
        valid_tour(initial@, distance.n()),
        distance.n() >= min_tour_len(config.generation_method),
        distance.n() >= 1,
    ensures
        valid_tour(r.tour@, distance.n()),
        r.tour@.len() == distance.n(),
        r.cost == path_length_spec(distance.entries(), r.tour@),
        1 <= r.iterations <= config.max_iterations,
        r.trace@.len() == r.iterations - 1,
        forall|j: int| 0 <= j < r.trace@.len() ==> entry_wf(#[trigger] r.trace@[j], *config, j),
        r.final_temperature == temperature_before(*config, r.iterations - 1),
        r.stop is Converged <==> r.final_temperature <= config.minimum_temperature,
        r.stop is Exhausted ==> r.iterations == config.max_iterations,
        r.final_temperature > config.minimum_temperature ==> r.iterations
            == config.max_iterations,
        is_no_op_method(config.generation_method) ==> r.tour@ == initial@,
    decreases config.max_iterations,
{
    let ghost n = distance.n();
    let ghost initial_view = initial@;
    proof {
        lemma_tour_len(initial@, n);
    }
    let mut solution = initial;
    let mut temperature: u64 = config.initial_temperature;
    let mut iterations: u64 = 1;
    let mut trace: Vec<TraceEntry> = Vec::new();
    while temperature > config.minimum_temperature && iterations < config.max_iterations
        invariant
            distance.wf(),
            config.wf(),
            n == distance.n(),
            n >= min_tour_len(config.generation_method),
            n >= 1,
            valid_tour(solution@, n),
            solution@.len() == n,
            1 <= iterations <= config.max_iterations,
            temperature == temperature_before(*config, iterations as int - 1),
            temperature <= TEMP_LIMIT,
            trace@.len() == iterations - 1,
            forall|j: int| 0 <= j < trace@.len() ==> entry_wf(#[trigger] trace@[j], *config, j),
            is_no_op_method(config.generation_method) ==> solution@ == initial_view,
        decreases config.max_iterations - iterations,
    {
        let candidate = generate(&config.generation_method, &solution, rng);
        proof {
            lemma_candidate_is_tour(solution@, candidate@, n);
            lemma_tour_entries_in_range(solution@, n);
            lemma_tour_entries_in_range(candidate@, n);
        }
        let current_length = calc_path_length(distance, &solution);
        let candidate_length = calc_path_length(distance, &candidate);
        let sol_len = solution.len();
        let cand_len = candidate.len();
        proof {
            assert(sol_len <= usize::MAX);
            assert(cand_len <= usize::MAX);
            assert((solution@.len() as int) * (ENTRY_LIMIT as int) <= LEN_LIMIT as int)
                by (nonlinear_arith)
                requires
                    0 <= solution@.len() <= 0xFFFF_FFFF_FFFF_FFFFu64,
            ;
            assert((candidate@.len() as int) * (ENTRY_LIMIT as int) <= LEN_LIMIT as int)
                by (nonlinear_arith)
                requires
                    0 <= candidate@.len() <= 0xFFFF_FFFF_FFFF_FFFFu64,
            ;
        }
        let random_number = rng.draw_unit_fraction();
        let accept_probability = acceptance_probability(
            current_length,
            candidate_length,
            temperature,
        );
        let delta: i128 = (candidate_length as i128) - (current_length as i128);
        let accepted = accept_probability > random_number;
        trace.push(
            TraceEntry {
                iteration: iterations,
                delta,
                temperature,
                acceptance_probability: accept_probability,
                accepted,
            },
        );
        if accepted {
            solution = candidate;
        }
        temperature = temperature_at(
            &config.cooling_method,
            config.initial_temperature,
            config.temperature_decay,
            iterations,
        );
        iterations = iterations + 1;
    }
    proof {
        lemma_tour_entries_in_range(solution@, n);
    }
    let cost = calc_path_length(distance, &solution);
    let stop = if temperature <= config.minimum_temperature {
        StopReason::Converged
    } else {
        StopReason::Exhausted
    };
    AnnealOutcome {
        tour: solution,
        cost,
        trace,
        iterations,
        final_temperature: temperature,
        stop,
    }
}

/// One full annealing run from a uniformly random starting tour, as the
/// engine's external caller sees it. Fails exactly when the point set is
/// too small for the configured move generator (a tour needs at least one
/// point; Swap needs two, Reverse three).
pub fn simulation_annealing(
    distance: &DistanceMatrix,
    config: &Config,
    rng: &mut RandomSource,
) -> (r: Result<AnnealOutcome, RunError>)
    requires
        distance.wf(),
        config.wf(),
    ensures
        match r {
            Ok(o) => {
                &&& distance.n() >= min_tour_len(config.generation_method)
                &&& distance.n() >= 1
                &&& valid_tour(o.tour@, distance.n())
                &&& o.tour@.len() == distance.n()
                &&& o.cost == path_length_spec(distance.entries(), o.tour@)
                &&& 1 <= o.iterations <= config.max_iterations
                &&& o.trace@.len() == o.iterations - 1
                &&& forall|j: int|
                    0 <= j < o.trace@.len() ==> entry_wf(#[trigger] o.trace@[j], *config, j)
                &&& (o.stop is Converged <==> o.final_temperature
                    <= config.minimum_temperature)
                &&& (o.stop is Exhausted ==> o.iterations == config.max_iterations)
            },
            Err(e) => {
                &&& e == RunError::Precondition
                &&& distance.n() < min_tour_len(config.generation_method)
            },
        },
{
    let n = distance.size();
    let need = min_tour_length(&config.generation_method);
    if n < need {
        return Err(RunError::Precondition);
    }
    let initial = initialize_solution(n, rng);
    Ok(anneal_from(distance, config, initial, rng))
}

} // verus!
