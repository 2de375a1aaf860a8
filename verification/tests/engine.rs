use annealer::anneal::{acceptance_probability, anneal_from, simulation_annealing, StopReason};
use annealer::config::{parse_config, Config, ConfigError};
use annealer::cooling::{
    exponential_multiplicative_cooling, linear_multiplicative_cooling,
    logarithmic_multiplicative_cooling, quadratic_multiplicative_cooling, temperature_at,
    CoolingMethod,
};
use annealer::distance::{calc_path_length, calc_points_distance, euclidean_distance};
use annealer::errors::RunError;
use annealer::rng::RandomSource;
use annealer::tour::{initialize_solution, insert, k_opt, reverse, swap, GenerationMethod};

const SCALE: u64 = 1_000_000;

fn unit_square() -> Vec<Vec<i64>> {
    vec![
        vec![0, 0],
        vec![0, 1_000_000],
        vec![1_000_000, 1_000_000],
        vec![1_000_000, 0],
    ]
}

fn square_config(method: GenerationMethod) -> Config {
    Config {
        initial_temperature: 100 * SCALE,
        minimum_temperature: SCALE,
        temperature_decay: SCALE / 10,
        max_iterations: 50,
        generation_method: method,
        cooling_method: CoolingMethod::LinearMultiplicativeCooling,
    }
}

fn assert_permutation(tour: &[usize], n: usize) {
    assert_eq!(tour.len(), n);
    let mut sorted: Vec<usize> = tour.to_vec();
    sorted.sort();
    let expected: Vec<usize> = (0..n).collect();
    assert_eq!(sorted, expected);
}

#[test]
fn euclidean_distance_three_four_five() {
    let p = vec![0i64, 0];
    let q = vec![3_000_000i64, 4_000_000];
    assert_eq!(euclidean_distance(&p, &q), 5_000_000);
}

#[test]
fn distance_matrix_symmetric_zero_diagonal() {
    let m = calc_points_distance(&unit_square()).unwrap();
    assert_eq!(m.size(), 4);
    for i in 0..4 {
        assert_eq!(m.entry(i, i), 0);
        for j in 0..4 {
            assert_eq!(m.entry(i, j), m.entry(j, i));
        }
    }
    assert_eq!(m.entry(0, 1), 1_000_000);
    assert_eq!(m.entry(0, 2), 1_414_213);
}

#[test]
fn distance_matrix_triangle_inequality_on_square() {
    let m = calc_points_distance(&unit_square()).unwrap();
    for i in 0..4 {
        for j in 0..4 {
            for k in 0..4 {
                assert!(m.entry(i, k) <= m.entry(i, j) + m.entry(j, k));
            }
        }
    }
}

#[test]
fn distance_matrix_rejects_inconsistent_rows() {
    let points = vec![vec![0i64, 0], vec![1_000_000i64]];
    assert!(matches!(calc_points_distance(&points), Err(RunError::InputShape)));
}

#[test]
fn path_length_closes_the_cycle() {
    let m = calc_points_distance(&unit_square()).unwrap();
    let tour = vec![0usize, 1, 2, 3];
    assert_eq!(calc_path_length(&m, &tour), 4_000_000);
    let crossing = vec![0usize, 2, 1, 3];
    assert_eq!(calc_path_length(&m, &crossing), 2 * 1_000_000 + 2 * 1_414_213);
}

#[test]
fn cooling_schedules_start_at_initial() {
    let t0 = 100 * SCALE;
    let d = SCALE / 10;
    assert_eq!(exponential_multiplicative_cooling(t0, d, 0), t0);
    assert_eq!(logarithmic_multiplicative_cooling(t0, d, 0), t0);
    assert_eq!(linear_multiplicative_cooling(t0, d, 0), t0);
    assert_eq!(quadratic_multiplicative_cooling(t0, d, 0), t0);
}

#[test]
fn cooling_schedules_exact_values() {
    let t0 = 100 * SCALE;
    assert_eq!(exponential_multiplicative_cooling(t0, SCALE / 2, 1), 50 * SCALE);
    assert_eq!(exponential_multiplicative_cooling(t0, SCALE / 2, 2), 25 * SCALE);
    assert_eq!(linear_multiplicative_cooling(t0, SCALE / 10, 1), 90_909_090);
    assert_eq!(quadratic_multiplicative_cooling(t0, SCALE / 10, 2), 71_428_571);
    // ln(2) is 693147 in fixed point; decay 0.1 adds 69314 to the unit denominator.
    assert_eq!(
        logarithmic_multiplicative_cooling(t0, SCALE / 10, 1),
        100_000_000_000_000 / 1_069_314
    );
}

#[test]
fn cooling_schedules_nonincreasing() {
    let t0 = 100 * SCALE;
    let d = SCALE / 10;
    let methods = [
        CoolingMethod::ExponentialMultiplicativeCooling,
        CoolingMethod::LogarithmicMultiplicativeCooling,
        CoolingMethod::LinearMultiplicativeCooling,
        CoolingMethod::QuadraticMultiplicativeCooling,
    ];
    for m in methods.iter() {
        let mut prev = temperature_at(m, t0, d, 0);
        assert_eq!(prev, t0);
        for i in 1..30 {
            let t = temperature_at(m, t0, d, i);
            assert!(t <= prev);
            prev = t;
        }
    }
}

#[test]
fn acceptance_probability_better_above_one() {
    let p = acceptance_probability(10 * 1_000_000, 5 * 1_000_000, SCALE);
    assert!(p > SCALE);
    // one unit better at unit temperature: exactly e in fixed point
    assert_eq!(acceptance_probability(6_000_000, 5_000_000, SCALE), 2_718_281);
    // even a microscopic improvement stays strictly above one
    assert!(acceptance_probability(5_000_001, 5_000_000, 100 * SCALE) > SCALE);
}

#[test]
fn acceptance_probability_equal_is_one() {
    assert_eq!(acceptance_probability(7_500_000, 7_500_000, SCALE), SCALE);
    assert_eq!(acceptance_probability(7_500_000, 7_500_000, 123_456_789), SCALE);
}

#[test]
fn acceptance_probability_worse_below_one() {
    // one unit worse at unit temperature: exactly 1/e in fixed point
    assert_eq!(acceptance_probability(5_000_000, 6_000_000, SCALE), 367_879);
    // a worse candidate at a tiny temperature is impossible to accept
    assert_eq!(acceptance_probability(5_000_000, 6_000_000, 1), 0);
}

#[test]
fn move_generators_preserve_permutation() {
    let mut rng = RandomSource::new();
    let tour: Vec<usize> = vec![4, 2, 0, 5, 1, 3];
    for _ in 0..20 {
        assert_permutation(&swap(&tour, &mut rng), 6);
        assert_permutation(&reverse(&tour, &mut rng), 6);
    }
    assert_eq!(insert(&tour), tour);
    assert_eq!(k_opt(&tour, 3), tour);
}

#[test]
fn initialize_solution_is_permutation() {
    let mut rng = RandomSource::new();
    for n in [1usize, 2, 5, 10, 33] {
        assert_permutation(&initialize_solution(n, &mut rng), n);
    }
}

#[test]
fn parse_config_unit_square_scenario() {
    let lines: Vec<Vec<u8>> = vec![
        b"initial_temperature=100".to_vec(),
        b"minimum_temperature=1".to_vec(),
        b"temperature_decay=0.1".to_vec(),
        b"max_iterations=50".to_vec(),
        b"generation_method=Swap".to_vec(),
        b"cooling_method=LinearMultiplicativeCooling".to_vec(),
    ];
    let c = parse_config(&lines).unwrap();
    assert_eq!(c.initial_temperature, 100 * SCALE);
    assert_eq!(c.minimum_temperature, SCALE);
    assert_eq!(c.temperature_decay, 100_000);
    assert_eq!(c.max_iterations, 50);
    assert_eq!(c.generation_method, GenerationMethod::Swap);
    assert_eq!(c.cooling_method, CoolingMethod::LinearMultiplicativeCooling);
}

#[test]
fn parse_config_trims_and_skips() {
    let lines: Vec<Vec<u8>> = vec![
        b"  initial_temperature =  2.5 ".to_vec(),
        b"this line has no separator and is skipped".to_vec(),
        b"a=b=c".to_vec(),
        b"minimum_temperature=0".to_vec(),
        b"temperature_decay=1".to_vec(),
        b"max_iterations=10".to_vec(),
        b"generation_method=Reverse".to_vec(),
        b"cooling_method=ExponentialMultiplicativeCooling".to_vec(),
    ];
    let c = parse_config(&lines).unwrap();
    assert_eq!(c.initial_temperature, 2_500_000);
    assert_eq!(c.minimum_temperature, 0);
    assert_eq!(c.temperature_decay, SCALE);
    assert_eq!(c.generation_method, GenerationMethod::Reverse);
    assert_eq!(c.cooling_method, CoolingMethod::ExponentialMultiplicativeCooling);
}

#[test]
fn parse_config_k_opt_and_insert() {
    let lines: Vec<Vec<u8>> = vec![
        b"initial_temperature=10".to_vec(),
        b"minimum_temperature=1".to_vec(),
        b"temperature_decay=0.5".to_vec(),
        b"max_iterations=5".to_vec(),
        b"generation_method=3-opt".to_vec(),
        b"cooling_method=QuadraticMultiplicativeCooling".to_vec(),
    ];
    let c = parse_config(&lines).unwrap();
    assert_eq!(c.generation_method, GenerationMethod::Kopt(3));
    let lines2: Vec<Vec<u8>> = vec![
        b"initial_temperature=10".to_vec(),
        b"minimum_temperature=1".to_vec(),
        b"temperature_decay=0.5".to_vec(),
        b"max_iterations=5".to_vec(),
        b"generation_method=Insert".to_vec(),
        b"cooling_method=LogarithmicMultiplicativeCooling".to_vec(),
    ];
    let c2 = parse_config(&lines2).unwrap();
    assert_eq!(c2.generation_method, GenerationMethod::Insert);
}

#[test]
fn parse_config_unknown_key() {
    let lines: Vec<Vec<u8>> = vec![b"initial_temperature=1".to_vec(), b"frobnicate=1".to_vec()];
    assert_eq!(parse_config(&lines), Err(ConfigError::UnknownKey(1)));
}

#[test]
fn parse_config_unparsable_value() {
    let lines: Vec<Vec<u8>> = vec![b"initial_temperature=hot".to_vec()];
    assert_eq!(parse_config(&lines), Err(ConfigError::UnparsableValue(0)));
    let lines2: Vec<Vec<u8>> = vec![b"generation_method=Sideways".to_vec()];
    assert_eq!(parse_config(&lines2), Err(ConfigError::UnparsableValue(0)));
    let lines3: Vec<Vec<u8>> = vec![b"max_iterations=1.5".to_vec()];
    assert_eq!(parse_config(&lines3), Err(ConfigError::UnparsableValue(0)));
}

#[test]
fn parse_config_missing_key() {
    let lines: Vec<Vec<u8>> = vec![b"initial_temperature=100".to_vec()];
    assert_eq!(parse_config(&lines), Err(ConfigError::MissingKey));
}

#[test]
fn parse_config_invalid_value() {
    let lines: Vec<Vec<u8>> = vec![
        b"initial_temperature=0".to_vec(),
        b"minimum_temperature=1".to_vec(),
        b"temperature_decay=0.1".to_vec(),
        b"max_iterations=50".to_vec(),
        b"generation_method=Swap".to_vec(),
        b"cooling_method=LinearMultiplicativeCooling".to_vec(),
    ];
    assert_eq!(parse_config(&lines), Err(ConfigError::InvalidValue));
    // the exponential schedule rejects a decay above one
    let lines2: Vec<Vec<u8>> = vec![
        b"initial_temperature=100".to_vec(),
        b"minimum_temperature=1".to_vec(),
        b"temperature_decay=2".to_vec(),
        b"max_iterations=50".to_vec(),
        b"generation_method=Swap".to_vec(),
        b"cooling_method=ExponentialMultiplicativeCooling".to_vec(),
    ];
    assert_eq!(parse_config(&lines2), Err(ConfigError::InvalidValue));
}

#[test]
fn annealing_unit_square_scenario() {
    let m = calc_points_distance(&unit_square()).unwrap();
    let config = square_config(GenerationMethod::Swap);
    let mut rng = RandomSource::new();
    let outcome = simulation_annealing(&m, &config, &mut rng).unwrap();
    assert_permutation(&outcome.tour, 4);
    assert!(outcome.iterations <= 50);
    assert_eq!(outcome.trace.len() as u64, outcome.iterations - 1);
    assert!(outcome.cost >= 4_000_000);
    match outcome.stop {
        StopReason::Converged => assert!(outcome.final_temperature <= config.minimum_temperature),
        StopReason::Exhausted => assert_eq!(outcome.iterations, config.max_iterations),
    }
}

#[test]
fn annealing_trace_records_decisions() {
    let m = calc_points_distance(&unit_square()).unwrap();
    let config = square_config(GenerationMethod::Swap);
    let mut rng = RandomSource::new();
    let outcome = simulation_annealing(&m, &config, &mut rng).unwrap();
    for (j, e) in outcome.trace.iter().enumerate() {
        assert_eq!(e.iteration as usize, j + 1);
        if e.acceptance_probability >= SCALE {
            assert!(e.accepted);
        }
        if e.acceptance_probability == 0 {
            assert!(!e.accepted);
        }
        if e.delta <= 0 {
            assert!(e.accepted);
        }
    }
    assert_eq!(
        outcome.trace.first().map(|e| e.temperature),
        Some(config.initial_temperature)
    );
}

#[test]
fn annealing_no_op_methods_return_initial_tour() {
    let m = calc_points_distance(&unit_square()).unwrap();
    let mut rng = RandomSource::new();
    let initial = vec![2usize, 0, 3, 1];
    let config = square_config(GenerationMethod::Insert);
    let outcome = anneal_from(&m, &config, initial.clone(), &mut rng);
    assert_eq!(outcome.tour, initial);
    let config2 = square_config(GenerationMethod::Kopt(2));
    let outcome2 = anneal_from(&m, &config2, initial.clone(), &mut rng);
    assert_eq!(outcome2.tour, initial);
}

#[test]
fn annealing_rejects_too_short_tours() {
    let points = vec![vec![0i64, 0]];
    let m = calc_points_distance(&points).unwrap();
    let config = square_config(GenerationMethod::Swap);
    let mut rng = RandomSource::new();
    assert!(matches!(
        simulation_annealing(&m, &config, &mut rng),
        Err(RunError::Precondition)
    ));
    let two = vec![vec![0i64, 0], vec![1_000_000i64, 0]];
    let m2 = calc_points_distance(&two).unwrap();
    let config2 = square_config(GenerationMethod::Reverse);
    assert!(matches!(
        simulation_annealing(&m2, &config2, &mut rng),
        Err(RunError::Precondition)
    ));
}
