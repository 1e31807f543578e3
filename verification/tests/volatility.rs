use csvglicko::solver::{Failure, Limits, Move, Search};

/// The inputs of one volatility search, on the internal scale.
struct Case {
    volatility: f64,
    delta_squared: f64,
    deviation_squared: f64,
    variance: f64,
    tau: f64,
    tolerance: f64,
}

fn residual(x: f64, case: &Case) -> f64 {
    let i = (x.exp() * (case.delta_squared - case.deviation_squared - case.variance - x.exp()))
        / (2.0 * (case.deviation_squared + case.variance + x.exp()).powi(2));
    let j = (x - case.volatility.powi(2).ln()) / case.tau.powi(2);
    i - j
}

/// Carries out what a search orders, in machine reals, and answers its
/// questions. Returns the new volatility and the number of answers given.
fn solve(case: &Case, limits: Limits) -> (Result<f64, Failure>, u64) {
    let mut a = case.volatility.powi(2).ln();
    let (mut b, mut fa, mut fb, mut c, mut fc) = (0.0, 0.0, 0.0, 0.0, 0.0);
    let mut search = Search::new(limits);
    let mut answers = 1;
    let mut answer = case.delta_squared > case.deviation_squared + case.variance;
    loop {
        let reply = search.advance(answer);
        match reply {
            Move::BracketByExcess => {
                b = (case.delta_squared - case.deviation_squared - case.variance).ln();
                fa = residual(a, case);
                fb = residual(b, case);
            }
            Move::Probe { .. } => {}
            Move::BracketByProbe { k } => {
                b = a - f64::from(k) * case.tau;
                fa = residual(a, case);
                fb = residual(b, case);
            }
            Move::Secant => {
                c = a + (a - b) * fa / (fb - fa);
                fc = residual(c, case);
            }
            Move::Replace => {
                a = b;
                fa = fb;
                b = c;
                fb = fc;
            }
            Move::Halve => {
                fa /= 2.0;
                b = c;
                fb = fc;
            }
            Move::Finish => return (Ok((a / 2.0).exp()), answers),
            Move::Abandon { failure } => return (Err(failure), answers),
        }
        answer = match reply {
            Move::Probe { k } => residual(a - f64::from(k) * case.tau, case) < 0.0,
            Move::Secant => fc * fb <= 0.0,
            _ => (b - a).abs() > case.tolerance,
        };
        answers += 1;
    }
}

fn usual_limits() -> Limits {
    Limits { probes: 1000, steps: 1000 }
}

#[test]
fn published_example_gives_the_published_volatility() {
    let case = Case {
        volatility: 0.06,
        delta_squared: 0.4834_f64.powi(2),
        deviation_squared: 1.1513_f64.powi(2),
        variance: 1.7785,
        tau: 0.5,
        tolerance: 0.000001,
    };
    let (result, answers) = solve(&case, usual_limits());
    let volatility = result.unwrap();
    assert!((volatility - 0.05999).abs() < 0.00001);
    assert!(residual(2.0 * volatility.ln(), &case).abs() < 0.0001);
    assert!(answers <= Search::budget(usual_limits()));
}

#[test]
fn excess_branch_finds_a_root_of_the_residual() {
    let case = Case {
        volatility: 0.06,
        delta_squared: 9.0,
        deviation_squared: 1.0,
        variance: 1.0,
        tau: 0.5,
        tolerance: 0.000001,
    };
    assert!(case.delta_squared > case.deviation_squared + case.variance);
    let volatility = solve(&case, usual_limits()).0.unwrap();
    assert!(volatility > 0.06);
    assert!(residual(2.0 * volatility.ln(), &case).abs() < 0.0001);
}

#[test]
fn probing_branch_finds_a_root_of_the_residual() {
    let case = Case {
        volatility: 0.09,
        delta_squared: 0.01,
        deviation_squared: 4.0,
        variance: 4.5,
        tau: 1.2,
        tolerance: 0.000001,
    };
    assert!(case.delta_squared < case.deviation_squared + case.variance);
    let volatility = solve(&case, usual_limits()).0.unwrap();
    assert!(volatility > 0.0 && volatility < 0.09);
    assert!(residual(2.0 * volatility.ln(), &case).abs() < 0.0001);
}

#[test]
fn negative_tau_ends_without_a_bracket() {
    let case = Case {
        volatility: 0.06,
        delta_squared: 0.2,
        deviation_squared: 1.3,
        variance: 1.8,
        tau: -0.5,
        tolerance: 0.000001,
    };
    let limits = Limits { probes: 50, steps: 50 };
    let (result, answers) = solve(&case, limits);
    assert_eq!(result, Err(Failure::BracketNotFound));
    assert_eq!(answers, 51);
}

#[test]
fn negative_tolerance_ends_without_convergence() {
    let case = Case {
        volatility: 0.06,
        delta_squared: 0.4834_f64.powi(2),
        deviation_squared: 1.1513_f64.powi(2),
        variance: 1.7785,
        tau: 0.5,
        tolerance: -1.0,
    };
    let limits = Limits { probes: 50, steps: 50 };
    let (result, answers) = solve(&case, limits);
    assert_eq!(result, Err(Failure::NotConverged));
    assert!(answers <= Search::budget(limits));
}

#[test]
fn tiny_tau_still_ends_within_the_budget() {
    let case = Case {
        volatility: 0.06,
        delta_squared: 0.4834_f64.powi(2),
        deviation_squared: 1.1513_f64.powi(2),
        variance: 1.7785,
        tau: 0.000000000001,
        tolerance: 0.000001,
    };
    let limits = Limits { probes: 20, steps: 20 };
    let (_, answers) = solve(&case, limits);
    assert!(answers <= Search::budget(limits));
}
