use computor_v1::reduce;
use computor_v1::solver::{
    choose_solver, solve_equation, MoreDegreeSolver, OneDegreeSolver, Solution, Solver,
    TwoDegreeSolver, ZeroDegreeSolver,
};

fn solution_of(text: &str) -> Solution {
    solve_equation(&reduce(text).unwrap())
}

#[test]
fn identity_has_every_real_as_solution() {
    let s = solution_of("5 * X^0 = 5 * X^0");
    assert_eq!(s, Solution::AllReals);
    assert_eq!(s.message(), "All real numbers are solution");
}

#[test]
fn contradiction_has_no_solution() {
    let s = solution_of("X = X + 1");
    assert_eq!(s, Solution::NoReal);
    assert_eq!(s.message(), "No real number is solution");
}

#[test]
fn linear_root() {
    let s = solution_of("2 * X + 4 = 0");
    assert_eq!(s, Solution::Single { num: -4_000_000, den: 2_000_000 });
    assert_eq!(s.message(), "The solution is:");
}

#[test]
fn null_discriminant_gives_one_root() {
    let s = solution_of("X^2 - 2 * X^1 + 1 * X^0 = 0");
    assert_eq!(s, Solution::Double { num: 2_000_000, den: 2_000_000 });
    if let Solution::Double { num, den } = s {
        assert_eq!(num as f64 / den as f64, 1.0);
    }
    assert_eq!(s.message(), "Discriminant is null, the solution is:");
}

#[test]
fn positive_discriminant_gives_two_roots_minus_first() {
    let s = solution_of("X^2 - 1 = 0");
    assert_eq!(s, Solution::TwoReal { b: 0, delta: 4_000_000_000_000, den: 2_000_000 });
    if let Solution::TwoReal { b, delta, den } = s {
        let r = (delta as f64).sqrt();
        assert_eq!((b as f64 - r) / den as f64, -1.0);
        assert_eq!((b as f64 + r) / den as f64, 1.0);
    }
    assert_eq!(s.message(), "Discriminant is strictly positive, the two solutions are:");
}

#[test]
fn negative_discriminant_gives_complex_roots() {
    let s = solution_of("X^2 + X^1 + 1 * X^0 = 0");
    assert_eq!(
        s,
        Solution::TwoComplex { b: -1_000_000, neg_delta: 3_000_000_000_000, den: 2_000_000 }
    );
    if let Solution::TwoComplex { b, neg_delta, den } = s {
        assert_eq!(b as f64 / den as f64, -0.5);
        let imag = (neg_delta as f64).sqrt() / den as f64;
        assert!((imag - 0.8660254).abs() < 1e-6);
    }
    assert_eq!(s.message(), "Discriminant is strictly negative, the two complex solutions are:");
}

#[test]
fn higher_degree_is_not_solved() {
    let s = solution_of("X^3 = 0");
    assert_eq!(s, Solution::Unsolved { degree: 3 });
    assert_eq!(s.message(), "The polynomial degree is strictly greater than 2, I can't solve.");
}

#[test]
fn dispatch_by_highest_degree() {
    assert!(matches!(choose_solver(&reduce("1 = 0").unwrap()), Solver::Zero(_)));
    assert!(matches!(choose_solver(&reduce("X = 0").unwrap()), Solver::One(_)));
    assert!(matches!(choose_solver(&reduce("X^2 + X^7 = X^7").unwrap()), Solver::Two(_)));
    assert!(matches!(choose_solver(&reduce("X^5 = 0").unwrap()), Solver::More(_)));
}

#[test]
fn strategies_start_at_zero_and_take_the_coefficients() {
    let d = reduce("3 * X^2 + 2 * X - 1 = 0").unwrap();
    let mut two = TwoDegreeSolver::new();
    assert_eq!((two.degree_0, two.degree_1, two.degree_2, two.delta), (0, 0, 0, 0));
    two.solve(&d);
    assert_eq!((two.degree_0, two.degree_1, two.degree_2), (-1_000_000, 2_000_000, 3_000_000));
    assert_eq!(two.delta, 16_000_000_000_000);
    let mut one = OneDegreeSolver::new();
    one.solve(&reduce("4 * X = 2").unwrap());
    assert_eq!(one.solution(), Solution::Single { num: 2_000_000, den: 4_000_000 });
    let mut zero = ZeroDegreeSolver::new();
    assert_eq!(zero.degree_0, 0);
    zero.solve(&reduce("3 = 1").unwrap());
    assert_eq!(zero.degree_0, 2_000_000);
    let mut more = MoreDegreeSolver::new();
    assert_eq!(more.degree(), 0);
    more.solve(&reduce("X^4 + X = 2").unwrap());
    assert_eq!(more.degrees, vec![(0, -2_000_000), (1, 1_000_000), (4, 1_000_000)]);
    assert_eq!(more.degree(), 4);
}

#[test]
fn roots_solve_their_equations() {
    // 2 X + 4 = 0: c1 * num + c0 * den == 0
    if let Solution::Single { num, den } = solution_of("2 * X + 4 = 0") {
        assert_eq!(2_000_000 * num + 4_000_000 * den, 0);
    } else {
        panic!("expected one root");
    }
    // X^2 - 2X + 1 = 0: c2 num² + c1 num den + c0 den² == 0
    if let Solution::Double { num, den } = solution_of("X^2 - 2 * X + 1 = 0") {
        let (c0, c1, c2): (i128, i128, i128) = (1_000_000, -2_000_000, 1_000_000);
        assert_eq!(c2 * num * num + c1 * num * den + c0 * den * den, 0);
    } else {
        panic!("expected a double root");
    }
    // X^2 - X - 2 = 0: roots (b ∓ r) / den with r² == delta
    if let Solution::TwoReal { b, delta, den } = solution_of("X^2 - X - 2 = 0") {
        let r: i128 = 3_000_000;
        assert_eq!(r * r, delta);
        let (c0, c1, c2): (i128, i128, i128) = (-2_000_000, -1_000_000, 1_000_000);
        for x in [b - r, b + r] {
            assert_eq!(c2 * x * x + c1 * x * den + c0 * den * den, 0);
        }
        assert_eq!((b - r) as f64 / den as f64, -1.0);
        assert_eq!((b + r) as f64 / den as f64, 2.0);
    } else {
        panic!("expected two roots");
    }
}
