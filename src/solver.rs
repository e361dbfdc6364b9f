use vstd::prelude::*;

use crate::degree_map::{reduced, DegreeMap};
use crate::numeric::COEFF_MAX;

verus! {

/// The roots of a reduced equation, exact. Coefficients are in millionths, and
/// every quotient below is free of that unit.
#[derive(Clone, Copy, Debug, PartialEq, Eq, Structural)]
pub enum Solution {
    /// Degree 0 with a zero coefficient: every real number solves it.
    AllReals,
    /// Degree 0 with a nonzero coefficient: no real number solves it.
    NoReal,
    /// Degree 1: the root `num / den`.
    Single { num: i128, den: i128 },
    /// Degree 2 with a null discriminant: the root `num / den`.
    Double { num: i128, den: i128 },
    /// Degree 2 with a positive discriminant: the roots `(b - sqrt(delta)) / den`,
    /// then `(b + sqrt(delta)) / den`.
    TwoReal { b: i128, delta: i128, den: i128 },
    /// Degree 2 with a negative discriminant: the roots `b / den - i sqrt(neg_delta) / den`,
    /// then `b / den + i sqrt(neg_delta) / den`.
    TwoComplex { b: i128, neg_delta: i128, den: i128 },
    /// Degree above 2, which is not solved.
    Unsolved { degree: u32 },
}

impl Solution {
    /// The sentence that introduces the roots.
    pub fn message(&self) -> (r: &'static str)
        ensures
            self is AllReals ==> r@ == "All real numbers are solution"@,
            self is NoReal ==> r@ == "No real number is solution"@,
            self is Single ==> r@ == "The solution is:"@,
            self is Double ==> r@ == "Discriminant is null, the solution is:"@,
            self is TwoReal ==> r@ == "Discriminant is strictly positive, the two solutions are:"@,
            self is TwoComplex ==> r@
                == "Discriminant is strictly negative, the two complex solutions are:"@,
            self is Unsolved ==> r@
                == "The polynomial degree is strictly greater than 2, I can't solve."@,
    {
        match self {
            Solution::AllReals => "All real numbers are solution",
            Solution::NoReal => "No real number is solution",
            Solution::Single { .. } => "The solution is:",
            Solution::Double { .. } => "Discriminant is null, the solution is:",
            Solution::TwoReal { .. } => "Discriminant is strictly positive, the two solutions are:",
            Solution::TwoComplex {
                ..
            } => "Discriminant is strictly negative, the two complex solutions are:",
            Solution::Unsolved {
                ..
            } => "The polynomial degree is strictly greater than 2, I can't solve.",
        }
    }
}

/// `d` is the highest degree present in `m`.
pub open spec fn is_highest(m: Map<u32, int>, d: u32) -> bool {
    m.contains_key(d) && forall|e: u32| #[trigger] m.contains_key(e) ==> e <= d
}

pub open spec fn coeff(m: Map<u32, int>, e: u32) -> int {
    if m.contains_key(e) {
        m[e]
    } else {
        0
    }
}

pub open spec fn discriminant(c0: int, c1: int, c2: int) -> int {
    c1 * c1 - 4 * c2 * c0
}

/// What solving the reduced equation `m` of highest degree `d` gives.
pub open spec fn solution_spec(m: Map<u32, int>, d: u32) -> Solution {
    let c0 = coeff(m, 0);
    let c1 = coeff(m, 1);
    let c2 = coeff(m, 2);
    let delta = discriminant(c0, c1, c2);
    if d == 0 {
        if c0 == 0 {
            Solution::AllReals
        } else {
            Solution::NoReal
        }
    } else if d == 1 {
        Solution::Single { num: -c0 as i128, den: c1 as i128 }
    } else if d == 2 {
        if delta == 0 {
            Solution::Double { num: -c1 as i128, den: (2 * c2) as i128 }
        } else if delta > 0 {
            Solution::TwoReal { b: -c1 as i128, delta: delta as i128, den: (2 * c2) as i128 }
        } else {
            Solution::TwoComplex {
                b: -c1 as i128,
                neg_delta: -delta as i128,
                den: (2 * c2) as i128,
            }
        }
    } else {
        Solution::Unsolved { degree: d }
    }
}

proof fn lemma_delta_bounds(c0: int, c1: int, c2: int)
    requires
        -COEFF_MAX <= c0 <= COEFF_MAX,
        -COEFF_MAX <= c1 <= COEFF_MAX,
        -COEFF_MAX <= c2 <= COEFF_MAX,
    ensures
        0 <= c1 * c1 <= 16_000_000_000_000_000_000_000_000_000_000_000_000,
        -64_000_000_000_000_000_000_000_000_000_000_000_000 <= 4 * c2 * c0
            <= 64_000_000_000_000_000_000_000_000_000_000_000_000,
        -64_000_000_000_000_000_000_000_000_000_000_000_000 <= discriminant(c0, c1, c2)
            <= 80_000_000_000_000_000_000_000_000_000_000_000_000,
{
    let k = COEFF_MAX as int;
    assert(k * k == 16_000_000_000_000_000_000_000_000_000_000_000_000);
    assert(0 <= c1 * c1 <= k * k) by (nonlinear_arith)
        requires
            -k <= c1 <= k,
    ;
    assert(-(k * k) <= c2 * c0 <= k * k) by (nonlinear_arith)
        requires
            -k <= c0 <= k,
            -k <= c2 <= k,
    ;
    assert(4 * c2 * c0 == 4 * (c2 * c0)) by (nonlinear_arith);
}

/// The degree 0 strategy.
pub struct ZeroDegreeSolver {
    pub degree_0: i64,
}

impl ZeroDegreeSolver {
    pub fn new() -> (r: Self)
        ensures
            r.degree_0 == 0,
    {
        ZeroDegreeSolver { degree_0: 0 }
    }

    pub fn solve(&mut self, degrees: &DegreeMap)
        requires
            degrees.wf(),
        ensures
            final(self).degree_0 == degrees@[0],
    {
        proof {
            degrees.lemma_reduced();
        }
        match degrees.get(0) {
            Some(v) => {
                self.degree_0 = v;
            },
            None => {},
        }
    }

    pub fn solution(&self) -> (r: Solution)
        ensures
            r == (if self.degree_0 == 0 {
                Solution::AllReals
            } else {
                Solution::NoReal
            }),
    {
        if self.degree_0 == 0 {
            Solution::AllReals
        } else {
            Solution::NoReal
        }
    }
}

/// The degree 1 strategy.
pub struct OneDegreeSolver {
    pub degree_0: i64,
    pub degree_1: i64,
}

impl OneDegreeSolver {
    pub fn new() -> (r: Self)
        ensures
            r.degree_0 == 0 && r.degree_1 == 0,
    {
        OneDegreeSolver { degree_0: 0, degree_1: 0 }
    }

    pub fn solve(&mut self, degrees: &DegreeMap)
        requires
            degrees.wf(),
        ensures
            final(self).degree_0 == degrees@[0],
            final(self).degree_1 == coeff(degrees@, 1),
    {
        proof {
            degrees.lemma_reduced();
        }
        if let Some(v) = degrees.get(0) {
            self.degree_0 = v;
        }
        self.degree_1 = match degrees.get(1) {
            Some(v) => v,
            None => 0,
        };
    }

    /// The root `-c0 / c1`.
    pub fn solution(&self) -> (r: Solution)
        ensures
            r == (Solution::Single { num: -self.degree_0 as i128, den: self.degree_1 as i128 }),
    {
        Solution::Single { num: -(self.degree_0 as i128), den: self.degree_1 as i128 }
    }
}

/// The degree 2 strategy.
pub struct TwoDegreeSolver {
    pub degree_0: i64,
    pub degree_1: i64,
    pub degree_2: i64,
    pub delta: i128,
}

impl TwoDegreeSolver {
    pub fn new() -> (r: Self)
        ensures
            r.degree_0 == 0 && r.degree_1 == 0 && r.degree_2 == 0 && r.delta == 0,
    {
        TwoDegreeSolver { degree_0: 0, degree_1: 0, degree_2: 0, delta: 0 }
    }

    /// Takes the three coefficients and computes the discriminant `c1² - 4·c2·c0`.
    pub fn solve(&mut self, degrees: &DegreeMap)
        requires
            degrees.wf(),
        ensures
            final(self).degree_0 == degrees@[0],
            final(self).degree_1 == coeff(degrees@, 1),
            final(self).degree_2 == coeff(degrees@, 2),
            final(self).delta == discriminant(
                final(self).degree_0 as int,
                final(self).degree_1 as int,
                final(self).degree_2 as int,
            ),
    {
        proof {
            degrees.lemma_reduced();
        }
        if let Some(v) = degrees.get(0) {
            self.degree_0 = v;
        }
        self.degree_1 = match degrees.get(1) {
            Some(v) => v,
            None => 0,
        };
        self.degree_2 = match degrees.get(2) {
            Some(v) => v,
            None => 0,
        };
        let c0 = self.degree_0 as i128;
        let c1 = self.degree_1 as i128;
        let c2 = self.degree_2 as i128;
        proof {
            lemma_delta_bounds(c0 as int, c1 as int, c2 as int);
        }
        self.delta = c1 * c1 - 4 * c2 * c0;
    }

    pub fn solution(&self) -> (r: Solution)
        requires
            -COEFF_MAX <= self.degree_0 <= COEFF_MAX,
            -COEFF_MAX <= self.degree_1 <= COEFF_MAX,
            -COEFF_MAX <= self.degree_2 <= COEFF_MAX,
            self.delta == discriminant(
                self.degree_0 as int,
                self.degree_1 as int,
                self.degree_2 as int,
            ),
        ensures
            r == (if self.delta == 0 {
                Solution::Double {
                    num: -self.degree_1 as i128,
                    den: (2 * self.degree_2) as i128,
                }
            } else if self.delta > 0 {
                Solution::TwoReal {
                    b: -self.degree_1 as i128,
                    delta: self.delta,
                    den: (2 * self.degree_2) as i128,
                }
            } else {
                Solution::TwoComplex {
                    b: -self.degree_1 as i128,
                    neg_delta: -self.delta as i128,
                    den: (2 * self.degree_2) as i128,
                }
            }),
    {
        proof {
            lemma_delta_bounds(self.degree_0 as int, self.degree_1 as int, self.degree_2 as int);
        }
        let b = -(self.degree_1 as i128);
        let den = 2 * (self.degree_2 as i128);
        if self.delta == 0 {
            Solution::Double { num: b, den }
        } else if self.delta > 0 {
            Solution::TwoReal { b, delta: self.delta, den }
        } else {
            Solution::TwoComplex { b, neg_delta: -self.delta, den }
        }
    }
}

/// The strategy for degrees above 2: it keeps the reduced form and solves nothing.
pub struct MoreDegreeSolver {
    pub degrees: Vec<(u32, i64)>,
}

impl MoreDegreeSolver {
    pub fn new() -> (r: Self)
        ensures
            r.degrees@.len() == 0,
    {
        MoreDegreeSolver { degrees: Vec::new() }
    }

    /// Keeps the entries of `degrees` in ascending order of degree.
    pub fn solve(&mut self, degrees: &DegreeMap)
        requires
            degrees.wf(),
        ensures
            forall|i: int, j: int|
                0 <= i < j < final(self).degrees@.len() ==> final(self).degrees@[i].0
                    < final(self).degrees@[j].0,
            forall|i: int|
                0 <= i < final(self).degrees@.len() ==> #[trigger] degrees@.contains_key(
                    final(self).degrees@[i].0,
                ) && degrees@[final(self).degrees@[i].0] == final(self).degrees@[i].1 as int,
            forall|e: u32|
                #[trigger] degrees@.contains_key(e) ==> exists|i: int|
                    0 <= i < final(self).degrees@.len() && #[trigger] final(self).degrees@[i].0
                        == e,
    {
        self.degrees = degrees.entries();
    }

    /// The highest degree kept, or 0 before `solve`.
    pub fn degree(&self) -> (r: u32)
        ensures
            self.degrees@.len() > 0 ==> r == self.degrees@.last().0,
            self.degrees@.len() == 0 ==> r == 0,
    {
        let n = self.degrees.len();
        if n == 0 {
            0
        } else {
            self.degrees[n - 1].0
        }
    }
}

/// One strategy per class of highest degree.
pub enum Solver {
    Zero(ZeroDegreeSolver),
    One(OneDegreeSolver),
    Two(TwoDegreeSolver),
    More(MoreDegreeSolver),
}

impl Solver {
    /// The class of highest degree that this strategy serves.
    pub open spec fn serves(&self, d: u32) -> bool {
        match self {
            Solver::Zero(_) => d == 0,
            Solver::One(_) => d == 1,
            Solver::Two(_) => d == 2,
            Solver::More(_) => d > 2,
        }
    }

    pub open spec fn solved(&self, m: Map<u32, int>) -> bool {
        match self {
            Solver::Zero(s) => s.degree_0 == m[0],
            Solver::One(s) => s.degree_0 == m[0] && s.degree_1 == coeff(m, 1),
            Solver::Two(s) => s.degree_0 == m[0] && s.degree_1 == coeff(m, 1) && s.degree_2
                == coeff(m, 2) && s.delta == discriminant(
                s.degree_0 as int,
                s.degree_1 as int,
                s.degree_2 as int,
            ),
            Solver::More(s) => {
                &&& s.degrees@.len() > 0
                &&& m.contains_key(s.degrees@.last().0)
                &&& forall|e: u32| #[trigger] m.contains_key(e) ==> e <= s.degrees@.last().0
                &&& forall|i: int, j: int|
                    0 <= i < j < s.degrees@.len() ==> s.degrees@[i].0 < s.degrees@[j].0
                &&& forall|i: int|
                    0 <= i < s.degrees@.len() ==> #[trigger] m.contains_key(s.degrees@[i].0)
                        && m[s.degrees@[i].0] == s.degrees@[i].1 as int
                &&& forall|e: u32|
                    #[trigger] m.contains_key(e) ==> exists|i: int|
                        0 <= i < s.degrees@.len() && #[trigger] s.degrees@[i].0 == e
            },
        }
    }

    pub fn solve(&mut self, degrees: &DegreeMap)
        requires
            degrees.wf(),
        ensures
            final(self).solved(degrees@),
            forall|d: u32| old(self).serves(d) ==> #[trigger] final(self).serves(d),
    {
        match self {
            Solver::Zero(s) => s.solve(degrees),
            Solver::One(s) => s.solve(degrees),
            Solver::Two(s) => s.solve(degrees),
            Solver::More(s) => {
                s.solve(degrees);
                proof {
                    degrees.lemma_reduced();
                    let t = s.degrees@;
                    let k = choose|i: int| 0 <= i < t.len() && #[trigger] t[i].0 == 0u32;
                    assert(degrees@.contains_key(t[t.len() - 1].0));
                    assert forall|e: u32| #[trigger] degrees@.contains_key(e) implies e
                        <= t.last().0 by {
                        let i = choose|i: int| 0 <= i < t.len() && #[trigger] t[i].0 == e;
                        if i < t.len() - 1 {
                            assert(t[i].0 < t[t.len() - 1].0);
                        }
                    }
                }
            },
        }
    }

    /// The roots, once `solve` has run on the equation this strategy serves.
    #[verifier::spinoff_prover]
    pub fn solution(&self) -> (r: Solution)
        requires
            exists|m: Map<u32, int>, d: u32| is_highest(m, d) && reduced(m) && self.serves(d)
                && self.solved(m),
        ensures
            forall|m: Map<u32, int>, d: u32|
                is_highest(m, d) && reduced(m) && self.serves(d) && self.solved(m) ==> r
                    == solution_spec(m, d),
    {
        let ghost (m, d) = choose|m: Map<u32, int>, d: u32|
            is_highest(m, d) && reduced(m) && self.serves(d) && self.solved(m);
        let r = match self {
            Solver::Zero(s) => s.solution(),
            Solver::One(s) => s.solution(),
            Solver::Two(s) => s.solution(),
            Solver::More(s) => Solution::Unsolved { degree: s.degree() },
        };
        assert forall|m2: Map<u32, int>, d2: u32|
            is_highest(m2, d2) && reduced(m2) && self.serves(d2) && self.solved(
                m2,
            ) implies r == solution_spec(m2, d2) by {
            assert(m2.contains_key(0));
            assert(m.contains_key(0));
            if d2 == 1 {
                assert(m2.contains_key(1));
            }
            if d2 == 2 {
                assert(m2.contains_key(2));
            }
        }
        r
    }
}

/// Picks the strategy for the highest degree present in `degrees`, not yet solved.
pub fn choose_solver(degrees: &DegreeMap) -> (r: Solver)
    requires
        degrees.wf(),
    ensures
        forall|d: u32| is_highest(degrees@, d) ==> r.serves(d),
{
    let h = degrees.highest_degree();
    if h == 0 {
        Solver::Zero(ZeroDegreeSolver::new())
    } else if h == 1 {
        Solver::One(OneDegreeSolver::new())
    } else if h == 2 {
        Solver::Two(TwoDegreeSolver::new())
    } else {
        Solver::More(MoreDegreeSolver::new())
    }
}

/// Solves a reduced equation: the strategy of its highest degree, solved.
pub fn solve_equation(degrees: &DegreeMap) -> (r: Solution)
    requires
        degrees.wf(),
    ensures
        forall|d: u32| is_highest(degrees@, d) ==> r == solution_spec(degrees@, d),
{
    let mut solver = choose_solver(degrees);
    solver.solve(degrees);
    let h = degrees.highest_degree();
    proof {
        degrees.lemma_reduced();
        assert(solver.serves(h));
        assert(is_highest(degrees@, h) && reduced(degrees@) && solver.serves(h) && solver.solved(
            degrees@,
        ));
    }
    let r = solver.solution();
    proof {
        assert forall|d: u32| is_highest(degrees@, d) implies r == solution_spec(degrees@, d) by {
            assert(d <= h && h <= d);
        }
    }
    r
}

} // verus!

verus! {

/// The root of an equation of degree 1 solves it: `c1 * x + c0 = 0` for
/// `x = num / den`, with `den` nonzero.
pub proof fn lemma_single_root(m: Map<u32, int>)
    requires
        reduced(m),
        is_highest(m, 1),
    ensures
        solution_spec(m, 1) matches Solution::Single { num, den } && den != 0 && coeff(m, 1)
            * num + coeff(m, 0) * den == 0,
{
    let c0 = coeff(m, 0);
    let c1 = coeff(m, 1);
    assert(c1 * -c0 + c0 * c1 == 0) by (nonlinear_arith);
}

/// With a null discriminant, `x = num / den` solves `c2 x² + c1 x + c0 = 0`,
/// with `den` nonzero (both sides multiplied by `den²`).
#[verifier::spinoff_prover]
pub proof fn lemma_double_root(m: Map<u32, int>)
    requires
        reduced(m),
        is_highest(m, 2),
        discriminant(coeff(m, 0), coeff(m, 1), coeff(m, 2)) == 0,
    ensures
        solution_spec(m, 2) matches Solution::Double { num, den } && den != 0 && coeff(m, 2)
            * num * num + coeff(m, 1) * num * den + coeff(m, 0) * den * den == 0,
{
    let c0 = coeff(m, 0);
    let c1 = coeff(m, 1);
    let c2 = coeff(m, 2);
    lemma_delta_bounds(c0, c1, c2);
    assert(c2 * (-c1) * (-c1) + c1 * (-c1) * (2 * c2) + c0 * (2 * c2) * (2 * c2) == -c2 * (c1
        * c1 - 4 * c2 * c0)) by (nonlinear_arith);
}

/// With a positive discriminant, both `(b - r) / den` and `(b + r) / den` solve
/// `c2 x² + c1 x + c0 = 0` for a square root `r` of the discriminant, with `den`
/// nonzero (both sides multiplied by `den²`).
#[verifier::spinoff_prover]
pub proof fn lemma_two_real_roots(m: Map<u32, int>, r: int)
    requires
        reduced(m),
        is_highest(m, 2),
        discriminant(coeff(m, 0), coeff(m, 1), coeff(m, 2)) > 0,
        r * r == discriminant(coeff(m, 0), coeff(m, 1), coeff(m, 2)),
    ensures
        solution_spec(m, 2) matches Solution::TwoReal { b, delta, den } && den != 0 && delta
            == r * r && coeff(m, 2) * (b - r) * (b - r) + coeff(m, 1) * (b - r) * den + coeff(m, 0)
            * den * den == 0 && coeff(m, 2) * (b + r) * (b + r) + coeff(m, 1) * (b + r) * den
            + coeff(m, 0) * den * den == 0,
{
    let c0 = coeff(m, 0);
    let c1 = coeff(m, 1);
    let c2 = coeff(m, 2);
    lemma_delta_bounds(c0, c1, c2);
    lemma_root_identity(c0, c1, c2, -c1 - r);
    lemma_root_identity(c0, c1, c2, -c1 + r);
    assert((-c1 - r) * (-c1 - r) + 2 * c1 * (-c1 - r) == r * r - c1 * c1) by (nonlinear_arith);
    assert((-c1 + r) * (-c1 + r) + 2 * c1 * (-c1 + r) == r * r - c1 * c1) by (nonlinear_arith);
    assert(4 * c2 * c0 == 4 * c0 * c2) by (nonlinear_arith);
    assert(c2 * 0 == 0);
    let b = -c1;
    let den = 2 * c2;
    assert(m.contains_key(2));
    assert(c2 != 0);
    assert(c2 * (b - r) * (b - r) + c1 * (b - r) * den + c0 * den * den == 0);
    assert(c2 * (b + r) * (b + r) + c1 * (b + r) * den + c0 * den * den == 0);
}

/// With a negative discriminant, `x = (b ± i s) / den` solves
/// `c2 x² + c1 x + c0 = 0` for a square root `s` of `neg_delta`: the real and the
/// imaginary part of `c2 (b ± i s)² + c1 (b ± i s) den + c0 den²` are both zero.
#[verifier::spinoff_prover]
pub proof fn lemma_complex_roots(m: Map<u32, int>, s: int)
    requires
        reduced(m),
        is_highest(m, 2),
        discriminant(coeff(m, 0), coeff(m, 1), coeff(m, 2)) < 0,
        s * s == -discriminant(coeff(m, 0), coeff(m, 1), coeff(m, 2)),
    ensures
        solution_spec(m, 2) matches Solution::TwoComplex { b, neg_delta, den } && den != 0
            && neg_delta == s * s && coeff(m, 2) * (b * b - s * s) + coeff(m, 1) * b * den + coeff(
            m,
            0,
        ) * den * den == 0 && 2 * coeff(m, 2) * b * s + coeff(m, 1) * s * den == 0,
{
    let c0 = coeff(m, 0);
    let c1 = coeff(m, 1);
    let c2 = coeff(m, 2);
    lemma_delta_bounds(c0, c1, c2);
    assert(m.contains_key(2));
    let b = -c1;
    let den = 2 * c2;
    let x = c1 * c1;
    let y = s * s;
    assert(b * b == x) by (nonlinear_arith)
        requires
            b == -c1,
            x == c1 * c1,
    ;
    assert(c2 * (x - y) == c2 * x - c2 * y) by (nonlinear_arith);
    assert(c1 * b * den == -2 * (c2 * x)) by (nonlinear_arith)
        requires
            b == -c1,
            den == 2 * c2,
            x == c1 * c1,
    ;
    assert(c0 * den * den == 4 * (c2 * (c2 * c0))) by (nonlinear_arith)
        requires
            den == 2 * c2,
    ;
    assert(4 * c2 * c0 == 4 * (c2 * c0)) by (nonlinear_arith);
    assert(y == 4 * (c2 * c0) - x);
    assert(c2 * y == 4 * (c2 * (c2 * c0)) - c2 * x) by (nonlinear_arith)
        requires
            y == 4 * (c2 * c0) - x,
    ;
    assert(c2 * (b * b - s * s) == c2 * (x - y));
    assert(c2 * (b * b - s * s) + c1 * b * den + c0 * den * den == 0);
    assert(2 * c2 * b * s + c1 * s * den == 0) by (nonlinear_arith)
        requires
            b == -c1,
            den == 2 * c2,
    ;
}

proof fn lemma_root_identity(c0: int, c1: int, c2: int, x: int)
    ensures
        c2 * x * x + c1 * x * (2 * c2) + c0 * (2 * c2) * (2 * c2) == c2 * (x * x + 2 * c1 * x + 4
            * c0 * c2),
{
    assert(c2 * x * x + c1 * x * (2 * c2) + c0 * (2 * c2) * (2 * c2) == c2 * (x * x + 2 * c1 * x
        + 4 * c0 * c2)) by (nonlinear_arith);
}

} // verus!
