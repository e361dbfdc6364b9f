use vstd::prelude::*;

use crate::degree_map::{add_term, reduced, seeded, sum_at, DegreeMap};
use crate::lexer::Lexem;
use crate::numeric::{COEFF_MAX, SCALE};

verus! {

/// Why a token sequence is not an equation.
#[derive(Clone, Copy, Debug, PartialEq, Eq, Structural)]
pub enum ParseError {
    /// A token that the grammar does not allow where it stands.
    UnexpectedToken(Lexem),
    /// An exponent that is not an integer from 0 to `u32::MAX`.
    NotUIntegerDegree(Lexem),
    /// The tokens ran out before the equation was complete.
    NoTokenProvided,
    /// A coefficient would leave the coefficient bound; carries the first token of
    /// the term that was being added.
    CoefficientOverflow(Lexem),
}

/// The side of the equation a term stands on.
#[derive(Clone, Copy, Debug, PartialEq, Eq, Structural)]
pub enum Member {
    Left,
    Right,
}

/// The token at `p`, or `NoTokenProvided` past the end.
pub open spec fn next_tok(ts: Seq<Lexem>, p: int) -> Result<Lexem, ParseError> {
    if 0 <= p < ts.len() {
        Ok(ts[p])
    } else {
        Err(ParseError::NoTokenProvided)
    }
}

/// A number of millionths that is a whole number from 0 to `u32::MAX`.
pub open spec fn integral_degree(v: i64) -> bool {
    v >= 0 && v % SCALE == 0 && v / SCALE <= u32::MAX
}

/// `degree := '^' Number | ε`: the position after it and the exponent (1 when absent).
pub open spec fn degree_spec(ts: Seq<Lexem>, p: int) -> Result<(int, u32), ParseError> {
    match next_tok(ts, p) {
        Err(e) => Err(e),
        Ok(Lexem::Power { .. }) => match next_tok(ts, p + 1) {
            Err(e) => Err(e),
            Ok(t) => match t {
                Lexem::Number { value, .. } => if integral_degree(value) {
                    Ok((p + 2, (value / SCALE) as u32))
                } else {
                    Err(ParseError::NotUIntegerDegree(t))
                },
                _ => Err(ParseError::UnexpectedToken(t)),
            },
        },
        Ok(_) => Ok((p, 1)),
    }
}

/// `termTail := '*' Variable degree | Variable degree | ε`, with exponent 0 when absent.
pub open spec fn term_end_spec(ts: Seq<Lexem>, p: int) -> Result<(int, u32), ParseError> {
    match next_tok(ts, p) {
        Err(e) => Err(e),
        Ok(Lexem::Mult { .. }) => match next_tok(ts, p + 1) {
            Err(e) => Err(e),
            Ok(Lexem::X { .. }) => degree_spec(ts, p + 2),
            Ok(t) => Err(ParseError::UnexpectedToken(t)),
        },
        Ok(Lexem::X { .. }) => degree_spec(ts, p + 1),
        Ok(_) => Ok((p, 0)),
    }
}

/// `term := Number termTail | Variable degree`: the position after it, its
/// coefficient in millionths and its exponent.
pub open spec fn term_spec(ts: Seq<Lexem>, p: int) -> Result<(int, int, u32), ParseError> {
    match next_tok(ts, p) {
        Err(e) => Err(e),
        Ok(Lexem::Number { value, .. }) => if value < -COEFF_MAX || value > COEFF_MAX {
            Err(ParseError::CoefficientOverflow(ts[p]))
        } else {
            match term_end_spec(ts, p + 1) {
                Err(e) => Err(e),
                Ok((q, d)) => Ok((q, value as int, d)),
            }
        },
        Ok(Lexem::X { .. }) => match degree_spec(ts, p + 1) {
            Err(e) => Err(e),
            Ok((q, d)) => Ok((q, SCALE as int, d)),
        },
        Ok(t) => Err(ParseError::UnexpectedToken(t)),
    }
}

/// Terms of the right side are subtracted.
pub open spec fn side_sign(member: Member) -> int {
    match member {
        Member::Left => 1,
        Member::Right => -1,
    }
}

/// Parses the term at `p` and adds it, with `sign` and the side's sign, to `m`.
pub open spec fn apply_term(
    ts: Seq<Lexem>,
    p: int,
    m: Map<u32, int>,
    member: Member,
    sign: int,
) -> Result<(int, Map<u32, int>), ParseError> {
    match term_spec(ts, p) {
        Err(e) => Err(e),
        Ok((q, c, d)) => {
            let coeff = side_sign(member) * sign * c;
            if -COEFF_MAX <= sum_at(m, d, coeff) <= COEFF_MAX {
                Ok((q, add_term(m, d, coeff)))
            } else {
                Err(ParseError::CoefficientOverflow(ts[p]))
            }
        },
    }
}

/// `( ('+' | '-') term )*`, from `p` on.
pub open spec fn expr_tail(ts: Seq<Lexem>, p: int, m: Map<u32, int>, member: Member) -> Result<
    (int, Map<u32, int>),
    ParseError,
>
    decreases ts.len() - p,
{
    match next_tok(ts, p) {
        Err(e) => Err(e),
        Ok(t) => if t is Plus || t is Minus {
            match apply_term(ts, p + 1, m, member, if t is Minus { -1 } else { 1 }) {
                Err(e) => Err(e),
                Ok((q, m2)) => if q <= p || q > ts.len() {
                    // never taken: a term takes at least one token
                    Err(ParseError::NoTokenProvided)
                } else {
                    expr_tail(ts, q, m2, member)
                },
            }
        } else {
            Ok((p, m))
        },
    }
}

/// `expression := ['+' | '-'] term ( ('+' | '-') term )*`, from `p` on.
pub open spec fn expression_spec(ts: Seq<Lexem>, p: int, m: Map<u32, int>, member: Member) -> Result<
    (int, Map<u32, int>),
    ParseError,
> {
    match next_tok(ts, p) {
        Err(e) => Err(e),
        Ok(t) => {
            let start = if t is Plus || t is Minus {
                p + 1
            } else {
                p
            };
            match apply_term(ts, start, m, member, if t is Minus { -1 } else { 1 }) {
                Err(e) => Err(e),
                Ok((q, m2)) => expr_tail(ts, q, m2, member),
            }
        },
    }
}

/// `equation := expression '=' expression End`: the reduced equation, every term
/// moved to the left side.
pub open spec fn equation_spec(ts: Seq<Lexem>) -> Result<Map<u32, int>, ParseError> {
    match expression_spec(ts, 0, seeded(), Member::Left) {
        Err(e) => Err(e),
        Ok((p, m1)) => match next_tok(ts, p) {
            Err(e) => Err(e),
            Ok(t) => if !(t is Equal) {
                Err(ParseError::UnexpectedToken(t))
            } else {
                match expression_spec(ts, p + 1, m1, Member::Right) {
                    Err(e) => Err(e),
                    Ok((q, m2)) => match next_tok(ts, q) {
                        Err(e) => Err(e),
                        Ok(t2) => if t2 is End {
                            Ok(m2)
                        } else {
                            Err(ParseError::UnexpectedToken(t2))
                        },
                    },
                }
            },
        },
    }
}

fn next_lexem(ts: &Vec<Lexem>, p: usize) -> (r: Result<Lexem, ParseError>)
    ensures
        r == next_tok(ts@, p as int),
        r is Ok ==> p < ts@.len() <= usize::MAX,
{
    if p < ts.len() {
        Ok(ts[p])
    } else {
        Err(ParseError::NoTokenProvided)
    }
}

fn degree(ts: &Vec<Lexem>, p: usize) -> (r: Result<(usize, u32), ParseError>)
    ensures
        match r {
            Ok((q, d)) => degree_spec(ts@, p as int) == Ok::<(int, u32), ParseError>((q as int, d))
                && p <= q <= ts@.len(),
            Err(e) => degree_spec(ts@, p as int) == Err::<(int, u32), ParseError>(e),
        },
{
    match next_lexem(ts, p)? {
        Lexem::Power { .. } => {
            let t = next_lexem(ts, p + 1)?;
            match t {
                Lexem::Number { value, .. } => {
                    if value >= 0 && value % SCALE == 0 && value / SCALE <= u32::MAX as i64 {
                        Ok((p + 2, (value / SCALE) as u32))
                    } else {
                        Err(ParseError::NotUIntegerDegree(t))
                    }
                },
                _ => Err(ParseError::UnexpectedToken(t)),
            }
        },
        _ => Ok((p, 1)),
    }
}

fn term_end(ts: &Vec<Lexem>, p: usize) -> (r: Result<(usize, u32), ParseError>)
    ensures
        match r {
            Ok((q, d)) => term_end_spec(ts@, p as int) == Ok::<(int, u32), ParseError>(
                (q as int, d),
            ) && p <= q <= ts@.len(),
            Err(e) => term_end_spec(ts@, p as int) == Err::<(int, u32), ParseError>(e),
        },
{
    match next_lexem(ts, p)? {
        Lexem::Mult { .. } => {
            let t = next_lexem(ts, p + 1)?;
            match t {
                Lexem::X { .. } => degree(ts, p + 2),
                _ => Err(ParseError::UnexpectedToken(t)),
            }
        },
        Lexem::X { .. } => degree(ts, p + 1),
        _ => Ok((p, 0)),
    }
}

fn term(ts: &Vec<Lexem>, p: usize) -> (r: Result<(usize, i64, u32), ParseError>)
    ensures
        match r {
            Ok((q, c, d)) => term_spec(ts@, p as int) == Ok::<(int, int, u32), ParseError>(
                (q as int, c as int, d),
            ) && p < q <= ts@.len() && -COEFF_MAX <= c <= COEFF_MAX,
            Err(e) => term_spec(ts@, p as int) == Err::<(int, int, u32), ParseError>(e),
        },
{
    let t = next_lexem(ts, p)?;
    match t {
        Lexem::Number { value, .. } => {
            if value < -COEFF_MAX || value > COEFF_MAX {
                return Err(ParseError::CoefficientOverflow(t));
            }
            let (q, d) = term_end(ts, p + 1)?;
            Ok((q, value, d))
        },
        Lexem::X { .. } => {
            let (q, d) = degree(ts, p + 1)?;
            Ok((q, SCALE, d))
        },
        _ => Err(ParseError::UnexpectedToken(t)),
    }
}

fn add_term_exec(
    ts: &Vec<Lexem>,
    p: usize,
    degrees: &mut DegreeMap,
    member: Member,
    negative: bool,
) -> (r: Result<usize, ParseError>)
    requires
        old(degrees).wf(),
    ensures
        final(degrees).wf(),
        match r {
            Ok(q) => apply_term(ts@, p as int, old(degrees)@, member, if negative { -1 } else { 1 })
                == Ok::<(int, Map<u32, int>), ParseError>((q as int, final(degrees)@)) && p < q
                <= ts@.len(),
            Err(e) => apply_term(ts@, p as int, old(degrees)@, member, if negative { -1 } else { 1 })
                == Err::<(int, Map<u32, int>), ParseError>(e),
        },
{
    let (q, c, d) = term(ts, p)?;
    let flip = match member {
        Member::Left => negative,
        Member::Right => !negative,
    };
    let coeff = if flip {
        -c
    } else {
        c
    };
    proof {
        if negative {
            assert(side_sign(member) * -1int * c == coeff);
        } else {
            assert(side_sign(member) * 1int * c == coeff);
        }
    }
    if degrees.add(d, coeff) {
        Ok(q)
    } else {
        Err(ParseError::CoefficientOverflow(ts[p]))
    }
}

#[verifier::spinoff_prover]
fn expression(ts: &Vec<Lexem>, p: usize, degrees: &mut DegreeMap, member: Member) -> (r: Result<
    usize,
    ParseError,
>)
    requires
        old(degrees).wf(),
    ensures
        final(degrees).wf(),
        match r {
            Ok(q) => expression_spec(ts@, p as int, old(degrees)@, member) == Ok::<
                (int, Map<u32, int>),
                ParseError,
            >((q as int, final(degrees)@)) && q <= ts@.len(),
            Err(e) => expression_spec(ts@, p as int, old(degrees)@, member) == Err::<
                (int, Map<u32, int>),
                ParseError,
            >(e),
        },
{
    let t = next_lexem(ts, p)?;
    let (start, negative) = match t {
        Lexem::Plus { .. } => (p + 1, false),
        Lexem::Minus { .. } => (p + 1, true),
        _ => (p, false),
    };
    let mut q = add_term_exec(ts, start, degrees, member, negative)?;
    let ghost m1 = degrees@;
    let ghost q1 = q;
    assert(expression_spec(ts@, p as int, old(degrees)@, member) == expr_tail(ts@, q1 as int, m1, member));
    loop
        invariant
            degrees.wf(),
            q <= ts@.len(),
            expr_tail(ts@, q1 as int, m1, member) == expr_tail(ts@, q as int, degrees@, member),
            expression_spec(ts@, p as int, old(degrees)@, member) == expr_tail(
                ts@,
                q1 as int,
                m1,
                member,
            ),
        decreases ts@.len() - q,
    {
        let t = match next_lexem(ts, q) {
            Ok(t) => t,
            Err(e) => {
                assert(expr_tail(ts@, q as int, degrees@, member) == Err::<(int, Map<u32, int>), ParseError>(e));
                return Err(e);
            },
        };
        let negative = match t {
            Lexem::Plus { .. } => false,
            Lexem::Minus { .. } => true,
            _ => {
                assert(expr_tail(ts@, q as int, degrees@, member) == Ok::<(int, Map<u32, int>), ParseError>((q as int, degrees@)));
                return Ok(q);
            },
        };
        let ghost q0 = q;
        let ghost m0 = degrees@;
        match add_term_exec(ts, q + 1, degrees, member, negative) {
            Ok(q2) => {
                assert(expr_tail(ts@, q0 as int, m0, member) == expr_tail(ts@, q2 as int, degrees@, member));
                q = q2;
            },
            Err(e) => {
                assert(expr_tail(ts@, q0 as int, m0, member) == Err::<(int, Map<u32, int>), ParseError>(e));
                return Err(e);
            },
        }
    }
}

/// Parses `ts` as an equation and reduces it; on failure, the first error met.
pub fn parse(ts: &Vec<Lexem>) -> (r: Result<DegreeMap, ParseError>)
    ensures
        match r {
            Ok(d) => d.wf() && reduced(d@) && equation_spec(ts@) == Ok::<Map<u32, int>, ParseError>(
                d@,
            ),
            Err(e) => equation_spec(ts@) == Err::<Map<u32, int>, ParseError>(e),
        },
{
    let mut degrees = DegreeMap::new();
    let p = expression(ts, 0, &mut degrees, Member::Left)?;
    let t = next_lexem(ts, p)?;
    match t {
        Lexem::Equal { .. } => {},
        _ => {
            return Err(ParseError::UnexpectedToken(t));
        },
    }
    let q = expression(ts, p + 1, &mut degrees, Member::Right)?;
    let t2 = next_lexem(ts, q)?;
    proof {
        degrees.lemma_reduced();
    }
    match t2 {
        Lexem::End { .. } => Ok(degrees),
        _ => Err(ParseError::UnexpectedToken(t2)),
    }
}

/// Holds the reduced form of the last equation that was run through it.
pub struct Parser {
    degrees: DegreeMap,
}

impl View for Parser {
    type V = Map<u32, int>;

    closed spec fn view(&self) -> Map<u32, int> {
        self.degrees@
    }
}

impl Parser {
    pub closed spec fn wf(&self) -> bool {
        self.degrees.wf()
    }

    pub fn new() -> (r: Self)
        ensures
            r.wf(),
            r@ == seeded(),
    {
        Parser { degrees: DegreeMap::new() }
    }

    /// Parses `lexems` from scratch. On success the parser holds the reduced
    /// equation; on failure it holds the fresh map, nothing of the failed run.
    pub fn run(&mut self, lexems: &Vec<Lexem>) -> (r: Result<(), ParseError>)
        ensures
            final(self).wf(),
            r is Ok ==> equation_spec(lexems@) == Ok::<Map<u32, int>, ParseError>(final(self)@),
            r matches Err(e) ==> equation_spec(lexems@) == Err::<Map<u32, int>, ParseError>(e)
                && final(self)@ == seeded(),
    {
        match parse(lexems) {
            Ok(d) => {
                self.degrees = d;
                Ok(())
            },
            Err(e) => {
                self.degrees = DegreeMap::new();
                Err(e)
            },
        }
    }

    pub fn get_degrees(&self) -> (r: &DegreeMap)
        requires
            self.wf(),
        ensures
            r.wf(),
            r@ == self@,
    {
        &self.degrees
    }
}

} // verus!

verus! {

/// A term of a built equation: whether it is subtracted, its coefficient in
/// millionths and its exponent.
pub type SignedTerm = (bool, i64, u32);

pub open spec fn signed(t: SignedTerm) -> int {
    if t.0 {
        -(t.1 as int)
    } else {
        t.1 as int
    }
}

/// Term `k` of a built equation stands in `ts`: its sign token (for all terms but
/// the first) and `c * X ^ e`.
pub open spec fn term_at(ts: Seq<Lexem>, k: int, t: SignedTerm) -> bool {
    let p = 6 * k;
    &&& k > 0 ==> (if t.0 {
        ts[p - 1] is Minus
    } else {
        ts[p - 1] is Plus
    })
    &&& ts[p] is Number && ts[p]->Number_value == t.1
    &&& ts[p + 1] is Mult
    &&& ts[p + 2] is X
    &&& ts[p + 3] is Power
    &&& ts[p + 4] is Number && ts[p + 4]->Number_value == t.2 * SCALE
}

/// `ts` are the tokens of `c0 * X^e0 ± c1 * X^e1 ... = 0`, whatever their offsets.
pub open spec fn built_from(ts: Seq<Lexem>, terms: Seq<SignedTerm>) -> bool {
    let n = terms.len() as int;
    &&& n >= 1
    &&& !terms[0].0
    &&& ts.len() == 6 * n + 2
    &&& forall|k: int| 0 <= k < n ==> #[trigger] term_at(ts, k, terms[k])
    &&& ts[6 * n - 1] is Equal
    &&& ts[6 * n] is Number && ts[6 * n]->Number_value == 0
    &&& ts[6 * n + 1] is End
}

/// Some term of `terms` has exponent `e` and a nonzero coefficient.
pub open spec fn present(terms: Seq<SignedTerm>, e: u32) -> bool
    decreases terms.len(),
{
    terms.len() > 0 && ((terms.last().2 == e && terms.last().1 != 0) || present(
        terms.drop_last(),
        e,
    ))
}

/// The signed coefficient of the last term of `terms` with exponent `e`, or 0.
pub open spec fn coeff_for(terms: Seq<SignedTerm>, e: u32) -> int
    decreases terms.len(),
{
    if terms.len() == 0 {
        0
    } else if terms.last().2 == e {
        signed(terms.last())
    } else {
        coeff_for(terms.drop_last(), e)
    }
}

/// The map `{e: signed coefficient}` of `terms`, with degree 0 always present and
/// no other degree whose coefficient is zero.
pub open spec fn expected(terms: Seq<SignedTerm>) -> Map<u32, int> {
    Map::new(|e: u32| e == 0 || present(terms, e), |e: u32| coeff_for(terms, e))
}

pub open spec fn unique_exponents(terms: Seq<SignedTerm>) -> bool {
    forall|k: int, l: int| 0 <= k < l < terms.len() ==> terms[k].2 != terms[l].2
}

pub open spec fn bounded_terms(terms: Seq<SignedTerm>) -> bool {
    forall|k: int| 0 <= k < terms.len() ==> 0 <= #[trigger] terms[k].1 <= COEFF_MAX
}

proof fn lemma_absent(terms: Seq<SignedTerm>, e: u32)
    requires
        forall|k: int| 0 <= k < terms.len() ==> #[trigger] terms[k].2 != e,
    ensures
        !present(terms, e),
        coeff_for(terms, e) == 0,
    decreases terms.len(),
{
    if terms.len() > 0 {
        assert(terms.last() == terms[terms.len() - 1]);
        lemma_absent(terms.drop_last(), e);
    }
}

proof fn lemma_coeff_bound(terms: Seq<SignedTerm>, e: u32)
    requires
        bounded_terms(terms),
    ensures
        -COEFF_MAX <= coeff_for(terms, e) <= COEFF_MAX,
    decreases terms.len(),
{
    if terms.len() > 0 {
        assert(terms.last() == terms[terms.len() - 1]);
        lemma_coeff_bound(terms.drop_last(), e);
    }
}

/// Adding the next term of a list with unique exponents to the map of the terms
/// before it gives the map of the longer list.
proof fn lemma_expected_step(terms: Seq<SignedTerm>, k: int)
    requires
        0 <= k < terms.len(),
        unique_exponents(terms),
        bounded_terms(terms),
    ensures
        -COEFF_MAX <= sum_at(expected(terms.take(k)), terms[k].2, signed(terms[k])) <= COEFF_MAX,
        add_term(expected(terms.take(k)), terms[k].2, signed(terms[k])) == expected(
            terms.take(k + 1),
        ),
{
    let pre = terms.take(k);
    let post = terms.take(k + 1);
    let t = terms[k];
    assert(post.drop_last() =~= pre);
    assert(post.last() == t);
    lemma_absent(pre, t.2);
    let m = expected(pre);
    assert(m.contains_key(t.2) ==> t.2 == 0);
    let a = add_term(m, t.2, signed(t));
    assert(a =~= expected(post));
}

proof fn lemma_left_sign(t: SignedTerm)
    ensures
        side_sign(Member::Left) * (if t.0 {
            -1int
        } else {
            1int
        }) * (t.1 as int) == signed(t),
{
    if t.0 {
        assert(1 * -1 * (t.1 as int) == -(t.1 as int)) by (nonlinear_arith);
    } else {
        assert(1 * 1 * (t.1 as int) == t.1 as int) by (nonlinear_arith);
    }
}

#[verifier::spinoff_prover]
proof fn lemma_tail(ts: Seq<Lexem>, terms: Seq<SignedTerm>, k: int)
    requires
        built_from(ts, terms),
        unique_exponents(terms),
        bounded_terms(terms),
        1 <= k <= terms.len(),
    ensures
        expr_tail(ts, 6 * k - 1, expected(terms.take(k)), Member::Left) == Ok::<
            (int, Map<u32, int>),
            ParseError,
        >((6 * terms.len() - 1, expected(terms))),
    decreases terms.len() - k,
{
    let n = terms.len() as int;
    if k == n {
        assert(terms.take(k) =~= terms);
    } else {
        let p = 6 * k - 1;
        assert(term_at(ts, k, terms[k]));
        lemma_expected_step(terms, k);
        assert(term_spec(ts, p + 1) == Ok::<(int, int, u32), ParseError>(
            (p + 6, terms[k].1 as int, terms[k].2),
        ));
        lemma_left_sign(terms[k]);
        assert(ts[p] is Minus <==> terms[k].0);
        assert(apply_term(ts, p + 1, expected(terms.take(k)), Member::Left, if ts[p] is Minus {
            -1
        } else {
            1
        }) == Ok::<(int, Map<u32, int>), ParseError>((p + 6, expected(terms.take(k + 1)))));
        lemma_tail(ts, terms, k + 1);
    }
}

/// Parsing the tokens of `c0 * X^e0 ± c1 * X^e1 ... = 0`, whose exponents are
/// unique, gives exactly the map from each exponent to its signed coefficient,
/// where degree 0 is always present and no other degree has a zero coefficient.
#[verifier::spinoff_prover]
pub proof fn lemma_built_equation(ts: Seq<Lexem>, terms: Seq<SignedTerm>)
    requires
        built_from(ts, terms),
        unique_exponents(terms),
        bounded_terms(terms),
    ensures
        equation_spec(ts) == Ok::<Map<u32, int>, ParseError>(expected(terms)),
{
    let n = terms.len() as int;
    assert(term_at(ts, 0, terms[0]));
    lemma_expected_step(terms, 0);
    assert(terms.take(0) =~= Seq::<SignedTerm>::empty());
    assert(expected(terms.take(0)) =~= seeded());
    assert(term_spec(ts, 0) == Ok::<(int, int, u32), ParseError>(
        (5, terms[0].1 as int, terms[0].2),
    ));
    assert(signed(terms[0]) == terms[0].1 as int);
    assert(side_sign(Member::Left) * 1 * (terms[0].1 as int) == terms[0].1 as int);
    assert(-COEFF_MAX <= sum_at(seeded(), terms[0].2, signed(terms[0])) <= COEFF_MAX);
    assert(add_term(seeded(), terms[0].2, signed(terms[0])) == expected(terms.take(1)));
    assert(apply_term(ts, 0, seeded(), Member::Left, 1) == Ok::<(int, Map<u32, int>), ParseError>(
        (5, expected(terms.take(1))),
    ));
    lemma_tail(ts, terms, 1);
    let m = expected(terms);
    assert(expression_spec(ts, 0, seeded(), Member::Left) == Ok::<
        (int, Map<u32, int>),
        ParseError,
    >((6 * n - 1, m)));
    lemma_coeff_bound(terms, 0);
    assert(m.contains_key(0));
    assert(add_term(m, 0, 0) =~= m);
    assert(term_end_spec(ts, 6 * n + 1) == Ok::<(int, u32), ParseError>((6 * n + 1, 0)));
    assert(term_spec(ts, 6 * n) == Ok::<(int, int, u32), ParseError>((6 * n + 1, 0, 0)));
    assert(side_sign(Member::Right) * 1 * 0 == 0);
    assert(-COEFF_MAX <= sum_at(m, 0, 0) <= COEFF_MAX);
    assert(apply_term(ts, 6 * n, m, Member::Right, 1) == Ok::<(int, Map<u32, int>), ParseError>(
        (6 * n + 1, m),
    ));
    assert(expr_tail(ts, 6 * n + 1, m, Member::Right) == Ok::<(int, Map<u32, int>), ParseError>(
        (6 * n + 1, m),
    ));
    assert(expression_spec(ts, 6 * n, m, Member::Right) == Ok::<(int, Map<u32, int>), ParseError>(
        (6 * n + 1, m),
    ));
}

} // verus!
