use computor_v1::degree_map::{DegreeMap, ReducedTerm, TermSign};
use computor_v1::lexer::{tokenize, Lexem};
use computor_v1::parser::{parse, ParseError, Parser};
use computor_v1::{reduce, EquationError};

fn entries_of(text: &str) -> Vec<(u32, i64)> {
    reduce(text).unwrap().entries()
}

#[test]
fn built_text_parses_to_its_coefficients() {
    assert_eq!(
        entries_of("5 * X^0 + 3 * X^1 - 2 * X^2 = 0"),
        vec![(0, 5_000_000), (1, 3_000_000), (2, -2_000_000)]
    );
    assert_eq!(entries_of("1.5 * X^0 - 0.25 * X^3 = 0"), vec![(0, 1_500_000), (3, -250_000)]);
}

#[test]
fn zero_coefficient_of_nonzero_degree_is_absent() {
    assert_eq!(entries_of("1 * X^0 + 0 * X^1 - 0 * X^4 = 0"), vec![(0, 1_000_000)]);
}

#[test]
fn degree_zero_stays_when_it_cancels() {
    assert_eq!(entries_of("5 * X^0 = 5 * X^0"), vec![(0, 0)]);
}

#[test]
fn right_side_is_subtracted() {
    assert_eq!(entries_of("X = X + 1"), vec![(0, -1_000_000)]);
    assert_eq!(entries_of("0 = 2 * X^2 - 3"), vec![(0, 3_000_000), (2, -2_000_000)]);
}

#[test]
fn default_degrees() {
    // a bare number has degree 0, a bare variable degree 1
    assert_eq!(entries_of("3 + X + 2X + 4 * X = 0"), vec![(0, 3_000_000), (1, 7_000_000)]);
}

#[test]
fn cancellation_removes_the_entry() {
    assert_eq!(entries_of("X^2 + X = X^2"), vec![(0, 0), (1, 1_000_000)]);
    let d = reduce("X^2 + X = X^2").unwrap();
    assert_eq!(d.get(2), None);
    assert_eq!(d.get(1), Some(1_000_000));
    assert_eq!(d.highest_degree(), 1);
}

#[test]
fn fractional_degree_is_rejected() {
    let ts = tokenize("X^1.5 = 0").unwrap();
    assert_eq!(
        parse(&ts).err(),
        Some(ParseError::NotUIntegerDegree(Lexem::Number { value: 1_500_000, index: 2, len: 3 }))
    );
}

#[test]
fn degree_too_large_is_rejected() {
    let ts = tokenize("X^4294967296 = 0").unwrap();
    assert!(matches!(parse(&ts), Err(ParseError::NotUIntegerDegree(_))));
    let ts = tokenize("X^4294967295 = 0").unwrap();
    assert_eq!(parse(&ts).unwrap().highest_degree(), 4_294_967_295);
}

#[test]
fn unexpected_tokens() {
    let ts = tokenize("= 0").unwrap();
    assert_eq!(parse(&ts).err(), Some(ParseError::UnexpectedToken(Lexem::Equal { index: 0, len: 1 })));
    let ts = tokenize("X = ").unwrap();
    assert_eq!(parse(&ts).err(), Some(ParseError::UnexpectedToken(Lexem::End { index: 4, len: 1 })));
    let ts = tokenize("X 2 = 0").unwrap();
    assert_eq!(
        parse(&ts).err(),
        Some(ParseError::UnexpectedToken(Lexem::Number { value: 2_000_000, index: 2, len: 1 }))
    );
    let ts = tokenize("2 * 3 = 0").unwrap();
    assert_eq!(
        parse(&ts).err(),
        Some(ParseError::UnexpectedToken(Lexem::Number { value: 3_000_000, index: 4, len: 1 }))
    );
    let ts = tokenize("X^X = 0").unwrap();
    assert_eq!(parse(&ts).err(), Some(ParseError::UnexpectedToken(Lexem::X { index: 2, len: 1 })));
}

#[test]
fn missing_tokens() {
    assert_eq!(parse(&vec![]).err(), Some(ParseError::NoTokenProvided));
    let ts = vec![Lexem::X { index: 0, len: 1 }, Lexem::Equal { index: 1, len: 1 }, Lexem::X { index: 2, len: 1 }];
    assert_eq!(parse(&ts).err(), Some(ParseError::NoTokenProvided));
}

#[test]
fn coefficient_overflow() {
    let ts = tokenize("4000000000000 + 1 = 0").unwrap();
    assert_eq!(
        parse(&ts).err(),
        Some(ParseError::CoefficientOverflow(Lexem::Number { value: 1_000_000, index: 16, len: 1 }))
    );
    assert_eq!(entries_of("4000000000000 = 1"), vec![(0, 3_999_999_999_999_000_000)]);
}

#[test]
fn reduce_reports_both_kinds_of_error() {
    assert!(matches!(reduce("X = ?"), Err(EquationError::Lexical(_))));
    assert!(matches!(reduce("X = = 1"), Err(EquationError::Parse(_))));
}

#[test]
fn parser_run_starts_from_scratch() {
    let mut parser = Parser::new();
    assert_eq!(parser.get_degrees().entries(), vec![(0, 0)]);
    parser.run(&tokenize("X^2 = 4").unwrap()).unwrap();
    assert_eq!(parser.get_degrees().entries(), vec![(0, -4_000_000), (2, 1_000_000)]);
    parser.run(&tokenize("X = 1").unwrap()).unwrap();
    assert_eq!(parser.get_degrees().entries(), vec![(0, -1_000_000), (1, 1_000_000)]);
    assert!(parser.run(&tokenize("X = ").unwrap()).is_err());
    assert_eq!(parser.get_degrees().entries(), vec![(0, 0)]);
}

#[test]
fn degree_map_add() {
    let mut d = DegreeMap::new();
    assert!(d.add(3, 2_000_000));
    assert!(d.add(1, -1));
    assert_eq!(d.entries(), vec![(0, 0), (1, -1), (3, 2_000_000)]);
    assert!(d.add(3, -2_000_000));
    assert_eq!(d.entries(), vec![(0, 0), (1, -1)]);
    assert!(d.add(0, 5));
    assert!(d.add(0, -5));
    assert_eq!(d.entries(), vec![(0, 0), (1, -1)]);
    assert!(d.add(1, -4_000_000_000_000_000_000 + 1));
    assert!(!d.add(1, -1));
    assert_eq!(d.get(1), Some(-4_000_000_000_000_000_000));
}

#[test]
fn reduced_form_signs() {
    let d = reduce("-2 + 3 * X - 0.5 * X^2 = 0").unwrap();
    assert_eq!(
        d.reduced_form(),
        vec![
            ReducedTerm { sign: TermSign::Minus, magnitude: 2_000_000, degree: 0 },
            ReducedTerm { sign: TermSign::Plus, magnitude: 3_000_000, degree: 1 },
            ReducedTerm { sign: TermSign::Minus, magnitude: 500_000, degree: 2 },
        ]
    );
    let d = reduce("4 = X^3").unwrap();
    assert_eq!(
        d.reduced_form(),
        vec![
            ReducedTerm { sign: TermSign::Leading, magnitude: 4_000_000, degree: 0 },
            ReducedTerm { sign: TermSign::Minus, magnitude: 1_000_000, degree: 3 },
        ]
    );
}
