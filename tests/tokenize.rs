use computor_v1::lexer::{tokenize, Lexem, Lexer, LexicalError};

#[test]
fn empty_text_gives_one_end_token() {
    let ts = tokenize("").unwrap();
    assert_eq!(ts, vec![Lexem::End { index: 0, len: 1 }]);
}

#[test]
fn simple_equation_tokens() {
    let ts = tokenize("42 + X = 0").unwrap();
    assert_eq!(
        ts,
        vec![
            Lexem::Number { value: 42_000_000, index: 0, len: 2 },
            Lexem::Plus { index: 3, len: 1 },
            Lexem::X { index: 5, len: 1 },
            Lexem::Equal { index: 7, len: 1 },
            Lexem::Number { value: 0, index: 9, len: 1 },
            Lexem::End { index: 10, len: 1 },
        ]
    );
}

#[test]
fn operators_and_power() {
    let ts = tokenize("-3*X^2").unwrap();
    assert_eq!(
        ts,
        vec![
            Lexem::Minus { index: 0, len: 1 },
            Lexem::Number { value: 3_000_000, index: 1, len: 1 },
            Lexem::Mult { index: 2, len: 1 },
            Lexem::X { index: 3, len: 1 },
            Lexem::Power { index: 4, len: 1 },
            Lexem::Number { value: 2_000_000, index: 5, len: 1 },
            Lexem::End { index: 6, len: 1 },
        ]
    );
}

#[test]
fn number_closes_on_the_next_character() {
    let ts = tokenize("12X").unwrap();
    assert_eq!(
        ts,
        vec![
            Lexem::Number { value: 12_000_000, index: 0, len: 2 },
            Lexem::X { index: 2, len: 1 },
            Lexem::End { index: 3, len: 1 },
        ]
    );
}

#[test]
fn decimal_literals() {
    let ts = tokenize("1.25 .5 3. 0.000001").unwrap();
    assert_eq!(
        ts,
        vec![
            Lexem::Number { value: 1_250_000, index: 0, len: 4 },
            Lexem::Number { value: 500_000, index: 5, len: 2 },
            Lexem::Number { value: 3_000_000, index: 8, len: 2 },
            Lexem::Number { value: 1, index: 11, len: 8 },
            Lexem::End { index: 19, len: 1 },
        ]
    );
}

#[test]
fn whitespace_is_skipped() {
    let ts = tokenize(" \t X \n").unwrap();
    assert_eq!(ts, vec![Lexem::X { index: 3, len: 1 }, Lexem::End { index: 6, len: 1 }]);
}

#[test]
fn invalid_character_is_reported_with_its_offset() {
    match tokenize("3 & X = 0") {
        Err(LexicalError::UnexpectedCharacter(c, i)) => {
            assert_eq!(c, '&');
            assert_eq!(i, 2);
        }
        other => panic!("unexpected result {:?}", other),
    }
}

#[test]
fn invalid_character_at_the_start_and_at_the_end() {
    assert!(matches!(tokenize("&"), Err(LexicalError::UnexpectedCharacter('&', 0))));
    assert!(matches!(tokenize("X = 1 &"), Err(LexicalError::UnexpectedCharacter('&', 6))));
    assert!(matches!(tokenize("x"), Err(LexicalError::UnexpectedCharacter('x', 0))));
}

#[test]
fn second_decimal_point_is_an_error() {
    assert!(matches!(tokenize("1.2.3"), Err(LexicalError::UnexpectedCharacter('.', 3))));
}

#[test]
fn literal_without_digit_is_too_big_number() {
    match tokenize("X + .") {
        Err(LexicalError::TooBigNumber(lit, i)) => {
            assert_eq!(lit, ".");
            assert_eq!(i, 4);
        }
        other => panic!("unexpected result {:?}", other),
    }
}

#[test]
fn literal_out_of_range_is_too_big_number() {
    match tokenize("1 + 4000000000001 = 0") {
        Err(LexicalError::TooBigNumber(lit, i)) => {
            assert_eq!(lit, "4000000000001");
            assert_eq!(i, 4);
        }
        other => panic!("unexpected result {:?}", other),
    }
    let ts = tokenize("4000000000000").unwrap();
    assert_eq!(ts[0], Lexem::Number { value: 4_000_000_000_000_000_000, index: 0, len: 13 });
}

#[test]
fn literal_with_seven_decimals_is_too_big_number() {
    match tokenize("0.0000001") {
        Err(LexicalError::TooBigNumber(lit, i)) => {
            assert_eq!(lit, "0.0000001");
            assert_eq!(i, 0);
        }
        other => panic!("unexpected result {:?}", other),
    }
}

#[test]
fn lexer_run_replaces_the_previous_tokens() {
    let mut lexer = Lexer::new();
    assert!(lexer.get_lexems().is_empty());
    lexer.run("X = 1").unwrap();
    assert_eq!(lexer.get_lexems().len(), 4);
    lexer.run("2").unwrap();
    assert_eq!(
        lexer.get_lexems(),
        &vec![
            Lexem::Number { value: 2_000_000, index: 0, len: 1 },
            Lexem::End { index: 1, len: 1 },
        ]
    );
    assert!(lexer.run("2 # 1").is_err());
    assert_eq!(lexer.get_lexems(), &vec![Lexem::Number { value: 2_000_000, index: 0, len: 1 }]);
    assert!(lexer.run("# 1").is_err());
    assert!(lexer.get_lexems().is_empty());
}

#[test]
fn lexer_keeps_the_tokens_before_an_invalid_character() {
    let mut lexer = Lexer::new();
    match lexer.run("X + & = 0") {
        Err(LexicalError::UnexpectedCharacter(c, i)) => {
            assert_eq!(c, '&');
            assert_eq!(i, 4);
        }
        other => panic!("unexpected result {:?}", other),
    }
    assert_eq!(
        lexer.get_lexems(),
        &vec![Lexem::X { index: 0, len: 1 }, Lexem::Plus { index: 2, len: 1 }]
    );
}

#[test]
fn lexer_keeps_the_literal_before_a_second_point() {
    let mut lexer = Lexer::new();
    assert!(matches!(lexer.run("1.2.3"), Err(LexicalError::UnexpectedCharacter('.', 3))));
    assert_eq!(lexer.get_lexems(), &vec![Lexem::Number { value: 1_200_000, index: 0, len: 3 }]);
    assert!(matches!(lexer.run("X + .."), Err(LexicalError::UnexpectedCharacter('.', 5))));
    assert_eq!(
        lexer.get_lexems(),
        &vec![Lexem::X { index: 0, len: 1 }, Lexem::Plus { index: 2, len: 1 }]
    );
}

#[test]
fn lexer_keeps_the_tokens_before_a_too_big_number() {
    let mut lexer = Lexer::new();
    assert!(matches!(lexer.run("X = 0.0000001"), Err(LexicalError::TooBigNumber(_, 4))));
    assert_eq!(
        lexer.get_lexems(),
        &vec![Lexem::X { index: 0, len: 1 }, Lexem::Equal { index: 2, len: 1 }]
    );
}

#[test]
fn token_index_accessor() {
    assert_eq!(Lexem::Number { value: 1, index: 7, len: 3 }.get_index(), 7);
    assert_eq!(Lexem::End { index: 2, len: 1 }.get_index(), 2);
}
