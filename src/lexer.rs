use vstd::prelude::*;
use vstd::std_specs::iter::IteratorSpec;

use crate::numeric::{is_digit, literal_units, literal_value, representable};

verus! {

/// A token of an equation, with the offset of its first character and its length.
/// A number carries its exact value in millionths.
#[derive(Clone, Copy, Debug, PartialEq, Eq, Structural)]
pub enum Lexem {
    Plus { index: usize, len: usize },
    Minus { index: usize, len: usize },
    Mult { index: usize, len: usize },
    Power { index: usize, len: usize },
    Equal { index: usize, len: usize },
    X { index: usize, len: usize },
    Number { value: i64, index: usize, len: usize },
    End { index: usize, len: usize },
}

impl Lexem {
    /// Offset of the token's first character.
    pub fn get_index(&self) -> (r: usize)
        ensures
            r == self.index(),
    {
        match *self {
            Lexem::Plus { index, .. } => index,
            Lexem::Minus { index, .. } => index,
            Lexem::Mult { index, .. } => index,
            Lexem::Power { index, .. } => index,
            Lexem::Equal { index, .. } => index,
            Lexem::X { index, .. } => index,
            Lexem::Number { index, .. } => index,
            Lexem::End { index, .. } => index,
        }
    }

    pub open spec fn index(&self) -> usize {
        match *self {
            Lexem::Plus { index, .. } => index,
            Lexem::Minus { index, .. } => index,
            Lexem::Mult { index, .. } => index,
            Lexem::Power { index, .. } => index,
            Lexem::Equal { index, .. } => index,
            Lexem::X { index, .. } => index,
            Lexem::Number { index, .. } => index,
            Lexem::End { index, .. } => index,
        }
    }
}

/// Why a text could not be cut into tokens.
#[derive(Debug)]
pub enum LexicalError {
    /// A character that no token can start or continue, with its offset.
    UnexpectedCharacter(char, usize),
    /// A numeric literal that stands for no value of the library (no digit, more
    /// than six decimals, or a magnitude over the coefficient bound), with its offset.
    TooBigNumber(String, usize),
}

/// What tokenizing a text gives, as a mathematical value.
pub ghost enum Scan {
    Tokens(Seq<Lexem>),
    BadChar(char, int),
    TooBig(Seq<char>, int),
}

pub open spec fn is_space(c: char) -> bool {
    c == ' ' || c == '\t' || c == '\n' || c == '\x0C' || c == '\r'
}

/// The one-character token that `c` forms at offset `i`, if any.
pub open spec fn symbol(c: char, i: int) -> Option<Lexem> {
    if c == '+' {
        Some(Lexem::Plus { index: i as usize, len: 1 })
    } else if c == '-' {
        Some(Lexem::Minus { index: i as usize, len: 1 })
    } else if c == '*' {
        Some(Lexem::Mult { index: i as usize, len: 1 })
    } else if c == '^' {
        Some(Lexem::Power { index: i as usize, len: 1 })
    } else if c == '=' {
        Some(Lexem::Equal { index: i as usize, len: 1 })
    } else if c == 'X' {
        Some(Lexem::X { index: i as usize, len: 1 })
    } else {
        None
    }
}

/// Where the numeric literal that goes on at `j` ends (`Ok`), or the offset of a
/// second decimal point in it (`Err`).
pub open spec fn number_end(s: Seq<char>, j: int, seen_point: bool) -> Result<int, int>
    decreases s.len() - j,
{
    if j < 0 || j >= s.len() {
        Ok(j)
    } else if is_digit(s[j]) {
        number_end(s, j + 1, seen_point)
    } else if s[j] == '.' {
        if seen_point {
            Err(j)
        } else {
            number_end(s, j + 1, true)
        }
    } else {
        Ok(j)
    }
}

/// `t` followed by the tokens of `r`; an error stays as it is.
pub open spec fn prepend(t: Lexem, r: Scan) -> Scan {
    match r {
        Scan::Tokens(ts) => Scan::Tokens(seq![t] + ts),
        _ => r,
    }
}

/// The tokens of `s` from offset `i` on: maximal munch, whitespace skipped, and one
/// `End` token at the end of the text.
pub open spec fn lex_from(s: Seq<char>, i: int) -> Scan
    decreases s.len() - i,
{
    if i < 0 || i >= s.len() {
        Scan::Tokens(seq![Lexem::End { index: s.len() as usize, len: 1 }])
    } else if is_space(s[i]) {
        lex_from(s, i + 1)
    } else if symbol(s[i], i) is Some {
        prepend(symbol(s[i], i)->0, lex_from(s, i + 1))
    } else if is_digit(s[i]) || s[i] == '.' {
        match number_end(s, i + 1, s[i] == '.') {
            Err(j) => Scan::BadChar('.', j),
            Ok(j) => {
                let lit = s.subrange(i, j);
                if j <= i || j > s.len() {
                    // never taken: a literal ends after its start and within the text
                    Scan::Tokens(Seq::empty())
                } else if !representable(lit) {
                    Scan::TooBig(lit, i)
                } else {
                    prepend(
                        Lexem::Number {
                            value: literal_units(lit) as i64,
                            index: i as usize,
                            len: (j - i) as usize,
                        },
                        lex_from(s, j),
                    )
                }
            },
        }
    } else {
        Scan::BadChar(s[i], i)
    }
}

/// The tokens of a whole text.
pub open spec fn lex(s: Seq<char>) -> Scan {
    lex_from(s, 0)
}

/// The tokens `out` followed by those of `r`; an error stays as it is.
pub open spec fn after(out: Seq<Lexem>, r: Scan) -> Scan {
    match r {
        Scan::Tokens(ts) => Scan::Tokens(out + ts),
        _ => r,
    }
}

/// What an executable result of tokenizing stands for.
pub open spec fn scan_of(r: Result<Vec<Lexem>, LexicalError>) -> Scan {
    match r {
        Ok(v) => Scan::Tokens(v@),
        Err(LexicalError::UnexpectedCharacter(c, i)) => Scan::BadChar(c, i as int),
        Err(LexicalError::TooBigNumber(lit, i)) => Scan::TooBig(lit@, i as int),
    }
}

proof fn lemma_number_end_after(s: Seq<char>, j: int, seen_point: bool)
    ensures
        number_end(s, j, seen_point) matches Ok(k) ==> k >= j,
        0 <= j <= s.len() ==> (number_end(s, j, seen_point) matches Ok(k) ==> k <= s.len()),
        number_end(s, j, seen_point) matches Err(k) ==> j <= k < s.len() && s[k] == '.',
    decreases s.len() - j,
{
    if 0 <= j < s.len() {
        lemma_number_end_after(s, j + 1, seen_point);
        lemma_number_end_after(s, j + 1, true);
    }
}

fn is_space_exec(c: char) -> (r: bool)
    ensures
        r == is_space(c),
{
    c == ' ' || c == '\t' || c == '\n' || c == '\x0C' || c == '\r'
}

fn symbol_exec(c: char, i: usize) -> (r: Option<Lexem>)
    ensures
        r == symbol(c, i as int),
{
    if c == '+' {
        Some(Lexem::Plus { index: i, len: 1 })
    } else if c == '-' {
        Some(Lexem::Minus { index: i, len: 1 })
    } else if c == '*' {
        Some(Lexem::Mult { index: i, len: 1 })
    } else if c == '^' {
        Some(Lexem::Power { index: i, len: 1 })
    } else if c == '=' {
        Some(Lexem::Equal { index: i, len: 1 })
    } else if c == 'X' {
        Some(Lexem::X { index: i, len: 1 })
    } else {
        None
    }
}

/// Scans the numeric literal that goes on at `j`; `seen_point` tells whether it
/// already holds a decimal point.
fn scan_number(s: &Vec<char>, j: usize, seen_point: bool) -> (r: Result<usize, usize>)
    requires
        j <= s@.len(),
    ensures
        match r {
            Ok(k) => number_end(s@, j as int, seen_point) == Ok::<int, int>(k as int),
            Err(k) => number_end(s@, j as int, seen_point) == Err::<int, int>(k as int),
        },
{
    let mut k = j;
    let mut point = seen_point;
    while k < s.len()
        invariant
            j <= k <= s@.len(),
            number_end(s@, j as int, seen_point) == number_end(s@, k as int, point),
        decreases s@.len() - k,
    {
        let c = s[k];
        if '0' <= c && c <= '9' {
            k = k + 1;
        } else if c == '.' {
            if point {
                return Err(k);
            }
            point = true;
            k = k + 1;
        } else {
            return Ok(k);
        }
    }
    Ok(k)
}

fn chars_of(text: &str) -> (r: Vec<char>)
    ensures
        r@ == text@,
{
    broadcast use vstd::string::axiom_spec_iter, vstd::string::next_postcondition;

    let mut v: Vec<char> = Vec::new();
    let mut it = text.chars();
    loop
        invariant
            IteratorSpec::remaining(&it) == text@.skip(v@.len() as int),
            v@ == text@.take(v@.len() as int),
            v@.len() <= text@.len(),
        decreases text@.len() - v@.len(),
    {
        match it.next() {
            Some(c) => {
                v.push(c);
                assert(v@ =~= text@.take(v@.len() as int));
            },
            None => {
                assert(text@.take(v@.len() as int) =~= text@);
                return v;
            },
        }
    }
}

/// The tokens that scanning `s` from offset `i` produces before it stops: all of
/// them, `End` included, on success; on a lexical error, those before the error,
/// including the literal that a second decimal point cuts short when it stands
/// for a value.
pub open spec fn scanned_from(s: Seq<char>, i: int) -> Seq<Lexem>
    decreases s.len() - i,
{
    if i < 0 || i >= s.len() {
        seq![Lexem::End { index: s.len() as usize, len: 1 }]
    } else if is_space(s[i]) {
        scanned_from(s, i + 1)
    } else if symbol(s[i], i) is Some {
        seq![symbol(s[i], i)->0] + scanned_from(s, i + 1)
    } else if is_digit(s[i]) || s[i] == '.' {
        match number_end(s, i + 1, s[i] == '.') {
            Err(k) => {
                let lit = s.subrange(i, k);
                if i < k && representable(lit) {
                    seq![
                        Lexem::Number {
                            value: literal_units(lit) as i64,
                            index: i as usize,
                            len: (k - i) as usize,
                        },
                    ]
                } else {
                    Seq::empty()
                }
            },
            Ok(j) => {
                let lit = s.subrange(i, j);
                if j <= i || j > s.len() || !representable(lit) {
                    Seq::empty()
                } else {
                    seq![
                        Lexem::Number {
                            value: literal_units(lit) as i64,
                            index: i as usize,
                            len: (j - i) as usize,
                        },
                    ] + scanned_from(s, j)
                }
            },
        }
    } else {
        Seq::empty()
    }
}

/// The tokens that scanning a whole text produces before it stops.
pub open spec fn scanned(s: Seq<char>) -> Seq<Lexem> {
    scanned_from(s, 0)
}

/// Scans `text`: the tokens produced, and the lexical error that stopped the
/// scan, if any.
#[verifier::spinoff_prover]
fn scan(text: &str) -> (r: (Vec<Lexem>, Option<LexicalError>))
    ensures
        r.0@ == scanned(text@),
        match r.1 {
            None => lex(text@) == Scan::Tokens(r.0@),
            Some(e) => scan_of(Err(e)) == lex(text@) && !(lex(text@) is Tokens),
        },
{
    let s = chars_of(text);
    let n = s.len();
    let mut out: Vec<Lexem> = Vec::new();
    let mut i: usize = 0;
    while i < n
        invariant
            i <= n == s@.len(),
            s@ == text@,
            lex(s@) == after(out@, lex_from(s@, i as int)),
            scanned(s@) == out@ + scanned_from(s@, i as int),
        decreases n - i,
    {
        let c = s[i];
        if is_space_exec(c) {
            assert(lex_from(s@, i as int) == lex_from(s@, i + 1));
            assert(scanned_from(s@, i as int) == scanned_from(s@, i + 1));
            i = i + 1;
        } else if let Some(t) = symbol_exec(c, i) {
            let ghost rest = lex_from(s@, i + 1);
            assert(lex_from(s@, i as int) == prepend(t, rest));
            assert(scanned_from(s@, i as int) == seq![t] + scanned_from(s@, i + 1));
            let ghost before = out@;
            out.push(t);
            i = i + 1;
            proof {
                if let Scan::Tokens(ts) = rest {
                    assert(out@ + ts =~= before + (seq![t] + ts));
                }
                assert(out@ + scanned_from(s@, i as int) =~= before + (seq![t] + scanned_from(
                    s@,
                    i as int,
                )));
            }
        } else if ('0' <= c && c <= '9') || c == '.' {
            proof {
                lemma_number_end_after(s@, i + 1, c == '.');
            }
            match scan_number(&s, i + 1, c == '.') {
                Err(k) => {
                    assert forall|m: int| i <= m < k implies is_digit(#[trigger] s@[m]) || s@[m]
                        == '.' by {
                        lemma_number_chars(s@, i + 1, c == '.', m);
                    }
                    let ghost before = out@;
                    if let Some(v) = literal_value(&s, i, k) {
                        out.push(Lexem::Number { value: v, index: i, len: k - i });
                    }
                    assert(out@ =~= before + scanned_from(s@, i as int));
                    return (out, Some(LexicalError::UnexpectedCharacter('.', k)));
                },
                Ok(j) => {
                    assert forall|m: int| i <= m < j implies is_digit(#[trigger] s@[m]) || s@[m]
                        == '.' by {
                        lemma_number_chars(s@, i + 1, c == '.', m);
                    }
                    match literal_value(&s, i, j) {
                        None => {
                            assert(out@ =~= out@ + scanned_from(s@, i as int));
                            let lit = text.substring_char(i, j).to_owned();
                            return (out, Some(LexicalError::TooBigNumber(lit, i)));
                        },
                        Some(v) => {
                            let t = Lexem::Number { value: v, index: i, len: j - i };
                            let ghost rest = lex_from(s@, j as int);
                            assert(lex_from(s@, i as int) == prepend(t, rest));
                            assert(scanned_from(s@, i as int) == seq![t] + scanned_from(
                                s@,
                                j as int,
                            ));
                            let ghost before = out@;
                            out.push(t);
                            i = j;
                            proof {
                                if let Scan::Tokens(ts) = rest {
                                    assert(out@ + ts =~= before + (seq![t] + ts));
                                }
                                assert(out@ + scanned_from(s@, i as int) =~= before + (seq![t]
                                    + scanned_from(s@, i as int)));
                            }
                        },
                    }
                },
            }
        } else {
            assert(out@ =~= out@ + scanned_from(s@, i as int));
            return (out, Some(LexicalError::UnexpectedCharacter(c, i)));
        }
    }
    let ghost body = out@;
    out.push(Lexem::End { index: n, len: 1 });
    assert(out@ =~= body + seq![Lexem::End { index: n, len: 1 }]);
    (out, None)
}

/// Cuts `text` into tokens. Offsets count characters from the start of the text.
pub fn tokenize(text: &str) -> (r: Result<Vec<Lexem>, LexicalError>)
    ensures
        scan_of(r) == lex(text@),
{
    match scan(text) {
        (v, None) => Ok(v),
        (_, Some(e)) => Err(e),
    }
}

/// The characters from `j - 1` up to where the literal ends, or up to its second
/// decimal point, are digits or points.
proof fn lemma_number_chars(s: Seq<char>, j: int, seen_point: bool, k: int)
    requires
        0 <= j - 1 <= k,
        is_digit(s[j - 1]) || s[j - 1] == '.',
        (number_end(s, j, seen_point) matches Ok(e) && k < e) || (number_end(
            s,
            j,
            seen_point,
        ) matches Err(e) && k < e),
    ensures
        is_digit(s[k]) || s[k] == '.',
    decreases s.len() - j,
{
    if k >= j && j < s.len() {
        lemma_number_chars(s, j + 1, seen_point || s[j] == '.', k);
    }
}

/// A character that can stand in an equation.
pub open spec fn valid_char(c: char) -> bool {
    is_space(c) || symbol(c, 0) is Some || is_digit(c) || c == '.'
}

proof fn lemma_number_end_prefix(s: Seq<char>, i: int, k: int, seen_point: bool)
    requires
        0 <= k <= i < s.len(),
        !valid_char(s[i]),
    ensures
        number_end(s.take(i), k, seen_point) == number_end(s, k, seen_point),
    decreases i - k,
{
    if k < i {
        lemma_number_end_prefix(s, i, k + 1, seen_point);
        lemma_number_end_prefix(s, i, k + 1, true);
    }
}

#[verifier::spinoff_prover]
proof fn lemma_invalid_from(s: Seq<char>, i: int, j: int)
    requires
        0 <= j <= i < s.len(),
        !valid_char(s[i]),
        lex_from(s.take(i), j) is Tokens,
    ensures
        lex_from(s, j) == Scan::BadChar(s[i], i),
        scanned_from(s, j) == lex_from(s.take(i), j)->Tokens_0.drop_last(),
    decreases i - j,
{
    let p = s.take(i);
    if j < i {
        assert(p[j] == s[j]);
        if is_space(s[j]) {
            lemma_invalid_from(s, i, j + 1);
        } else if symbol(s[j], j) is Some {
            lemma_invalid_from(s, i, j + 1);
            let t = symbol(s[j], j)->0;
            let rest = lex_from(p, j + 1)->Tokens_0;
            lemma_ends_from(p, j + 1);
            assert((seq![t] + rest).drop_last() =~= seq![t] + rest.drop_last());
        } else if is_digit(s[j]) || s[j] == '.' {
            lemma_number_end_prefix(s, i, j + 1, s[j] == '.');
            lemma_number_end_after(p, j + 1, s[j] == '.');
            if let Ok(e) = number_end(s, j + 1, s[j] == '.') {
                assert(p.subrange(j, e) =~= s.subrange(j, e));
                lemma_invalid_from(s, i, e);
                lemma_ends_from(p, e);
                let lit = s.subrange(j, e);
                let t = Lexem::Number {
                    value: literal_units(lit) as i64,
                    index: j as usize,
                    len: (e - j) as usize,
                };
                let rest = lex_from(p, e)->Tokens_0;
                assert((seq![t] + rest).drop_last() =~= seq![t] + rest.drop_last());
            }
        }
    } else {
        assert(lex_from(p, i)->Tokens_0.drop_last() =~= Seq::<Lexem>::empty());
        assert(!(symbol(s[i], i) is Some)) by {
            if symbol(s[i], i) is Some {
                assert(symbol(s[i], 0) is Some);
            }
        }
    }
}

/// A character that no token can hold, after text that tokenizes without error,
/// is reported with its offset, and tokenizing stops there: the tokens scanned
/// are those of the text before it, without its `End` token.
pub proof fn lemma_invalid_character(s: Seq<char>, i: int)
    requires
        0 <= i < s.len(),
        !valid_char(s[i]),
        lex(s.take(i)) is Tokens,
    ensures
        lex(s) == Scan::BadChar(s[i], i),
        scanned(s) == lex(s.take(i))->Tokens_0.drop_last(),
{
    lemma_invalid_from(s, i, 0);
}

#[verifier::spinoff_prover]
proof fn lemma_ends_from(s: Seq<char>, j: int)
    requires
        0 <= j <= s.len(),
        lex_from(s, j) is Tokens,
    ensures
        lex_from(s, j)->Tokens_0.len() >= 1,
        lex_from(s, j)->Tokens_0.last() == (Lexem::End { index: s.len() as usize, len: 1 }),
        forall|k: int|
            0 <= k < lex_from(s, j)->Tokens_0.len() - 1 ==> !(
            #[trigger] lex_from(s, j)->Tokens_0[k] is End),
    decreases s.len() - j,
{
    if j < s.len() {
        if is_space(s[j]) {
            lemma_ends_from(s, j + 1);
        } else if symbol(s[j], j) is Some {
            lemma_ends_from(s, j + 1);
            let t = symbol(s[j], j)->0;
            let rest = lex_from(s, j + 1)->Tokens_0;
            assert forall|k: int| 0 < k < rest.len() + 1 implies (seq![t] + rest)[k] == rest[k
                - 1] by {}
        } else if is_digit(s[j]) || s[j] == '.' {
            lemma_number_end_after(s, j + 1, s[j] == '.');
            if let Ok(e) = number_end(s, j + 1, s[j] == '.') {
                lemma_ends_from(s, e);
                let rest = lex_from(s, e)->Tokens_0;
                let lit = s.subrange(j, e);
                let t = Lexem::Number {
                    value: literal_units(lit) as i64,
                    index: j as usize,
                    len: (e - j) as usize,
                };
                assert forall|k: int| 0 < k < rest.len() + 1 implies (seq![t] + rest)[k]
                    == rest[k - 1] by {}
            }
        }
    }
}

/// The tokens of a text, when it has some, end with exactly one `End` token, at
/// the offset of the end of the text.
pub proof fn lemma_one_end(s: Seq<char>)
    requires
        lex(s) is Tokens,
    ensures
        lex(s)->Tokens_0.len() >= 1,
        lex(s)->Tokens_0.last() == (Lexem::End { index: s.len() as usize, len: 1 }),
        forall|k: int|
            0 <= k < lex(s)->Tokens_0.len() - 1 ==> !(#[trigger] lex(s)->Tokens_0[k] is End),
{
    lemma_ends_from(s, 0);
}

/// Holds the tokens of the last text that was run through it.
pub struct Lexer {
    lexems: Vec<Lexem>,
}

impl View for Lexer {
    type V = Seq<Lexem>;

    closed spec fn view(&self) -> Seq<Lexem> {
        self.lexems@
    }
}

impl Lexer {
    pub fn new() -> (r: Self)
        ensures
            r@ == Seq::<Lexem>::empty(),
    {
        Lexer { lexems: Vec::new() }
    }

    /// Tokenizes `equation`, replacing what an earlier run held: all its tokens on
    /// success; on failure, the tokens scanned before the error.
    pub fn run(&mut self, equation: &str) -> (r: Result<(), LexicalError>)
        ensures
            final(self)@ == scanned(equation@),
            r is Ok ==> lex(equation@) == Scan::Tokens(final(self)@),
            r is Ok <==> lex(equation@) is Tokens,
            r matches Err(e) ==> scan_of(Err(e)) == lex(equation@),
    {
        let (v, err) = scan(equation);
        self.lexems = v;
        match err {
            None => Ok(()),
            Some(e) => Err(e),
        }
    }

    pub fn get_lexems(&self) -> (r: &Vec<Lexem>)
        ensures
            r@ == self@,
    {
        &self.lexems
    }
}

} // verus!
