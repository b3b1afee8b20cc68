//! A precedence-climbing parser from text to expression trees.
//!
//! Grammar, with blanks allowed between tokens:
//! `equation = expr ('=' expr)?`; `expr` is built over `primary` with the
//! infix operators `+ -` (level 1, left), `* / %` (level 2, left), `^`
//! (level 3, right) and prefix `-` binding tighter than all of them;
//! `primary = number | monomial | function | '(' expr ')'`;
//! `monomial = coefficient? variable exponent?` with `exponent = '^' number`
//! or `'^' '(' number ')'`; `function = name '(' (expr (',' expr)*)? ')'`.
use vstd::prelude::*;
use crate::error::ParserError;
use crate::expr::{Expr, Op, Term, expression_form, all_expression_form, equation_form, chars_of, string_from_chars, text, args_text, op_char};
use crate::number::{Decimal, is_digit, literal_spec, decimal_text, all_digits, lemma_literal_text, lemma_literal_spec_is_literal, lemma_one_is_literal, lemma_decimal_text_chars};

verus! {

pub open spec fn is_letter(c: char) -> bool {
    ('a' <= c <= 'z') || ('A' <= c <= 'Z')
}

pub open spec fn is_ident_char(c: char) -> bool {
    is_letter(c) || is_digit(c) || c == '_'
}

pub open spec fn is_blank(c: char) -> bool {
    c == ' ' || c == '\t' || c == '\n' || c == '\r'
}

/// The infix operator written as `c`.
pub open spec fn infix_spec(c: char) -> Option<Op> {
    if c == '+' {
        Some(Op::Add)
    } else if c == '-' {
        Some(Op::Subtract)
    } else if c == '*' {
        Some(Op::Multiply)
    } else if c == '/' {
        Some(Op::Divide)
    } else if c == '%' {
        Some(Op::Modulo)
    } else if c == '^' {
        Some(Op::Power)
    } else {
        None
    }
}

/// How many times `c` occurs in `s`.
pub open spec fn count_char(s: Seq<char>, c: char) -> nat
    decreases s.len(),
{
    if s.len() == 0 {
        0
    } else {
        count_char(s.drop_last(), c) + if s.last() == c { 1nat } else { 0nat }
    }
}

/// An exec parse result and a spec one agree: both fail, or both give
/// the same tree and end position.
pub open spec fn agrees(r: Result<(Expr, usize), ParserError>, o: Option<(Term, int)>) -> bool {
    match r {
        Ok((e, p)) => o == Some((e@, p as int)),
        Err(_) => o is None,
    }
}

/// A failure of the expression layer names an offending lexeme: an
/// invalid token or an invalid operator.
pub open spec fn token_error<T>(r: Result<T, ParserError>) -> bool {
    r matches Err(e) ==> e is InvalidToken || e is InvalidOperator
}

/// The first position at or after `p` that holds no blank.
pub open spec fn skip_spec(s: Seq<char>, p: int) -> int
    decreases s.len() - p,
{
    if 0 <= p < s.len() && is_blank(s[p]) {
        skip_spec(s, p + 1)
    } else {
        p
    }
}

/// The end of the run of digits that starts at `p`.
pub open spec fn digits_end(s: Seq<char>, p: int) -> int
    decreases s.len() - p,
{
    if 0 <= p < s.len() && is_digit(s[p]) {
        digits_end(s, p + 1)
    } else {
        p
    }
}

/// The end of the run of identifier characters that starts at `p`.
pub open spec fn ident_end(s: Seq<char>, p: int) -> int
    decreases s.len() - p,
{
    if 0 <= p < s.len() && is_ident_char(s[p]) {
        ident_end(s, p + 1)
    } else {
        p
    }
}

/// The number `digits ('.' digits)?` at `p`, and where it ends.
pub open spec fn number_spec(s: Seq<char>, p: int) -> Option<(Decimal, int)> {
    let e = digits_end(s, p);
    let q = if e < s.len() && s[e] == '.' && e + 1 < s.len() && is_digit(s[e + 1]) {
        digits_end(s, e + 1)
    } else {
        e
    };
    let f = if q == e { Seq::empty() } else { s.subrange(e + 1, q) };
    match literal_spec(s.subrange(p, e), f) {
        Some(d) => Some((d, q)),
        None => None,
    }
}

/// The optional exponent `^n` or `^(n)` at `p` (1 when absent), and where
/// it ends.
pub open spec fn exponent_spec(s: Seq<char>, p: int) -> Option<(Decimal, int)> {
    if 0 <= p < s.len() && s[p] == '^' && p + 1 < s.len() && is_digit(s[p + 1]) {
        number_spec(s, p + 1)
    } else if 0 <= p < s.len() && s[p] == '^' && p + 1 < s.len() && s[p + 1] == '(' && p + 2 < s.len()
        && is_digit(s[p + 2]) {
        match number_spec(s, p + 2) {
            None => None,
            Some((e, q)) => if q < s.len() && s[q] == ')' {
                Some((e, q + 1))
            } else {
                Some((Decimal::int_spec(1), p))
            },
        }
    } else {
        Some((Decimal::int_spec(1), p))
    }
}

/// The monomial whose variable starts at `p`.
pub open spec fn monomial_spec(s: Seq<char>, p: int, c: Decimal) -> Option<(Term, int)> {
    let q = ident_end(s, p + 1);
    match exponent_spec(s, q) {
        Some((e, r)) => Some((Term::Mono(c, s.subrange(p, q), e), r)),
        None => None,
    }
}

/// A primary with its prefix minus signs, from `p`.
pub open spec fn primary_spec(s: Seq<char>, p: int) -> Option<(Term, int)>
    decreases s.len() - p, 0nat,
{
    let q = skip_spec(s, p);
    if p < 0 || q < p || q >= s.len() {
        None
    } else if s[q] == '-' {
        match primary_spec(s, q + 1) {
            Some((x, r)) => Some((Term::Neg(Box::new(x)), r)),
            None => None,
        }
    } else if s[q] == '(' {
        match expr_spec(s, q + 1, 1) {
            Some((e, r)) => {
                let r2 = skip_spec(s, r);
                if r2 < s.len() && s[r2] == ')' {
                    Some((e, r2 + 1))
                } else {
                    None
                }
            },
            None => None,
        }
    } else if is_digit(s[q]) {
        match number_spec(s, q) {
            Some((d, r)) => if r < s.len() && is_letter(s[r]) {
                monomial_spec(s, r, d)
            } else {
                Some((Term::Num(d), r))
            },
            None => None,
        }
    } else if is_letter(s[q]) {
        let e = ident_end(s, q + 1);
        let e2 = skip_spec(s, e);
        if q < e <= e2 < s.len() && s[e2] == '(' {
            call_spec(s, s.subrange(q, e), e2 + 1, Seq::empty(), e2 + 1)
        } else {
            monomial_spec(s, q, Decimal::int_spec(1))
        }
    } else {
        None
    }
}

/// The arguments of a call of `name` whose list opened just before `start`,
/// with `args` read so far and the next argument at `p`.
pub open spec fn call_spec(s: Seq<char>, name: Seq<char>, start: int, args: Seq<Term>, p: int) -> Option<(Term, int)>
    decreases s.len() - p, 2nat,
{
    let b = skip_spec(s, start);
    if p < 0 || p > s.len() {
        None
    } else if args.len() == 0 && p == start && b < s.len() && s[b] == ')' {
        Some((Term::Call(name, args), b + 1))
    } else {
        match expr_spec(s, p, 1) {
            None => None,
            Some((a, q)) => {
                let q2 = skip_spec(s, q);
                if q < p || q2 < q || q2 >= s.len() {
                    None
                } else if s[q2] == ')' {
                    Some((Term::Call(name, args.push(a)), q2 + 1))
                } else if s[q2] == ',' {
                    call_spec(s, name, start, args.push(a), q2 + 1)
                } else {
                    None
                }
            },
        }
    }
}

/// The binding level of an infix operator.
pub open spec fn level_of(op: Op) -> int {
    match op {
        Op::Add | Op::Subtract => 1,
        Op::Multiply | Op::Divide | Op::Modulo => 2,
        _ => 3,
    }
}

/// The least level of the right operand of `op`: its own for the
/// right-associative `^`, one more for the others.
pub open spec fn next_level(op: Op) -> int {
    if op == Op::Power || level_of(op) == 3 {
        3
    } else {
        level_of(op) + 1
    }
}

/// An expression from `p` whose infix operators bind at least at `min`.
pub open spec fn expr_spec(s: Seq<char>, p: int, min: int) -> Option<(Term, int)>
    decreases s.len() - p, 1nat,
{
    match primary_spec(s, p) {
        None => None,
        Some((l, q)) => if p < q <= s.len() {
            expr_rest(s, l, q, min)
        } else {
            None
        },
    }
}

/// The infix operations that follow the operand `lhs`, which ends at `p`.
pub open spec fn expr_rest(s: Seq<char>, lhs: Term, p: int, min: int) -> Option<(Term, int)>
    decreases s.len() - p, 0nat,
{
    let q = skip_spec(s, p);
    if p < 0 || q < p || q >= s.len() || infix_spec(s[q]) is None || level_of(infix_spec(s[q])->Some_0) < min {
        Some((lhs, p))
    } else {
        let op = infix_spec(s[q])->Some_0;
        match expr_spec(s, q + 1, next_level(op)) {
            None => None,
            Some((r, e)) => if q + 1 < e <= s.len() {
                expr_rest(s, Term::Bin(Box::new(lhs), op, Box::new(r)), e, min)
            } else {
                None
            },
        }
    }
}

/// The tree that `parse` yields for the text `s`.
pub open spec fn parse_spec(s: Seq<char>) -> Option<Term> {
    match expr_spec(s, 0, 1) {
        None => None,
        Some((e, p)) => {
            let q = skip_spec(s, p);
            if q == s.len() {
                Some(e)
            } else if 0 <= q < s.len() && s[q] == '=' {
                match side_spec(s.subrange(q + 1, s.len() as int)) {
                    Some(r) => Some(Term::Bin(Box::new(e), Op::Equals, Box::new(r))),
                    None => None,
                }
            } else {
                None
            }
        },
    }
}

/// The position of the first `=` at or after `p`, or `s.len()`.
pub open spec fn first_equals(s: Seq<char>, p: int) -> int
    decreases s.len() - p,
{
    if p >= s.len() || p < 0 {
        s.len() as int
    } else if s[p] == '=' {
        p
    } else {
        first_equals(s, p + 1)
    }
}

/// The equation that `parse_equation` yields for a text with one `=`.
pub open spec fn equation_spec(s: Seq<char>) -> Option<Term> {
    let k = first_equals(s, 0);
    match (side_spec(s.subrange(0, k)), side_spec(s.subrange(k + 1, s.len() as int))) {
        (Some(l), Some(r)) => Some(Term::Bin(Box::new(l), Op::Equals, Box::new(r))),
        _ => None,
    }
}

/// The expression that the whole text `s` is.
pub open spec fn side_spec(s: Seq<char>) -> Option<Term> {
    match expr_spec(s, 0, 1) {
        None => None,
        Some((e, p)) => if skip_spec(s, p) == s.len() {
            Some(e)
        } else {
            None
        },
    }
}

fn is_letter_exec(c: char) -> (r: bool)
    ensures
        r == is_letter(c),
{
    ('a' <= c && c <= 'z') || ('A' <= c && c <= 'Z')
}

fn is_digit_exec(c: char) -> (r: bool)
    ensures
        r == is_digit(c),
{
    '0' <= c && c <= '9'
}

fn is_ident_char_exec(c: char) -> (r: bool)
    ensures
        r == is_ident_char(c),
{
    is_letter_exec(c) || is_digit_exec(c) || c == '_'
}

fn infix_of(c: char) -> (r: Option<Op>)
    ensures
        r == infix_spec(c),
{
    if c == '+' {
        Some(Op::Add)
    } else if c == '-' {
        Some(Op::Subtract)
    } else if c == '*' {
        Some(Op::Multiply)
    } else if c == '/' {
        Some(Op::Divide)
    } else if c == '%' {
        Some(Op::Modulo)
    } else if c == '^' {
        Some(Op::Power)
    } else {
        None
    }
}

fn skip_blanks(s: &Vec<char>, pos: usize) -> (p: usize)
    requires
        pos <= s.len(),
    ensures
        pos <= p <= s.len(),
        p == s.len() || !is_blank(s[p as int]),
        p == skip_spec(s@, pos as int),
{
    let mut p = pos;
    while p < s.len() && (s[p] == ' ' || s[p] == '\t' || s[p] == '\n' || s[p] == '\r')
        invariant
            pos <= p <= s.len(),
            skip_spec(s@, p as int) == skip_spec(s@, pos as int),
        decreases s.len() - p,
    {
        p = p + 1;
    }
    p
}

/// The characters `s[from..to]` as a string.
fn lexeme(s: &Vec<char>, from: usize, to: usize) -> (r: String)
    requires
        from <= to <= s.len(),
    ensures
        r@ == s@.subrange(from as int, to as int),
{
    let mut v: Vec<char> = Vec::new();
    let mut k = from;
    while k < to
        invariant
            from <= k <= to <= s.len(),
            v@ == s@.subrange(from as int, k as int),
        decreases to - k,
    {
        v.push(s[k]);
        assert(v@ =~= s@.subrange(from as int, k + 1));
        k = k + 1;
    }
    string_from_chars(&v)
}

/// The error for the token at `pos`: the character there, or an empty
/// lexeme at the end of the text.
fn invalid_token(s: &Vec<char>, pos: usize) -> (r: ParserError)
    requires
        pos <= s.len(),
    ensures
        r is InvalidToken,
{
    if pos < s.len() {
        ParserError::InvalidToken(lexeme(s, pos, pos + 1))
    } else {
        ParserError::InvalidToken(lexeme(s, pos, pos))
    }
}

/// Reads a run of digits from `pos`.
fn read_digits(s: &Vec<char>, pos: usize) -> (r: (Vec<char>, usize))
    requires
        pos <= s.len(),
    ensures
        pos <= r.1 <= s.len(),
        pos < s.len() && is_digit(s[pos as int]) ==> pos < r.1,
        r.1 == digits_end(s@, pos as int),
        r.0@ == s@.subrange(pos as int, r.1 as int),
        forall|k: int| 0 <= k < r.0.len() ==> is_digit(#[trigger] r.0[k]),
{
    let mut v: Vec<char> = Vec::new();
    let mut p = pos;
    while p < s.len() && is_digit_exec(s[p])
        invariant
            pos <= p <= s.len(),
            v@ == s@.subrange(pos as int, p as int),
            forall|k: int| 0 <= k < v.len() ==> is_digit(#[trigger] v[k]),
            digits_end(s@, p as int) == digits_end(s@, pos as int),
        decreases s.len() - p,
    {
        v.push(s[p]);
        assert(v@ =~= s@.subrange(pos as int, p + 1));
        p = p + 1;
    }
    (v, p)
}

/// Reads `digits ('.' digits)?` from `pos`, where a digit stands there.
fn read_number(s: &Vec<char>, pos: usize) -> (r: Result<(Decimal, usize), ParserError>)
    requires
        pos < s.len(),
        is_digit(s[pos as int]),
    ensures
        r matches Ok((_, p)) ==> pos < p <= s.len(),
        r is Ok <==> number_spec(s@, pos as int) is Some,
        r matches Ok((d, p)) ==> number_spec(s@, pos as int) == Some((d, p as int)),
        token_error(r),
{
    let (i, p) = read_digits(s, pos);
    let (f, q) = if p < s.len() && s[p] == '.' && p + 1 < s.len() && is_digit_exec(s[p + 1]) {
        read_digits(s, p + 1)
    } else {
        (Vec::new(), p)
    };
    assert(f@ == (if q == p { Seq::<char>::empty() } else { s@.subrange(p + 1, q as int) }));
    match Decimal::from_digits(&i, &f) {
        Some(d) => Ok((d, q)),
        None => Err(ParserError::InvalidToken(lexeme(s, pos, q))),
    }
}

/// Reads an identifier from `pos`, where a letter stands there.
fn read_identifier(s: &Vec<char>, pos: usize) -> (r: (String, usize))
    requires
        pos < s.len(),
        is_letter(s[pos as int]),
    ensures
        pos < r.1 <= s.len(),
        r.0@.len() > 0,
        r.1 == ident_end(s@, pos + 1),
        r.0@ == s@.subrange(pos as int, r.1 as int),
{
    let mut p = pos + 1;
    while p < s.len() && is_ident_char_exec(s[p])
        invariant
            pos < p <= s.len(),
            ident_end(s@, p as int) == ident_end(s@, pos + 1),
        decreases s.len() - p,
    {
        p = p + 1;
    }
    (lexeme(s, pos, p), p)
}

/// Reads an optional exponent `^n` or `^(n)` from `pos`; 1 when absent.
fn read_exponent(s: &Vec<char>, pos: usize) -> (r: Result<(Decimal, usize), ParserError>)
    requires
        pos <= s.len(),
    ensures
        r matches Ok((_, p)) ==> pos <= p <= s.len(),
        r is Ok <==> exponent_spec(s@, pos as int) is Some,
        r matches Ok((d, p)) ==> exponent_spec(s@, pos as int) == Some((d, p as int)),
        token_error(r),
{
    if pos < s.len() && s[pos] == '^' && pos + 1 < s.len() {
        if is_digit_exec(s[pos + 1]) {
            return read_number(s, pos + 1);
        }
        if s[pos + 1] == '(' && pos + 2 < s.len() && is_digit_exec(s[pos + 2]) {
            let (e, q) = read_number(s, pos + 2)?;
            if q < s.len() && s[q] == ')' {
                return Ok((e, q + 1));
            }
        }
    }
    Ok((Decimal::from_int(1), pos))
}

/// Reads the variable and optional exponent of a monomial from `pos`.
fn read_monomial(s: &Vec<char>, pos: usize, coefficient: Decimal) -> (r: Result<(Expr, usize), ParserError>)
    requires
        pos < s.len(),
        is_letter(s[pos as int]),
    ensures
        r matches Ok((e, p)) ==> pos < p <= s.len() && expression_form(e@),
        agrees(r, monomial_spec(s@, pos as int, coefficient)),
        token_error(r),
{
    let (variable, p) = read_identifier(s, pos);
    let (exponent, q) = read_exponent(s, p)?;
    Ok((Expr::Monomial { coefficient, variable, exponent }, q))
}

/// Parses a primary, with any prefix minus signs, from `pos`.
fn parse_primary(s: &Vec<char>, pos: usize) -> (r: Result<(Expr, usize), ParserError>)
    requires
        pos <= s.len(),
    ensures
        r matches Ok((e, p)) ==> pos < p <= s.len() && expression_form(e@),
        agrees(r, primary_spec(s@, pos as int)),
        token_error(r),
    decreases s.len() - pos, 0nat,
{
    let p = skip_blanks(s, pos);
    if p >= s.len() {
        return Err(invalid_token(s, p));
    }
    let c = s[p];
    if c == '-' {
        let (x, q) = parse_primary(s, p + 1)?;
        return Ok((Expr::UnaryMinus(Box::new(x)), q));
    }
    if c == '(' {
        let (e, q) = parse_expr(s, p + 1, 1)?;
        let q = skip_blanks(s, q);
        if q < s.len() && s[q] == ')' {
            return Ok((e, q + 1));
        }
        return Err(invalid_token(s, q));
    }
    if is_digit_exec(c) {
        let (d, q) = read_number(s, p)?;
        if q < s.len() && is_letter_exec(s[q]) {
            return read_monomial(s, q, d);
        }
        return Ok((Expr::Number(d), q));
    }
    if is_letter_exec(c) {
        let (name, q) = read_identifier(s, p);
        let q2 = skip_blanks(s, q);
        if q2 < s.len() && s[q2] == '(' {
            return parse_call(s, name, q2 + 1);
        }
        return read_monomial(s, p, Decimal::from_int(1));
    }
    Err(invalid_token(s, p))
}

/// Parses the arguments and closing parenthesis of a call of `name`, from
/// just after its opening parenthesis.
fn parse_call(s: &Vec<char>, name: String, pos: usize) -> (r: Result<(Expr, usize), ParserError>)
    requires
        0 < pos <= s.len(),
        name@.len() > 0,
    ensures
        r matches Ok((e, p)) ==> pos <= p <= s.len() && expression_form(e@),
        agrees(r, call_spec(s@, name@, pos as int, Seq::empty(), pos as int)),
        token_error(r),
    decreases s.len() - pos, 2nat,
{
    let mut args: Vec<Expr> = Vec::new();
    let mut p = skip_blanks(s, pos);
    if p < s.len() && s[p] == ')' {
        let ghost n = name@;
        let e = Expr::Function { name, args };
        assert(e@->Call_1 =~= Seq::<Term>::empty());
        assert(e@ == Term::Call(n, e@->Call_1));
        assert(all_expression_form(e@->Call_1));
        return Ok((e, p + 1));
    }
    let ghost b = skip_spec(s@, pos as int);
    assert(!(b < s.len() && s@[b] == ')'));
    assert(args@.map_values(|a: Expr| a@) =~= Seq::<Term>::empty());
    p = pos;
    loop
        invariant
            pos <= p <= s.len(),
            name@.len() > 0,
            all_expression_form(args@.map_values(|a: Expr| a@)),
            b == skip_spec(s@, pos as int),
            args.len() == 0 ==> p == pos && !(b < s.len() && s@[b] == ')'),
            call_spec(s@, name@, pos as int, Seq::empty(), pos as int) == call_spec(
                s@,
                name@,
                pos as int,
                args@.map_values(|a: Expr| a@),
                p as int,
            ),
        decreases s.len() - p,
    {
        let (arg, q) = parse_expr(s, p, 1)?;
        let ghost before = args@.map_values(|a: Expr| a@);
        let ghost av = arg@;
        args.push(arg);
        proof {
            let after = args@.map_values(|a: Expr| a@);
            assert(after.subrange(0, after.len() - 1) =~= before);
            assert(after[after.len() - 1] == av);
            assert(all_expression_form(after));
            assert(after =~= before.push(av));
        }
        let q = skip_blanks(s, q);
        if q >= s.len() {
            return Err(invalid_token(s, q));
        }
        if s[q] == ')' {
            let ghost views = args@.map_values(|a: Expr| a@);
            let ghost argv = args@;
            let ghost n = name@;
            let e = Expr::Function { name, args };
            assert(e@ == Term::Call(n, e@->Call_1));
            assert(all_expression_form(views));
            assert(e@->Call_1 =~= views) by {
                assert(e@->Call_1.len() == argv.len());
                assert forall|j: int| 0 <= j < argv.len() implies e@->Call_1[j] == views[j] by {
                    assert(e@->Call_1[j] == argv[j]@);
                }
            }
            return Ok((e, q + 1));
        }
        if s[q] != ',' {
            return Err(invalid_token(s, q));
        }
        p = q + 1;
    }
}

/// Parses an expression from `pos` whose infix operators bind at least as
/// tightly as `min_level`.
fn parse_expr(s: &Vec<char>, pos: usize, min_level: u8) -> (r: Result<(Expr, usize), ParserError>)
    requires
        pos <= s.len(),
        1 <= min_level <= 3,
    ensures
        r matches Ok((e, p)) ==> pos < p <= s.len() && expression_form(e@),
        agrees(r, expr_spec(s@, pos as int, min_level as int)),
        token_error(r),
    decreases s.len() - pos, 1nat,
{
    let (mut lhs, mut p) = parse_primary(s, pos)?;
    loop
        invariant
            pos < p <= s.len(),
            1 <= min_level <= 3,
            expression_form(lhs@),
            expr_spec(s@, pos as int, min_level as int) == expr_rest(s@, lhs@, p as int, min_level as int),
        decreases s.len() - p,
    {
        let q = skip_blanks(s, p);
        if q >= s.len() {
            return Ok((lhs, p));
        }
        let op = match infix_of(s[q]) {
            Some(op) => op,
            None => {
                return Ok((lhs, p));
            },
        };
        let level: u8 = match op {
            Op::Add | Op::Subtract => 1,
            Op::Multiply | Op::Divide | Op::Modulo => 2,
            _ => 3,
        };
        assert(level == level_of(op));
        if level < min_level {
            return Ok((lhs, p));
        }
        let next: u8 = if op == Op::Power { 3 } else { level + 1 };
        let next: u8 = if next > 3 { 3 } else { next };
        assert(next == next_level(op));
        let (rhs, r) = parse_expr(s, q + 1, next)?;
        lhs = Expr::BinOp { lhs: Box::new(lhs), op, rhs: Box::new(rhs) };
        p = r;
    }
}

/// The error for what is left over at `pos` after a complete expression.
fn trailing_error(s: &Vec<char>, pos: usize) -> (r: ParserError)
    requires
        pos < s.len(),
    ensures
        r is InvalidToken || r is InvalidOperator,
{
    let c = s[pos];
    if is_ident_char_exec(c) || c == '(' || c == ')' || c == ',' || c == '.' {
        ParserError::InvalidToken(lexeme(s, pos, pos + 1))
    } else {
        ParserError::InvalidOperator(lexeme(s, pos, pos + 1))
    }
}

/// Parses a whole expression from the characters `s[from..to]`.
fn parse_side(s: &Vec<char>, from: usize, to: usize) -> (r: Result<Expr, ParserError>)
    requires
        from <= to <= s.len(),
    ensures
        r matches Ok(e) ==> expression_form(e@),
        r is Ok <==> side_spec(s@.subrange(from as int, to as int)) is Some,
        r matches Ok(e) ==> side_spec(s@.subrange(from as int, to as int)) == Some(e@),
        token_error(r),
{
    let mut part: Vec<char> = Vec::new();
    let mut k = from;
    while k < to
        invariant
            from <= k <= to <= s.len(),
            part@ == s@.subrange(from as int, k as int),
        decreases to - k,
    {
        part.push(s[k]);
        assert(part@ =~= s@.subrange(from as int, k + 1));
        k = k + 1;
    }
    let (e, p) = parse_expr(&part, 0, 1)?;
    let q = skip_blanks(&part, p);
    if q < part.len() {
        return Err(trailing_error(&part, q));
    }
    Ok(e)
}

/// How many `=` the text holds, and where the first one stands.
fn count_equals(s: &Vec<char>) -> (r: (usize, usize))
    ensures
        r.0 == count_char(s@, '='),
        r.0 > 0 ==> r.1 < s.len() && s[r.1 as int] == '=' && first_equals(s@, 0) == r.1,
{
    let mut count: usize = 0;
    let mut at: usize = 0;
    let mut k: usize = 0;
    while k < s.len()
        invariant
            k <= s.len(),
            count == count_char(s@.subrange(0, k as int), '='),
            count <= k,
            count > 0 ==> at < k && s[at as int] == '=' && first_equals(s@, 0) == at,
            count == 0 ==> first_equals(s@, 0) == first_equals(s@, k as int),
        decreases s.len() - k,
    {
        assert(s@.subrange(0, k + 1).drop_last() =~= s@.subrange(0, k as int));
        if s[k] != '=' {
            assert(first_equals(s@, k as int) == first_equals(s@, k + 1));
        }
        if s[k] == '=' {
            if count == 0 {
                at = k;
            }
            count = count + 1;
        }
        k = k + 1;
    }
    assert(s@.subrange(0, s.len() as int) =~= s@);
    (count, at)
}

/// Parses an expression, or an equation `a = b` with a single `=`. A text
/// with more than one `=` fails with `EqualsCount`.
pub fn parse(expression: &str) -> (r: Result<Expr, ParserError>)
    ensures
        r matches Ok(e) ==> equation_form(e@),
        r matches Err(ParserError::EqualsCount) <==> count_char(expression@, '=') > 1,
        count_char(expression@, '=') <= 1 ==> (r is Ok <==> parse_spec(expression@) is Some),
        r matches Ok(e) ==> parse_spec(expression@) == Some(e@),
        r matches Err(e) ==> e is InvalidToken || e is InvalidOperator || e is EqualsCount,
{
    let s = chars_of(expression);
    let (count, _) = count_equals(&s);
    if count > 1 {
        return Err(ParserError::EqualsCount);
    }
    let (e, p) = parse_expr(&s, 0, 1)?;
    let q = skip_blanks(&s, p);
    if q == s.len() {
        return Ok(e);
    }
    if s[q] == '=' {
        let rhs = parse_side(&s, q + 1, s.len())?;
        return Ok(Expr::BinOp { lhs: Box::new(e), op: Op::Equals, rhs: Box::new(rhs) });
    }
    Err(trailing_error(&s, q))
}

/// Parses an equation: the text holds exactly one `=`, and each side is an
/// expression. The result is an `=` at the root.
pub fn parse_equation(expression: &str) -> (r: Result<Expr, ParserError>)
    ensures
        r matches Err(ParserError::NoEquals) <==> count_char(expression@, '=') == 0,
        r matches Err(ParserError::EqualsCount) <==> count_char(expression@, '=') > 1,
        r matches Ok(e) ==> e@ is Bin && e@->Bin_1 == Op::Equals && expression_form(*e@->Bin_0)
            && expression_form(*e@->Bin_2),
        count_char(expression@, '=') == 1 ==> (r is Ok <==> equation_spec(expression@) is Some),
        r matches Ok(e) ==> equation_spec(expression@) == Some(e@),
        r matches Err(e) ==> e is NoEquals || e is EqualsCount || e is InvalidToken || e is InvalidOperator,
{
    let s = chars_of(expression);
    let (count, at) = count_equals(&s);
    if count == 0 {
        return Err(ParserError::NoEquals);
    }
    if count > 1 {
        return Err(ParserError::EqualsCount);
    }
    let lhs = parse_side(&s, 0, at)?;
    let rhs = parse_side(&s, at + 1, s.len())?;
    Ok(Expr::BinOp { lhs: Box::new(lhs), op: Op::Equals, rhs: Box::new(rhs) })
}

/// A name: a letter, then letters, digits or underscores.
pub open spec fn is_identifier(v: Seq<char>) -> bool {
    &&& v.len() > 0
    &&& is_letter(v[0])
    &&& forall|k: int| 0 <= k < v.len() ==> is_ident_char(#[trigger] v[k])
}

/// A tree that the grammar can write: numeric literals, negations, binary
/// operations other than `=`, calls and monomials with identifier names.
pub open spec fn printable_form(t: Term) -> bool
    decreases t,
{
    match t {
        Term::Num(d) => d.is_literal(),
        Term::Neg(x) => printable_form(*x),
        Term::Bin(l, op, r) => op != Op::Equals && printable_form(*l) && printable_form(*r),
        Term::Call(name, args) => is_identifier(name) && all_printable(args),
        Term::Mono(c, v, e) => c.is_literal() && is_identifier(v) && e.is_literal(),
    }
}

pub open spec fn all_printable(args: Seq<Term>) -> bool
    decreases args,
{
    if args.len() == 0 {
        true
    } else {
        all_printable(args.subrange(0, args.len() - 1)) && printable_form(args[args.len() - 1])
    }
}

/// `s` holds the characters `w` from position `p` on.
pub open spec fn holds_at(s: Seq<char>, p: int, w: Seq<char>) -> bool {
    0 <= p && p + w.len() <= s.len() && s.subrange(p, p + w.len()) == w
}

/// Position `e` ends an operand: the text ends there, or a character
/// stands there that cannot continue a number or a name.
pub open spec fn operand_end(s: Seq<char>, e: int) -> bool {
    e == s.len() || (0 <= e < s.len() && !is_digit(s[e]) && !is_letter(s[e]) && s[e] != '.')
}

proof fn lemma_holds_part(s: Seq<char>, p: int, w: Seq<char>, i: int, j: int)
    requires
        holds_at(s, p, w),
        0 <= i <= j <= w.len(),
    ensures
        holds_at(s, p + i, w.subrange(i, j)),
        forall|k: int| i <= k < j ==> s[p + k] == #[trigger] w[k],
{
    assert(s.subrange(p + i, p + j) =~= w.subrange(i, j)) by {
        assert forall|k: int| 0 <= k < j - i implies s.subrange(p + i, p + j)[k] == w.subrange(i, j)[k] by {
            assert(s.subrange(p, p + w.len())[i + k] == w[i + k]);
        }
    }
    assert forall|k: int| i <= k < j implies s[p + k] == #[trigger] w[k] by {
        assert(s.subrange(p, p + w.len())[k] == w[k]);
    }
}

proof fn lemma_digits_end_at(s: Seq<char>, p: int, k: int)
    requires
        0 <= p,
        0 <= k,
        p + k <= s.len(),
        forall|j: int| p <= j < p + k ==> is_digit(#[trigger] s[j]),
        p + k == s.len() || !is_digit(s[p + k]),
    ensures
        digits_end(s, p) == p + k,
    decreases k,
{
    if k > 0 {
        lemma_digits_end_at(s, p + 1, k - 1);
    }
}

#[verifier::rlimit(60)]
proof fn lemma_number_at(s: Seq<char>, p: int, d: Decimal)
    requires
        d.is_literal(),
        holds_at(s, p, decimal_text(d)),
        p + decimal_text(d).len() == s.len() || (!is_digit(s[p + decimal_text(d).len()]) && s[p
            + decimal_text(d).len()] != '.'),
    ensures
        number_spec(s, p) == Some((d, p + decimal_text(d).len())),
        is_digit(s[p]),
{
    lemma_literal_text(d);
    let w = decimal_text(d);
    let i = d.int_text();
    let f = d.frac_text();
    let n = w.len() as int;
    lemma_holds_part(s, p, w, 0, n);
    let e = p + i.len();
    assert(s[p] == w[0]);
    if d.scale_spec() != 0 {
        assert(w[0] == i[0]);
    }
    assert forall|j: int| p <= j < e implies is_digit(#[trigger] s[j]) by {
        assert(s[p + (j - p)] == w[j - p]);
        assert(w[j - p] == i[j - p]);
    }
    if d.scale_spec() == 0 {
        assert(w == i);
        lemma_digits_end_at(s, p, i.len() as int);
        assert(f =~= Seq::<char>::empty());
        assert(s.subrange(p, e) =~= i);
    } else {
        assert(w == i + seq!['.'] + f);
        assert(s[e] == w[i.len() as int]);
        lemma_digits_end_at(s, p, i.len() as int);
        assert(s[e + 1] == w[i.len() as int + 1]);
        assert(w[i.len() as int + 1] == f[0]);
        assert forall|j: int| e + 1 <= j < p + n implies is_digit(#[trigger] s[j]) by {
            assert(s[p + (j - p)] == w[j - p]);
            assert(w[j - p] == f[j - e - 1]);
        }
        lemma_digits_end_at(s, e + 1, f.len() as int);
        assert(s.subrange(p, e) =~= i) by {
            assert forall|k: int| 0 <= k < i.len() implies s.subrange(p, e)[k] == i[k] by {
                assert(s[p + k] == w[k]);
            }
        }
        assert(s.subrange(e + 1, p + n) =~= f) by {
            assert forall|k: int| 0 <= k < f.len() implies s.subrange(e + 1, p + n)[k] == f[k] by {
                assert(s[p + (i.len() + 1 + k)] == w[i.len() + 1 + k]);
            }
        }
    }
}

proof fn lemma_ident_end_at(s: Seq<char>, p: int, k: int)
    requires
        0 <= p,
        0 <= k,
        p + k <= s.len(),
        forall|j: int| p <= j < p + k ==> is_ident_char(#[trigger] s[j]),
        p + k == s.len() || !is_ident_char(s[p + k]),
    ensures
        ident_end(s, p) == p + k,
    decreases k,
{
    if k > 0 {
        lemma_ident_end_at(s, p + 1, k - 1);
    }
}

proof fn lemma_skip_here(s: Seq<char>, p: int)
    requires
        0 <= p,
        p == s.len() || (p < s.len() && !is_blank(s[p])),
    ensures
        skip_spec(s, p) == p,
{
}

proof fn lemma_text_starts(t: Term)
    requires
        printable_form(t),
    ensures
        text(t).len() >= 1,
        !is_blank(text(t)[0]),
        text(t)[0] != ')',
        infix_spec(text(t)[0]) is None || text(t)[0] == '-',
{
    match t {
        Term::Num(d) => {
            lemma_literal_text(d);
            if d.scale_spec() != 0 {
                assert(decimal_text(d)[0] == d.int_text()[0]);
            }
            assert(is_digit(d.int_text()[0]));
        },
        Term::Mono(c, v, e) => {
            lemma_literal_text(c);
            if c.scale_spec() != 0 {
                assert(decimal_text(c)[0] == c.int_text()[0]);
            }
            assert(is_digit(c.int_text()[0]));
        },
        Term::Call(name, args) => {
            assert(text(t)[0] == name[0]);
        },
        _ => {},
    }
}

proof fn lemma_infix_of_char(op: Op)
    requires
        op != Op::Equals,
    ensures
        infix_spec(op_char(op)) == Some(op),
        !is_blank(op_char(op)) && !is_digit(op_char(op)) && !is_letter(op_char(op)) && op_char(op) != '.',
{
}

/// An operand followed by a character that no infix operator starts:
/// the expression is that operand alone.
proof fn lemma_expr_alone(s: Seq<char>, p: int, min: int, t: Term, e: int)
    requires
        0 <= p,
        primary_spec(s, p) == Some((t, e)),
        p < e <= s.len(),
        e == s.len() || (!is_blank(s[e]) && infix_spec(s[e]) is None),
    ensures
        expr_spec(s, p, min) == Some((t, e)),
{
    lemma_skip_here(s, e);
}

/// The printed form of a printable tree, followed by the end of an
/// operand, reads back as that tree.
proof fn lemma_primary_of_text(t: Term, s: Seq<char>, p: int)
    requires
        printable_form(t),
        holds_at(s, p, text(t)),
        operand_end(s, p + text(t).len()),
    ensures
        primary_spec(s, p) == Some((t, p + text(t).len())),
    decreases t, 1nat,
{
    match t {
        Term::Num(_) => lemma_num_of_text(t, s, p),
        Term::Neg(_) => lemma_neg_of_text(t, s, p),
        Term::Bin(..) => lemma_bin_of_text(t, s, p),
        Term::Mono(..) => lemma_mono_of_text(t, s, p),
        Term::Call(..) => lemma_call_of_text(t, s, p),
    }
}

proof fn lemma_num_of_text(t: Term, s: Seq<char>, p: int)
    requires
        t is Num,
        printable_form(t),
        holds_at(s, p, text(t)),
        operand_end(s, p + text(t).len()),
    ensures
        primary_spec(s, p) == Some((t, p + text(t).len())),
{
    let w = text(t);
    let n = w.len() as int;
    lemma_text_starts(t);
    lemma_holds_part(s, p, w, 0, n);
    assert(s[p] == w[0]);
    lemma_skip_here(s, p);
    match t {
        Term::Num(d) => {
            lemma_number_at(s, p, d);
            lemma_literal_text(d);
            if d.scale_spec() != 0 {
                assert(decimal_text(d)[0] == d.int_text()[0]);
            }
            assert(is_digit(d.int_text()[0]));
        },
        _ => {},
    }
}

#[verifier::rlimit(60)]
proof fn lemma_neg_of_text(t: Term, s: Seq<char>, p: int)
    requires
        t is Neg,
        printable_form(t),
        holds_at(s, p, text(t)),
        operand_end(s, p + text(t).len()),
    ensures
        primary_spec(s, p) == Some((t, p + text(t).len())),
    decreases t, 0nat,
{
    let w = text(t);
    let n = w.len() as int;
    lemma_text_starts(t);
    lemma_holds_part(s, p, w, 0, n);
    assert(s[p] == w[0]);
    lemma_skip_here(s, p);
    match t {
        Term::Neg(x) => {
            let tx = text(*x);
            let m = tx.len() as int;
            assert(w == seq!['-', '('] + tx + seq![')']);
            lemma_holds_part(s, p, w, 2, 2 + m);
            assert(w.subrange(2, 2 + m) =~= tx);
            assert(w[2 + m] == ')');
            assert(w[1] == '(');
            lemma_primary_of_text(*x, s, p + 2);
            lemma_expr_alone(s, p + 2, 1, *x, p + 2 + m);
            lemma_skip_here(s, p + 1);
            lemma_skip_here(s, p + 2 + m);
            assert(expr_spec(s, p + 2, 1) == Some((*x, p + 2 + m)));
            assert(s[p + 1] == '(' && s[p + 2 + m] == ')');
            assert(primary_spec(s, p + 1) == Some((*x, p + 3 + m)));
        },
        _ => {},
    }
}

#[verifier::rlimit(60)]
proof fn lemma_bin_of_text(t: Term, s: Seq<char>, p: int)
    requires
        t is Bin,
        printable_form(t),
        holds_at(s, p, text(t)),
        operand_end(s, p + text(t).len()),
    ensures
        primary_spec(s, p) == Some((t, p + text(t).len())),
    decreases t, 0nat,
{
    let w = text(t);
    let n = w.len() as int;
    lemma_text_starts(t);
    lemma_holds_part(s, p, w, 0, n);
    assert(s[p] == w[0]);
    lemma_skip_here(s, p);
    match t {
        Term::Bin(l, op, r) => {
            let tl = text(*l);
            let tr = text(*r);
            let a = tl.len() as int;
            let b = tr.len() as int;
            assert(w == seq!['('] + tl + seq![op_char(op)] + tr + seq![')']);
            lemma_holds_part(s, p, w, 1, 1 + a);
            assert(w.subrange(1, 1 + a) =~= tl);
            lemma_holds_part(s, p, w, 2 + a, 2 + a + b);
            assert(w.subrange(2 + a, 2 + a + b) =~= tr);
            assert(w[1 + a] == op_char(op));
            assert(w[2 + a + b] == ')');
            lemma_infix_of_char(op);
            lemma_primary_of_text(*l, s, p + 1);
            lemma_primary_of_text(*r, s, p + 2 + a);
            lemma_expr_alone(s, p + 2 + a, next_level(op), *r, p + 2 + a + b);
            lemma_skip_here(s, p + 1 + a);
            lemma_skip_here(s, p + 2 + a + b);
            let whole = Term::Bin(l, op, r);
            assert(expr_rest(s, whole, p + 2 + a + b, 1) == Some((whole, p + 2 + a + b)));
            assert(expr_rest(s, *l, p + 1 + a, 1) == Some((whole, p + 2 + a + b)));
            assert(expr_spec(s, p + 1, 1) == Some((whole, p + 2 + a + b)));
        },
        _ => {},
    }
}

#[verifier::rlimit(60)]
proof fn lemma_mono_of_text(t: Term, s: Seq<char>, p: int)
    requires
        t is Mono,
        printable_form(t),
        holds_at(s, p, text(t)),
        operand_end(s, p + text(t).len()),
    ensures
        primary_spec(s, p) == Some((t, p + text(t).len())),
{
    let w = text(t);
    let n = w.len() as int;
    lemma_text_starts(t);
    lemma_holds_part(s, p, w, 0, n);
    assert(s[p] == w[0]);
    lemma_skip_here(s, p);
    match t {
        Term::Mono(c, v, e) => {
            let tc = decimal_text(c);
            let te = decimal_text(e);
            let a = tc.len() as int;
            let k = v.len() as int;
            let b = te.len() as int;
            assert(w == tc + v + seq!['^', '('] + te + seq![')']);
            lemma_holds_part(s, p, w, 0, a);
            assert(w.subrange(0, a) =~= tc);
            assert(w[a] == v[0]);
            lemma_number_at(s, p, c);
            let r = p + a;
            assert forall|j: int| r + 1 <= j < r + k implies is_ident_char(#[trigger] s[j]) by {
                assert(s[p + (j - p)] == w[j - p]);
                assert(w[j - p] == v[j - r]);
            }
            assert(w[a + k] == '^');
            lemma_ident_end_at(s, r + 1, k - 1);
            let q = r + k;
            assert(w[a + k + 1] == '(');
            lemma_holds_part(s, p, w, a + k + 2, a + k + 2 + b);
            assert(w.subrange(a + k + 2, a + k + 2 + b) =~= te);
            assert(w[a + k + 2 + b] == ')');
            lemma_number_at(s, q + 2, e);
            assert(exponent_spec(s, q) == Some((e, q + 3 + b)));
            assert(s.subrange(r, q) =~= v) by {
                assert forall|j: int| 0 <= j < k implies s.subrange(r, q)[j] == v[j] by {
                    assert(s[p + (a + j)] == w[a + j]);
                }
            }
            assert(monomial_spec(s, r, c) == Some((t, p + n)));
        },
        _ => {},
    }
}

#[verifier::rlimit(60)]
proof fn lemma_call_of_text(t: Term, s: Seq<char>, p: int)
    requires
        t is Call,
        printable_form(t),
        holds_at(s, p, text(t)),
        operand_end(s, p + text(t).len()),
    ensures
        primary_spec(s, p) == Some((t, p + text(t).len())),
    decreases t, 0nat,
{
    let w = text(t);
    let n = w.len() as int;
    lemma_text_starts(t);
    lemma_holds_part(s, p, w, 0, n);
    lemma_skip_here(s, p);
    match t {
        Term::Call(name, args) => {
            let k = name.len() as int;
            let at = args_text(args);
            assert(w == name + seq!['('] + at + seq![')']);
            assert(s[p] == w[0] && w[0] == name[0]);
            assert forall|j: int| p + 1 <= j < p + k implies is_ident_char(#[trigger] s[j]) by {
                assert(s[p + (j - p)] == w[j - p]);
                assert(w[j - p] == name[j - p]);
            }
            assert(w[k] == '(');
            lemma_ident_end_at(s, p + 1, k - 1);
            lemma_skip_here(s, p + k);
            assert(s.subrange(p, p + k) =~= name) by {
                assert forall|j: int| 0 <= j < k implies s.subrange(p, p + k)[j] == name[j] by {
                    assert(s[p + j] == w[j]);
                }
            }
            lemma_holds_part(s, p, w, k + 1, n);
            assert(w.subrange(k + 1, n) =~= at + seq![')']);
            lemma_args_of_text(s, name, p + k + 1, args);
        },
        _ => {},
    }
}

proof fn lemma_all_printable_index(args: Seq<Term>, i: int)
    requires
        all_printable(args),
        0 <= i < args.len(),
    ensures
        printable_form(args[i]),
    decreases args.len(),
{
    if i < args.len() - 1 {
        let a1 = args.subrange(0, args.len() - 1);
        lemma_all_printable_index(a1, i);
        assert(a1[i] == args[i]);
    }
}

/// The text of the first `j` arguments begins the text of them all, and a
/// `", "` follows it when more arguments come.
proof fn lemma_args_text_prefix(args: Seq<Term>, j: int)
    requires
        1 <= j <= args.len(),
    ensures
        args_text(args.subrange(0, j)).len() <= args_text(args).len(),
        args_text(args).subrange(0, args_text(args.subrange(0, j)).len() as int) == args_text(args.subrange(0, j)),
        j < args.len() ==> args_text(args).len() >= args_text(args.subrange(0, j)).len() + 2
            && args_text(args)[args_text(args.subrange(0, j)).len() as int] == ','
            && args_text(args)[args_text(args.subrange(0, j)).len() as int + 1] == ' ',
    decreases args.len(),
{
    let n = args.len() as int;
    if j == n {
        assert(args.subrange(0, j) =~= args);
        assert(args_text(args).subrange(0, args_text(args).len() as int) =~= args_text(args));
    } else {
        let a1 = args.subrange(0, n - 1);
        lemma_args_text_prefix(a1, j);
        assert(a1.subrange(0, j) =~= args.subrange(0, j));
        let whole = args_text(args);
        let head = args_text(a1);
        assert(whole == head + seq![',', ' '] + text(args[n - 1]));
        let l = args_text(args.subrange(0, j)).len() as int;
        assert(whole.subrange(0, l) =~= head.subrange(0, l));
        if j == n - 1 {
            assert(a1.subrange(0, j) =~= a1);
            assert(head.subrange(0, head.len() as int) =~= head);
        } else {
            assert(whole[l] == head[l]);
            assert(whole[l + 1] == head[l + 1]);
        }
    }
}

proof fn lemma_primary_after_blank(s: Seq<char>, p: int)
    requires
        0 <= p,
        p + 1 < s.len(),
        is_blank(s[p]),
        !is_blank(s[p + 1]),
    ensures
        primary_spec(s, p) == primary_spec(s, p + 1),
{
    lemma_skip_here(s, p + 1);
    assert(skip_spec(s, p) == p + 1);
}

proof fn lemma_args_of_text(s: Seq<char>, name: Seq<char>, start: int, args: Seq<Term>)
    requires
        all_printable(args),
        holds_at(s, start, args_text(args) + seq![')']),
    ensures
        call_spec(s, name, start, Seq::empty(), start) == Some((Term::Call(name, args), start + args_text(args).len() + 1)),
    decreases args, 1nat,
{
    let w = args_text(args) + seq![')'];
    lemma_holds_part(s, start, w, 0, w.len() as int);
    if args.len() == 0 {
        assert(s[start] == w[0]);
        lemma_skip_here(s, start);
        assert(args =~= Seq::<Term>::empty());
    } else {
        assert(args.subrange(0, 0) =~= Seq::<Term>::empty());
        lemma_args_from(s, name, start, args, 0);
    }
}

/// Where the reading of argument `i` starts: the list's start for the
/// first, the blank after the preceding comma for the others.
pub open spec fn arg_position(args: Seq<Term>, start: int, i: int) -> int {
    if i == 0 {
        start
    } else {
        start + args_text(args.subrange(0, i)).len() + 1
    }
}

#[verifier::rlimit(60)]
proof fn lemma_args_from(s: Seq<char>, name: Seq<char>, start: int, args: Seq<Term>, i: int)
    requires
        all_printable(args),
        holds_at(s, start, args_text(args) + seq![')']),
        0 <= i < args.len(),
    ensures
        call_spec(s, name, start, args.subrange(0, i), arg_position(args, start, i)) == Some(
            (Term::Call(name, args), start + args_text(args).len() + 1),
        ),
    decreases args, 0nat, args.len() - i,
{
    let n = args.len() as int;
    let at = args_text(args);
    let w = at + seq![')'];
    lemma_holds_part(s, start, w, 0, w.len() as int);
    let ti = text(args[i]);
    let m = ti.len() as int;
    lemma_all_printable_index(args, i);
    lemma_text_starts(args[i]);
    lemma_args_text_prefix(args, i + 1);
    let pre = args.subrange(0, i + 1);
    assert(pre.subrange(0, pre.len() - 1) =~= args.subrange(0, i));
    assert(pre[pre.len() - 1] == args[i]);
    let l1 = args_text(pre).len() as int;
    let begin = l1 - m;
    if i == 0 {
        assert(args_text(pre) == ti);
    } else {
        lemma_args_text_prefix(args, i);
        assert(args_text(pre) == args_text(args.subrange(0, i)) + seq![',', ' '] + ti);
    }
    assert(at.subrange(begin, l1) =~= ti) by {
        assert forall|k: int| 0 <= k < m implies at.subrange(begin, l1)[k] == ti[k] by {
            assert(at.subrange(0, l1)[begin + k] == args_text(pre)[begin + k]);
        }
    }
    lemma_holds_part(s, start, w, begin, l1);
    assert(w.subrange(begin, l1) =~= ti);
    let q = start + l1;
    if i + 1 < n {
        assert(w[l1] == ',');
        assert(w[l1 + 1] == ' ');
    } else {
        assert(pre =~= args);
        assert(w[l1] == ')');
    }
    assert(s[q] == w[l1]);
    lemma_primary_of_text(args[i], s, start + begin);
    let pos = arg_position(args, start, i);
    if i > 0 {
        assert(pos + 1 == start + begin);
        assert(s[pos] == w[begin - 1]);
        lemma_primary_after_blank(s, pos);
    }
    lemma_expr_alone(s, pos, 1, args[i], q);
    lemma_skip_here(s, q);
    if i == 0 {
        assert(s[start] == w[0]);
        assert(w[0] == ti[0]);
        lemma_skip_here(s, start);
    }
    assert(args.subrange(0, i).push(args[i]) =~= pre);
    if i + 1 < n {
        lemma_args_from(s, name, start, args, i + 1);
        assert(arg_position(args, start, i + 1) == q + 1);
    }
}

/// Printing then parsing gives back every printable tree: numeric
/// literals, negations, binary operations other than `=`, and calls and
/// monomials with identifier names.
pub proof fn lemma_printed_text_round_trip(t: Term)
    requires
        printable_form(t),
    ensures
        parse_spec(text(t)) == Some(t),
{
    let s = text(t);
    lemma_text_starts(t);
    assert(s.subrange(0, s.len() as int) =~= s);
    lemma_primary_of_text(t, s, 0);
    lemma_expr_alone(s, 0, 1, t, s.len() as int);
    lemma_skip_here(s, s.len() as int);
}

proof fn lemma_digits_end_props(s: Seq<char>, p: int)
    requires
        0 <= p <= s.len(),
    ensures
        p <= digits_end(s, p) <= s.len(),
        forall|j: int| p <= j < digits_end(s, p) ==> is_digit(#[trigger] s[j]),
    decreases s.len() - p,
{
    if p < s.len() && is_digit(s[p]) {
        lemma_digits_end_props(s, p + 1);
    }
}

proof fn lemma_ident_end_props(s: Seq<char>, p: int)
    requires
        0 <= p <= s.len(),
    ensures
        p <= ident_end(s, p) <= s.len(),
        forall|j: int| p <= j < ident_end(s, p) ==> is_ident_char(#[trigger] s[j]),
    decreases s.len() - p,
{
    if p < s.len() && is_ident_char(s[p]) {
        lemma_ident_end_props(s, p + 1);
    }
}

proof fn lemma_number_literal(s: Seq<char>, p: int)
    requires
        0 <= p < s.len(),
        is_digit(s[p]),
        number_spec(s, p) is Some,
    ensures
        number_spec(s, p)->Some_0.0.is_literal(),
        p < number_spec(s, p)->Some_0.1 <= s.len(),
{
    let e = digits_end(s, p);
    lemma_digits_end_props(s, p);
    lemma_digits_end_props(s, p + 1);
    let i = s.subrange(p, e);
    assert(all_digits(i)) by {
        assert forall|k: int| 0 <= k < i.len() implies is_digit(#[trigger] i[k]) by {
            assert(i[k] == s[p + k]);
        }
    }
    let q = if e < s.len() && s[e] == '.' && e + 1 < s.len() && is_digit(s[e + 1]) {
        digits_end(s, e + 1)
    } else {
        e
    };
    let f = if q == e { Seq::empty() } else { s.subrange(e + 1, q) };
    if q != e {
        lemma_digits_end_props(s, e + 1);
        assert(all_digits(f)) by {
            assert forall|k: int| 0 <= k < f.len() implies is_digit(#[trigger] f[k]) by {
                assert(f[k] == s[e + 1 + k]);
            }
        }
    } else {
        assert(all_digits(f));
    }
    lemma_literal_spec_is_literal(i, f);
}

proof fn lemma_exponent_literal(s: Seq<char>, p: int)
    requires
        0 <= p <= s.len(),
        exponent_spec(s, p) is Some,
    ensures
        exponent_spec(s, p)->Some_0.0.is_literal(),
        p <= exponent_spec(s, p)->Some_0.1 <= s.len(),
{
    lemma_one_is_literal();
    if 0 <= p < s.len() && s[p] == '^' && p + 1 < s.len() && is_digit(s[p + 1]) {
        lemma_number_literal(s, p + 1);
    } else if 0 <= p < s.len() && s[p] == '^' && p + 1 < s.len() && s[p + 1] == '(' && p + 2 < s.len()
        && is_digit(s[p + 2]) {
        lemma_number_literal(s, p + 2);
    }
}

proof fn lemma_monomial_printable(s: Seq<char>, p: int, c: Decimal)
    requires
        0 <= p < s.len(),
        is_letter(s[p]),
        c.is_literal(),
        monomial_spec(s, p, c) is Some,
    ensures
        printable_form(monomial_spec(s, p, c)->Some_0.0),
        p < monomial_spec(s, p, c)->Some_0.1 <= s.len(),
{
    let q = ident_end(s, p + 1);
    lemma_ident_end_props(s, p + 1);
    lemma_exponent_literal(s, q);
    let v = s.subrange(p, q);
    assert(is_identifier(v)) by {
        assert(v[0] == s[p]);
        assert forall|k: int| 0 <= k < v.len() implies is_ident_char(#[trigger] v[k]) by {
            assert(v[k] == s[p + k]);
        }
    }
}

proof fn lemma_primary_printable(s: Seq<char>, p: int)
    requires
        primary_spec(s, p) is Some,
    ensures
        printable_form(primary_spec(s, p)->Some_0.0),
    decreases s.len() - p, 0nat,
{
    let q = skip_spec(s, p);
    if s[q] == '-' {
        lemma_primary_printable(s, q + 1);
    } else if s[q] == '(' {
        lemma_expr_printable(s, q + 1, 1);
    } else if is_digit(s[q]) {
        lemma_number_literal(s, q);
        let r = number_spec(s, q)->Some_0.1;
        if r < s.len() && is_letter(s[r]) {
            lemma_monomial_printable(s, r, number_spec(s, q)->Some_0.0);
        }
    } else if is_letter(s[q]) {
        let e = ident_end(s, q + 1);
        let e2 = skip_spec(s, e);
        if q < e <= e2 < s.len() && s[e2] == '(' {
            lemma_ident_end_props(s, q + 1);
            let name = s.subrange(q, e);
            assert(is_identifier(name)) by {
                assert(name[0] == s[q]);
                assert forall|k: int| 0 <= k < name.len() implies is_ident_char(#[trigger] name[k]) by {
                    assert(name[k] == s[q + k]);
                }
            }
            lemma_call_printable(s, name, e2 + 1, Seq::empty(), e2 + 1);
        } else {
            lemma_one_is_literal();
            lemma_monomial_printable(s, q, Decimal::int_spec(1));
        }
    }
}

proof fn lemma_expr_printable(s: Seq<char>, p: int, min: int)
    requires
        expr_spec(s, p, min) is Some,
    ensures
        printable_form(expr_spec(s, p, min)->Some_0.0),
    decreases s.len() - p, 1nat,
{
    lemma_primary_printable(s, p);
    let (l, q) = primary_spec(s, p)->Some_0;
    lemma_rest_printable(s, l, q, min);
}

proof fn lemma_rest_printable(s: Seq<char>, lhs: Term, p: int, min: int)
    requires
        printable_form(lhs),
        expr_rest(s, lhs, p, min) is Some,
    ensures
        printable_form(expr_rest(s, lhs, p, min)->Some_0.0),
    decreases s.len() - p, 0nat,
{
    let q = skip_spec(s, p);
    if p < 0 || q < p || q >= s.len() || infix_spec(s[q]) is None || level_of(infix_spec(s[q])->Some_0) < min {
    } else {
        let op = infix_spec(s[q])->Some_0;
        lemma_expr_printable(s, q + 1, next_level(op));
        let (r, e) = expr_spec(s, q + 1, next_level(op))->Some_0;
        lemma_rest_printable(s, Term::Bin(Box::new(lhs), op, Box::new(r)), e, min);
    }
}

proof fn lemma_call_printable(s: Seq<char>, name: Seq<char>, start: int, args: Seq<Term>, p: int)
    requires
        is_identifier(name),
        all_printable(args),
        call_spec(s, name, start, args, p) is Some,
    ensures
        printable_form(call_spec(s, name, start, args, p)->Some_0.0),
    decreases s.len() - p, 2nat,
{
    let b = skip_spec(s, start);
    if args.len() == 0 && p == start && b < s.len() && s[b] == ')' {
    } else {
        lemma_expr_printable(s, p, 1);
        let (a, q) = expr_spec(s, p, 1)->Some_0;
        let more = args.push(a);
        assert(more.subrange(0, more.len() - 1) =~= args);
        assert(all_printable(more));
        let q2 = skip_spec(s, q);
        if s[q2] == ',' {
            lemma_call_printable(s, name, start, more, q2 + 1);
        }
    }
}

/// No `=` stands in `s`.
pub open spec fn no_equals(s: Seq<char>) -> bool {
    forall|k: int| 0 <= k < s.len() ==> s[k] != '='
}

proof fn lemma_no_equals_count(s: Seq<char>)
    requires
        no_equals(s),
    ensures
        count_char(s, '=') == 0,
    decreases s.len(),
{
    if s.len() > 0 {
        assert(no_equals(s.drop_last()));
        lemma_no_equals_count(s.drop_last());
    }
}

proof fn lemma_no_equals_concat(a: Seq<char>, b: Seq<char>)
    requires
        no_equals(a),
        no_equals(b),
    ensures
        no_equals(a + b),
{
    assert forall|k: int| 0 <= k < (a + b).len() implies (a + b)[k] != '=' by {
        if k < a.len() {
            assert((a + b)[k] == a[k]);
        } else {
            assert((a + b)[k] == b[k - a.len()]);
        }
    }
}

proof fn lemma_text_no_equals(t: Term)
    requires
        printable_form(t),
    ensures
        no_equals(text(t)),
    decreases t, 1nat,
{
    match t {
        Term::Num(d) => {
            lemma_decimal_text_chars(d);
        },
        Term::Neg(x) => {
            lemma_text_no_equals(*x);
            lemma_no_equals_concat(seq!['-', '('], text(*x));
            lemma_no_equals_concat(seq!['-', '('] + text(*x), seq![')']);
        },
        Term::Bin(l, op, r) => {
            lemma_text_no_equals(*l);
            lemma_text_no_equals(*r);
            assert(op_char(op) != '=');
            lemma_no_equals_concat(seq!['('], text(*l));
            lemma_no_equals_concat(seq!['('] + text(*l), seq![op_char(op)]);
            lemma_no_equals_concat(seq!['('] + text(*l) + seq![op_char(op)], text(*r));
            lemma_no_equals_concat(seq!['('] + text(*l) + seq![op_char(op)] + text(*r), seq![')']);
        },
        Term::Call(name, args) => {
            lemma_args_no_equals(args);
            assert(no_equals(name));
            lemma_no_equals_concat(name, seq!['(']);
            lemma_no_equals_concat(name + seq!['('], args_text(args));
            lemma_no_equals_concat(name + seq!['('] + args_text(args), seq![')']);
        },
        Term::Mono(c, v, e) => {
            lemma_decimal_text_chars(c);
            lemma_decimal_text_chars(e);
            assert(no_equals(v));
            lemma_no_equals_concat(decimal_text(c), v);
            lemma_no_equals_concat(decimal_text(c) + v, seq!['^', '(']);
            lemma_no_equals_concat(decimal_text(c) + v + seq!['^', '('], decimal_text(e));
            lemma_no_equals_concat(decimal_text(c) + v + seq!['^', '('] + decimal_text(e), seq![')']);
        },
    }
}

proof fn lemma_args_no_equals(args: Seq<Term>)
    requires
        all_printable(args),
    ensures
        no_equals(args_text(args)),
    decreases args, 0nat,
{
    if args.len() == 1 {
        lemma_text_no_equals(args[0]);
    } else if args.len() > 1 {
        let a1 = args.subrange(0, args.len() - 1);
        lemma_args_no_equals(a1);
        lemma_text_no_equals(args[args.len() - 1]);
        lemma_no_equals_concat(args_text(a1), seq![',', ' ']);
        lemma_no_equals_concat(args_text(a1) + seq![',', ' '], text(args[args.len() - 1]));
    }
}

/// Parse–print round trip: for every text that `parse` accepts as an
/// expression (a tree without `=` at its root), the printed form holds no
/// `=` and parses back to the same tree.
pub proof fn lemma_parse_print_round_trip(t: Seq<char>)
    requires
        count_char(t, '=') <= 1,
        parse_spec(t) is Some,
        !(parse_spec(t)->Some_0 is Bin && parse_spec(t)->Some_0->Bin_1 == Op::Equals),
    ensures
        count_char(text(parse_spec(t)->Some_0), '=') == 0,
        parse_spec(text(parse_spec(t)->Some_0)) == parse_spec(t),
{
    lemma_expr_printable(t, 0, 1);
    lemma_printed_text_round_trip(parse_spec(t)->Some_0);
    lemma_text_no_equals(parse_spec(t)->Some_0);
    lemma_no_equals_count(text(parse_spec(t)->Some_0));
}

} // verus!
