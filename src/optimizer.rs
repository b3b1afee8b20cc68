//! Algebraic simplification by rewriting to a fixpoint, and isolation of a
//! target variable in an equation.
use vstd::prelude::*;
use crate::number::Decimal;
use crate::error::RewriteError;
use crate::expr::{Expr, Op, Term, precedence_of};

verus! {

/// Most rewriting passes that `optimize_expression` and `optimize_equation`
/// run before they stop without a fixpoint.
pub const MAX_PASSES: u32 = 10000;

pub open spec fn num(n: int) -> Term {
    Term::Num(Decimal::int_spec(n))
}

pub open spec fn bin(l: Term, op: Op, r: Term) -> Term {
    Term::Bin(Box::new(l), op, Box::new(r))
}

pub open spec fn neg(x: Term) -> Term {
    Term::Neg(Box::new(x))
}

/// A monomial in the target variable.
pub open spec fn is_target(t: Term, target: Seq<char>) -> bool {
    t is Mono && t->Mono_1 == target
}

/// Merges two monomials in the same variable, where the rule for `op`
/// applies and the new coefficient and exponent can be held.
pub open spec fn merge_monomials(c1: Decimal, v: Seq<char>, e1: Decimal, op: Op, c2: Decimal, e2: Decimal) -> Option<Term> {
    match op {
        Op::Add => if e1 == e2 {
            match c1.add_spec(c2) {
                Some(c) => Some(Term::Mono(c, v, e1)),
                None => None,
            }
        } else {
            None
        },
        Op::Subtract => if e1 == e2 {
            match c1.sub_spec(c2) {
                Some(c) => Some(Term::Mono(c, v, e1)),
                None => None,
            }
        } else {
            None
        },
        Op::Multiply => match (c1.mul_spec(c2), e1.add_spec(e2)) {
            (Some(c), Some(e)) => Some(Term::Mono(c, v, e)),
            _ => None,
        },
        _ => None,
    }
}

/// The last step for a binary operation: combining like monomials, and
/// moving a target monomial out of a left operand of equal precedence to
/// make room for a monomial `r` in another variable. A target monomial `r`
/// is never moved in, so that two hoists cannot undo each other.
pub open spec fn combine(l: Term, op: Op, r: Term, target: Seq<char>) -> Term {
    match l {
        Term::Mono(c1, v1, e1) => match r {
            Term::Mono(c2, v2, e2) => if v1 == v2 {
                match merge_monomials(c1, v1, e1, op, c2, e2) {
                    Some(m) => m,
                    None => bin(l, op, r),
                }
            } else {
                bin(l, op, r)
            },
            _ => bin(l, op, r),
        },
        Term::Bin(ll, lop, lr) => if r is Mono && !is_target(r, target) && precedence_of(lop) == precedence_of(
            op,
        ) {
            if is_target(*lr, target) {
                bin(bin(*ll, op, r), lop, *lr)
            } else if is_target(*ll, target) {
                let moved = if op == Op::Subtract { neg(r) } else { r };
                bin(bin(moved, lop, *lr), op, *ll)
            } else {
                bin(l, op, r)
            }
        } else {
            bin(l, op, r)
        },
        _ => bin(l, op, r),
    }
}

pub open spec fn both_monomials(l: Term, r: Term) -> bool {
    l is Mono && r is Mono
}

/// Rules for `l + r`, on simplified operands.
pub open spec fn add_rules(l: Term, r: Term, target: Seq<char>) -> Term {
    if l == num(0) {
        r
    } else if r == num(0) {
        l
    } else if l == r && !both_monomials(l, r) {
        bin(num(2), Op::Multiply, l)
    } else if r is Neg {
        bin(l, Op::Subtract, *r->Neg_0)
    } else {
        combine(l, Op::Add, r, target)
    }
}

/// Rules for `l - r`, on simplified operands.
pub open spec fn subtract_rules(l: Term, r: Term, target: Seq<char>) -> Term {
    if r == num(0) {
        l
    } else if l == num(0) {
        neg(r)
    } else if l == r {
        num(0)
    } else if r is Neg {
        bin(l, Op::Add, *r->Neg_0)
    } else {
        combine(l, Op::Subtract, r, target)
    }
}

pub open spec fn same_power_base(l: Term, r: Term) -> bool {
    l is Bin && r is Bin && l->Bin_1 == Op::Power && r->Bin_1 == Op::Power && l->Bin_0 == r->Bin_0
}

/// Rules for `l * r`, on simplified operands.
pub open spec fn multiply_rules(l: Term, r: Term, target: Seq<char>) -> Term {
    if l == num(1) {
        r
    } else if r == num(1) {
        l
    } else if l == num(0) || r == num(0) {
        num(0)
    } else if l == r && !both_monomials(l, r) {
        bin(l, Op::Power, num(2))
    } else if same_power_base(l, r) {
        bin(*l->Bin_0, Op::Power, bin(*l->Bin_2, Op::Add, *r->Bin_2))
    } else {
        combine(l, Op::Multiply, r, target)
    }
}

/// The monomial `l` divided by the number `r`, where the quotient is exact.
pub open spec fn divided_monomial(l: Term, r: Term) -> Option<Term> {
    if l is Mono && r is Num {
        match l->Mono_0.div_spec(r->Num_0) {
            Some(c) => Some(Term::Mono(c, l->Mono_1, l->Mono_2)),
            None => None,
        }
    } else {
        None
    }
}

/// Rules for `l / r`, on simplified operands.
pub open spec fn divide_rules(l: Term, r: Term, target: Seq<char>) -> Term {
    if r == num(1) {
        l
    } else if divided_monomial(l, r) is Some {
        divided_monomial(l, r)->Some_0
    } else if l == r {
        num(1)
    } else {
        combine(l, Op::Divide, r, target)
    }
}

/// Rules for `l ^ r`, on simplified operands.
pub open spec fn power_rules(l: Term, r: Term, target: Seq<char>) -> Term {
    if r == num(0) {
        num(1)
    } else if r == num(1) {
        l
    } else if r is Neg && *r->Neg_0 is Num {
        bin(num(1), Op::Divide, bin(l, Op::Power, *r->Neg_0))
    } else {
        combine(l, Op::Power, r, target)
    }
}

pub open spec fn binary_rules(l: Term, op: Op, r: Term, target: Seq<char>) -> Term {
    match op {
        Op::Add => add_rules(l, r, target),
        Op::Subtract => subtract_rules(l, r, target),
        Op::Multiply => multiply_rules(l, r, target),
        Op::Divide => divide_rules(l, r, target),
        Op::Power => power_rules(l, r, target),
        _ => bin(l, op, r),
    }
}

/// Rules for a monomial: a zero coefficient gives 0, a zero exponent 1, and
/// a negative coefficient moves out as a negation.
pub open spec fn monomial_rules(c: Decimal, v: Seq<char>, e: Decimal) -> Term {
    if c == Decimal::int_spec(0) {
        num(0)
    } else if e == Decimal::int_spec(0) {
        num(1)
    } else if c.is_negative_spec() && c.abs_spec() is Some {
        neg(Term::Mono(c.abs_spec()->Some_0, v, e))
    } else {
        Term::Mono(c, v, e)
    }
}

/// Rules for a negation of a simplified operand. Distribution over a binary
/// operation applies only in equation mode (`eq`).
pub open spec fn negation_rules(x: Term, eq: bool) -> Term {
    if x is Neg {
        *x->Neg_0
    } else if x == num(0) {
        num(0)
    } else if x is Bin && eq {
        bin(neg(*x->Bin_0), x->Bin_1, neg(*x->Bin_2))
    } else {
        neg(x)
    }
}

/// One bottom-up rewriting pass; `eq` is set when simplifying a side of an
/// equation.
pub open spec fn optimize_spec(t: Term, target: Seq<char>, eq: bool) -> Term
    decreases t,
{
    match t {
        Term::Bin(l, op, r) => binary_rules(optimize_spec(*l, target, eq), op, optimize_spec(*r, target, eq), target),
        Term::Mono(c, v, e) => monomial_rules(c, v, e),
        Term::Neg(x) => negation_rules(optimize_spec(*x, target, eq), eq),
        Term::Call(name, args) => Term::Call(name, optimize_args(args, target, eq)),
        _ => t,
    }
}

/// One pass over each argument of a call.
pub open spec fn optimize_args(args: Seq<Term>, target: Seq<char>, eq: bool) -> Seq<Term>
    decreases args,
{
    if args.len() == 0 {
        Seq::empty()
    } else {
        optimize_args(args.subrange(0, args.len() - 1), target, eq).push(optimize_spec(args[args.len() - 1], target, eq))
    }
}

/// Passes from `t` until one changes nothing: the tree that a pass leaves
/// unchanged, or `None` when `fuel` more passes do not reach one.
pub open spec fn settle(t: Term, target: Seq<char>, eq: bool, fuel: nat) -> Option<Term>
    decreases fuel,
{
    let n = optimize_spec(t, target, eq);
    if n == t {
        Some(t)
    } else if fuel == 0 {
        None
    } else {
        settle(n, target, eq, (fuel - 1) as nat)
    }
}

/// A tree that `settle` yields is unchanged by one more pass.
pub proof fn lemma_settle_fixpoint(t: Term, target: Seq<char>, eq: bool, fuel: nat)
    requires
        settle(t, target, eq, fuel) is Some,
    ensures
        optimize_spec(settle(t, target, eq, fuel)->Some_0, target, eq) == settle(t, target, eq, fuel)->Some_0,
    decreases fuel,
{
    if optimize_spec(t, target, eq) != t && fuel > 0 {
        lemma_settle_fixpoint(optimize_spec(t, target, eq), target, eq, (fuel - 1) as nat);
    }
}

/// The isolation rules for an equation `a = b`, first match wins; `T` is a
/// monomial in the target variable.
pub open spec fn equation_rules(a: Term, b: Term, t: Seq<char>) -> (Term, Term) {
    if a is Bin && a->Bin_1 == Op::Add && is_target(*a->Bin_0, t) {
        // T + x = b  =>  T = b - x
        (*a->Bin_0, bin(b, Op::Subtract, *a->Bin_2))
    } else if a is Bin && a->Bin_1 == Op::Add && is_target(*a->Bin_2, t) {
        // x + T = b  =>  T = b - x
        (*a->Bin_2, bin(b, Op::Subtract, *a->Bin_0))
    } else if b is Bin && b->Bin_1 == Op::Add && is_target(*b->Bin_0, t) {
        // a = T + y  =>  a - T = y
        (bin(a, Op::Subtract, *b->Bin_0), *b->Bin_2)
    } else if b is Bin && b->Bin_1 == Op::Add && is_target(*b->Bin_2, t) {
        // a = y + T  =>  a - T = y
        (bin(a, Op::Subtract, *b->Bin_2), *b->Bin_0)
    } else if a is Bin && a->Bin_1 == Op::Subtract && is_target(*a->Bin_0, t) {
        // T - x = b  =>  T = b + x
        (*a->Bin_0, bin(b, Op::Add, *a->Bin_2))
    } else if a is Bin && a->Bin_1 == Op::Subtract && is_target(*a->Bin_2, t) {
        // x - T = b  =>  T = -b + x
        (*a->Bin_2, bin(neg(b), Op::Add, *a->Bin_0))
    } else if b is Bin && b->Bin_1 == Op::Subtract && is_target(*b->Bin_0, t) {
        // a = T - y  =>  a - T = -y
        (bin(a, Op::Subtract, *b->Bin_0), neg(*b->Bin_2))
    } else if b is Bin && b->Bin_1 == Op::Subtract && is_target(*b->Bin_2, t) {
        // a = y - T  =>  a + T = y
        (bin(a, Op::Add, *b->Bin_2), *b->Bin_0)
    } else if a is Neg && is_target(*a->Neg_0, t) {
        // -(T) = b  =>  T = -(b)
        (*a->Neg_0, neg(b))
    } else if is_target(a, t) {
        // cT^n = b  =>  T^n = b / c
        (Term::Mono(Decimal::int_spec(1), a->Mono_1, a->Mono_2), bin(b, Op::Divide, Term::Num(a->Mono_0)))
    } else {
        (a, b)
    }
}

/// Both sides of an equation simplified to a fixpoint, in equation mode.
pub open spec fn settle_sides(p: (Term, Term), t: Seq<char>) -> Option<(Term, Term)> {
    match (settle(p.0, t, true, MAX_PASSES as nat), settle(p.1, t, true, MAX_PASSES as nat)) {
        (Some(a), Some(b)) => Some((a, b)),
        _ => None,
    }
}

/// One isolation step followed by simplifying both sides.
pub open spec fn solve_step(p: (Term, Term), t: Seq<char>) -> Option<(Term, Term)> {
    settle_sides(equation_rules(p.0, p.1, t), t)
}

/// Steps from `p` until one changes nothing: the sides that a step leaves
/// unchanged, or `None` when a simplification or `fuel` more steps do not
/// reach one.
pub open spec fn solve(p: (Term, Term), t: Seq<char>, fuel: nat) -> Option<(Term, Term)>
    decreases fuel,
{
    match solve_step(p, t) {
        None => None,
        Some(n) => if n == p {
            Some(p)
        } else if fuel == 0 {
            None
        } else {
            solve(n, t, (fuel - 1) as nat)
        },
    }
}

/// Sides that `solve` yields are unchanged by one more step.
pub proof fn lemma_solve_fixpoint(p: (Term, Term), t: Seq<char>, fuel: nat)
    requires
        solve(p, t, fuel) is Some,
    ensures
        solve_step(solve(p, t, fuel)->Some_0, t) == Some(solve(p, t, fuel)->Some_0),
    decreases fuel,
{
    let n = solve_step(p, t)->Some_0;
    if n != p && fuel > 0 {
        lemma_solve_fixpoint(n, t, (fuel - 1) as nat);
    }
}

/// The equation that `optimize_equation` makes of the sides `l = r`, or
/// `None` when it reaches no fixpoint.
pub open spec fn solved(l: Term, r: Term, t: Seq<char>) -> Option<Term> {
    match settle_sides((l, r), t) {
        None => None,
        Some(p) => match solve(p, t, MAX_PASSES as nat) {
            Some(q) => Some(bin(q.0, Op::Equals, q.1)),
            None => None,
        },
    }
}

fn mk_bin(l: Expr, op: Op, r: Expr) -> (e: Expr)
    ensures
        e@ == bin(l@, op, r@),
{
    Expr::BinOp { lhs: Box::new(l), op, rhs: Box::new(r) }
}

fn mk_num(n: i64) -> (e: Expr)
    ensures
        e@ == num(n as int),
{
    Expr::Number(Decimal::from_int(n))
}

fn is_num_zero(e: &Expr) -> (r: bool)
    ensures
        r == (e@ == num(0)),
{
    match e {
        Expr::Number(d) => d.is_zero(),
        _ => false,
    }
}

fn is_num_one(e: &Expr) -> (r: bool)
    ensures
        r == (e@ == num(1)),
{
    match e {
        Expr::Number(d) => d.is_one(),
        _ => false,
    }
}

fn is_monomial(e: &Expr) -> (r: bool)
    ensures
        r == (e@ is Mono),
{
    match e {
        Expr::Monomial { .. } => true,
        _ => false,
    }
}

fn is_target_monomial(e: &Expr, target: &String) -> (r: bool)
    ensures
        r == is_target(e@, target@),
{
    match e {
        Expr::Monomial { variable, .. } => *variable == *target,
        _ => false,
    }
}

fn same_precedence(a: Op, b: Op) -> (r: bool)
    ensures
        r == (precedence_of(a) == precedence_of(b)),
{
    match (a.get_precedence(), b.get_precedence()) {
        (Some(x), Some(y)) => x == y,
        (None, None) => true,
        _ => false,
    }
}

fn merge_exec(c1: Decimal, v: &String, e1: Decimal, op: Op, c2: Decimal, e2: Decimal) -> (r: Option<Expr>)
    ensures
        r is Some == merge_monomials(c1, v@, e1, op, c2, e2) is Some,
        r is Some ==> r->Some_0@ == merge_monomials(c1, v@, e1, op, c2, e2)->Some_0,
{
    let (c, e) = match op {
        Op::Add | Op::Subtract => {
            if e1 != e2 {
                return None;
            }
            let c = if op == Op::Add { c1.checked_add(&c2) } else { c1.checked_sub(&c2) };
            (c, Some(e1))
        },
        Op::Multiply => (c1.checked_mul(&c2), e1.checked_add(&e2)),
        _ => {
            return None;
        },
    };
    match (c, e) {
        (Some(c), Some(e)) => Some(Expr::Monomial { coefficient: c, variable: v.clone(), exponent: e }),
        _ => None,
    }
}

fn combine_exec(l: Expr, op: Op, r: Expr, target: &String) -> (res: Expr)
    ensures
        res@ == combine(l@, op, r@, target@),
{
    let merged: Option<Expr> = match &l {
        Expr::Monomial { coefficient: c1, variable: v1, exponent: e1 } => match &r {
            Expr::Monomial { coefficient: c2, variable: v2, exponent: e2 } => {
                if *v1 == *v2 {
                    merge_exec(*c1, v1, *e1, op, *c2, *e2)
                } else {
                    None
                }
            },
            _ => None,
        },
        _ => None,
    };
    if let Some(m) = merged {
        return m;
    }
    let hoist: u8 = match &l {
        Expr::BinOp { lhs: ll, op: lop, rhs: lr } => {
            if is_monomial(&r) && !is_target_monomial(&r, target) && same_precedence(*lop, op) {
                if is_target_monomial(lr, target) {
                    1
                } else if is_target_monomial(ll, target) {
                    2
                } else {
                    0
                }
            } else {
                0
            }
        },
        _ => 0,
    };
    if hoist == 0 {
        return mk_bin(l, op, r);
    }
    match l {
        Expr::BinOp { lhs: ll, op: lop, rhs: lr } => {
            if hoist == 1 {
                mk_bin(mk_bin(*ll, op, r), lop, *lr)
            } else {
                let moved = if op == Op::Subtract { Expr::UnaryMinus(Box::new(r)) } else { r };
                mk_bin(mk_bin(moved, lop, *lr), op, *ll)
            }
        },
        other => mk_bin(other, op, r),
    }
}

fn add_exec(l: Expr, r: Expr, target: &String) -> (res: Expr)
    ensures
        res@ == add_rules(l@, r@, target@),
{
    if is_num_zero(&l) {
        return r;
    }
    if is_num_zero(&r) {
        return l;
    }
    if l.same(&r) && !(is_monomial(&l) && is_monomial(&r)) {
        return mk_bin(mk_num(2), Op::Multiply, l);
    }
    match r {
        Expr::UnaryMinus(inner) => mk_bin(l, Op::Subtract, *inner),
        other => combine_exec(l, Op::Add, other, target),
    }
}

fn subtract_exec(l: Expr, r: Expr, target: &String) -> (res: Expr)
    ensures
        res@ == subtract_rules(l@, r@, target@),
{
    if is_num_zero(&r) {
        return l;
    }
    if is_num_zero(&l) {
        return Expr::UnaryMinus(Box::new(r));
    }
    if l.same(&r) {
        return mk_num(0);
    }
    match r {
        Expr::UnaryMinus(inner) => mk_bin(l, Op::Add, *inner),
        other => combine_exec(l, Op::Subtract, other, target),
    }
}

fn same_power_base_exec(l: &Expr, r: &Expr) -> (res: bool)
    ensures
        res == same_power_base(l@, r@),
{
    match l {
        Expr::BinOp { lhs: b1, op: o1, .. } => match r {
            Expr::BinOp { lhs: b2, op: o2, .. } => *o1 == Op::Power && *o2 == Op::Power && b1.same(b2),
            _ => false,
        },
        _ => false,
    }
}

fn multiply_exec(l: Expr, r: Expr, target: &String) -> (res: Expr)
    ensures
        res@ == multiply_rules(l@, r@, target@),
{
    if is_num_one(&l) {
        return r;
    }
    if is_num_one(&r) {
        return l;
    }
    if is_num_zero(&l) || is_num_zero(&r) {
        return mk_num(0);
    }
    if l.same(&r) && !(is_monomial(&l) && is_monomial(&r)) {
        return mk_bin(l, Op::Power, mk_num(2));
    }
    if same_power_base_exec(&l, &r) {
        match l {
            Expr::BinOp { lhs: base, rhs: e1, .. } => match r {
                Expr::BinOp { rhs: e2, .. } => {
                    return mk_bin(*base, Op::Power, mk_bin(*e1, Op::Add, *e2));
                },
                other => {
                    return combine_exec(Expr::BinOp { lhs: base, op: Op::Power, rhs: e1 }, Op::Multiply, other, target);
                },
            },
            other => {
                return combine_exec(other, Op::Multiply, r, target);
            },
        }
    }
    combine_exec(l, Op::Multiply, r, target)
}

fn divided_monomial_exec(l: &Expr, r: &Expr) -> (res: Option<Expr>)
    ensures
        res is Some == divided_monomial(l@, r@) is Some,
        res is Some ==> res->Some_0@ == divided_monomial(l@, r@)->Some_0,
{
    match l {
        Expr::Monomial { coefficient, variable, exponent } => match r {
            Expr::Number(k) => match coefficient.checked_div(k) {
                Some(c) => Some(Expr::Monomial { coefficient: c, variable: variable.clone(), exponent: *exponent }),
                None => None,
            },
            _ => None,
        },
        _ => None,
    }
}

fn divide_exec(l: Expr, r: Expr, target: &String) -> (res: Expr)
    ensures
        res@ == divide_rules(l@, r@, target@),
{
    if is_num_one(&r) {
        return l;
    }
    if let Some(m) = divided_monomial_exec(&l, &r) {
        return m;
    }
    if l.same(&r) {
        return mk_num(1);
    }
    combine_exec(l, Op::Divide, r, target)
}

fn power_exec(l: Expr, r: Expr, target: &String) -> (res: Expr)
    ensures
        res@ == power_rules(l@, r@, target@),
{
    if is_num_zero(&r) {
        return mk_num(1);
    }
    if is_num_one(&r) {
        return l;
    }
    let negated: Option<Decimal> = match &r {
        Expr::UnaryMinus(inner) => match &**inner {
            Expr::Number(n) => Some(*n),
            _ => {
                assert(!(inner@ is Num));
                None
            },
        },
        _ => None,
    };
    if let Some(n) = negated {
        return mk_bin(mk_num(1), Op::Divide, mk_bin(l, Op::Power, Expr::Number(n)));
    }
    combine_exec(l, Op::Power, r, target)
}

fn binary_exec(l: Expr, op: Op, r: Expr, target: &String) -> (res: Expr)
    ensures
        res@ == binary_rules(l@, op, r@, target@),
{
    match op {
        Op::Add => add_exec(l, r, target),
        Op::Subtract => subtract_exec(l, r, target),
        Op::Multiply => multiply_exec(l, r, target),
        Op::Divide => divide_exec(l, r, target),
        Op::Power => power_exec(l, r, target),
        _ => mk_bin(l, op, r),
    }
}

fn monomial_exec(c: Decimal, v: &String, e: Decimal) -> (res: Expr)
    ensures
        res@ == monomial_rules(c, v@, e),
{
    if c.is_zero() {
        return mk_num(0);
    }
    if e.is_zero() {
        return mk_num(1);
    }
    if c.is_negative() {
        if let Some(a) = c.abs() {
            let m = Expr::Monomial { coefficient: a, variable: v.clone(), exponent: e };
            assert(m@ == Term::Mono(a, v@, e));
            return Expr::UnaryMinus(Box::new(m));
        }
    }
    Expr::Monomial { coefficient: c, variable: v.clone(), exponent: e }
}

fn negation_exec(x: Expr, eq: bool) -> (res: Expr)
    ensures
        res@ == negation_rules(x@, eq),
{
    if is_num_zero(&x) {
        if let Expr::UnaryMinus(inner) = x {
            return *inner;
        }
        return mk_num(0);
    }
    match x {
        Expr::UnaryMinus(inner) => *inner,
        Expr::BinOp { lhs, op, rhs } => {
            if eq {
                mk_bin(Expr::UnaryMinus(lhs), op, Expr::UnaryMinus(rhs))
            } else {
                Expr::UnaryMinus(Box::new(Expr::BinOp { lhs, op, rhs }))
            }
        },
        other => Expr::UnaryMinus(Box::new(other)),
    }
}

impl Expr {
    /// One bottom-up rewriting pass of an expression, with `target` as the
    /// variable to solve for (empty when there is none).
    pub fn optimize_node(&self, target: String) -> (r: Expr)
        ensures
            r@ == optimize_spec(self@, target@, false),
    {
        self.rewrite_pass(&target, false)
    }

    fn rewrite_pass(&self, target: &String, eq: bool) -> (r: Expr)
        ensures
            r@ == optimize_spec(self@, target@, eq),
        decreases self@, 1nat,
    {
        match self {
            Expr::BinOp { lhs, op, rhs } => {
                proof {
                    assert(decreases_to!(self@ => self@->Bin_0));
                    assert(decreases_to!(self@ => self@->Bin_2));
                }
                let l = lhs.rewrite_pass(target, eq);
                let r = rhs.rewrite_pass(target, eq);
                binary_exec(l, *op, r, target)
            },
            Expr::Monomial { coefficient, variable, exponent } => monomial_exec(*coefficient, variable, *exponent),
            Expr::UnaryMinus(x) => {
                proof {
                    assert(decreases_to!(self@ => self@->Neg_0));
                }
                negation_exec(x.rewrite_pass(target, eq), eq)
            },
            Expr::Function { .. } => self.rewrite_call(target, eq),
            _ => self.copy(),
        }
    }

    fn rewrite_call(&self, target: &String, eq: bool) -> (r: Expr)
        requires
            self@ is Call,
        ensures
            r@ == optimize_spec(self@, target@, eq),
        decreases self@, 0nat,
    {
        match self {
            Expr::Function { name, args } => {
                let ghost a = self@->Call_1;
                assert(a.len() == args.len());
                assert(forall|j: int| 0 <= j < args.len() ==> a[j] == #[trigger] args[j]@);
                let mut out: Vec<Expr> = Vec::new();
                assert(a.subrange(0, 0) =~= Seq::<Term>::empty());
                assert(out@.map_values(|x: Expr| x@) =~= Seq::<Term>::empty());
                let mut i: usize = 0;
                while i < args.len()
                    invariant
                        i <= args.len(),
                        self@ is Call,
                        a == self@->Call_1,
                        a.len() == args.len(),
                        forall|j: int| 0 <= j < args.len() ==> a[j] == #[trigger] args[j]@,
                        out@.map_values(|x: Expr| x@) == optimize_args(a.subrange(0, i as int), target@, eq),
                    decreases args.len() - i,
                {
                    proof {
                        assert(decreases_to!(self@ => self@->Call_1[i as int]));
                    }
                    let ghost before = out@.map_values(|x: Expr| x@);
                    let o = args[i].rewrite_pass(target, eq);
                    let ghost ov = o@;
                    out.push(o);
                    proof {
                        let pre = a.subrange(0, i + 1);
                        assert(pre.subrange(0, pre.len() - 1) =~= a.subrange(0, i as int));
                        assert(pre[pre.len() - 1] == args[i as int]@);
                        assert(out@.map_values(|x: Expr| x@) =~= before.push(ov));
                    }
                    i += 1;
                }
                assert(a.subrange(0, a.len() as int) =~= a);
                let ghost views = out@.map_values(|x: Expr| x@);
                let ghost outs = out@;
                let ghost n = name@;
                let r = Expr::Function { name: name.clone(), args: out };
                assert(r@ == Term::Call(n, r@->Call_1));
                assert(r@->Call_1 =~= views) by {
                    assert(r@->Call_1.len() == outs.len());
                    assert forall|j: int| 0 <= j < outs.len() implies r@->Call_1[j] == views[j] by {
                        assert(r@->Call_1[j] == outs[j]@);
                    }
                }
                r
            },
            _ => self.copy(),
        }
    }
}

impl Expr {
    /// Rewrites to a fixpoint, with `target` as the variable to solve for
    /// (empty when there is none). Fails when `MAX_PASSES` passes do not
    /// reach one.
    pub fn optimize_expression(self, target: String) -> (r: Result<Expr, RewriteError>)
        ensures
            r is Ok <==> settle(self@, target@, false, MAX_PASSES as nat) is Some,
            r matches Ok(e) ==> settle(self@, target@, false, MAX_PASSES as nat) == Some(e@),
            r matches Ok(e) ==> optimize_spec(e@, target@, false) == e@,
    {
        proof {
            if settle(self@, target@, false, MAX_PASSES as nat) is Some {
                lemma_settle_fixpoint(self@, target@, false, MAX_PASSES as nat);
            }
        }
        match settle_exec(self, &target, false) {
            Some(e) => Ok(e),
            None => Err(RewriteError::NoFixpoint),
        }
    }

    /// Solves the equation `self` for `target`: isolation rules alternate
    /// with simplification of both sides until nothing changes. Fails when
    /// the pass or step budget does not reach a fixpoint.
    pub fn optimize_equation(self, target: String) -> (r: Result<Expr, RewriteError>)
        requires
            self@ is Bin && self@->Bin_1 == Op::Equals,
        ensures
            r is Ok <==> solved(*self@->Bin_0, *self@->Bin_2, target@) is Some,
            r matches Ok(e) ==> solved(*self@->Bin_0, *self@->Bin_2, target@) == Some(e@),
            r matches Ok(e) ==> e@ is Bin && e@->Bin_1 == Op::Equals && solve_step(
                (*e@->Bin_0, *e@->Bin_2),
                target@,
            ) == Some((*e@->Bin_0, *e@->Bin_2)),
    {
        let ghost sides = (*self@->Bin_0, *self@->Bin_2);
        match self {
            Expr::BinOp { lhs, rhs, .. } => {
                let (mut old_l, mut old_r) = match (settle_exec(*lhs, &target, true), settle_exec(*rhs, &target, true)) {
                    (Some(a), Some(b)) => (a, b),
                    _ => {
                        return Err(RewriteError::NoFixpoint);
                    },
                };
                let ghost start = (old_l@, old_r@);
                let mut fuel: u32 = MAX_PASSES;
                loop
                    invariant
                        fuel <= MAX_PASSES,
                        sides == (*self@->Bin_0, *self@->Bin_2),
                        settle_sides(sides, target@) == Some(start),
                        solve((old_l@, old_r@), target@, fuel as nat) == solve(start, target@, MAX_PASSES as nat),
                    decreases fuel,
                {
                    let (a, b) = apply_equation_rule(&old_l, &old_r, &target);
                    let (new_l, new_r) = match (settle_exec(a, &target, true), settle_exec(b, &target, true)) {
                        (Some(x), Some(y)) => (x, y),
                        _ => {
                            return Err(RewriteError::NoFixpoint);
                        },
                    };
                    assert(solve_step((old_l@, old_r@), target@) == Some((new_l@, new_r@)));
                    if new_l.same(&old_l) && new_r.same(&old_r) {
                        proof {
                            lemma_solve_fixpoint(start, target@, MAX_PASSES as nat);
                        }
                        return Ok(mk_bin(old_l, Op::Equals, old_r));
                    }
                    if fuel == 0 {
                        return Err(RewriteError::NoFixpoint);
                    }
                    old_l = new_l;
                    old_r = new_r;
                    fuel = fuel - 1;
                }
            },
            other => Ok(other),
        }
    }
}

fn settle_exec(e: Expr, target: &String, eq: bool) -> (r: Option<Expr>)
    ensures
        r is Some <==> settle(e@, target@, eq, MAX_PASSES as nat) is Some,
        r matches Some(x) ==> settle(e@, target@, eq, MAX_PASSES as nat) == Some(x@),
{
    let mut old = e;
    let mut latest = old.rewrite_pass(target, eq);
    let mut fuel: u32 = MAX_PASSES;
    while !latest.same(&old)
        invariant
            fuel <= MAX_PASSES,
            latest@ == optimize_spec(old@, target@, eq),
            settle(old@, target@, eq, fuel as nat) == settle(e@, target@, eq, MAX_PASSES as nat),
        decreases fuel,
    {
        if fuel == 0 {
            return None;
        }
        old = latest;
        latest = old.rewrite_pass(target, eq);
        fuel = fuel - 1;
    }
    Some(old)
}

fn rule_index(a: &Expr, b: &Expr, t: &String) -> (k: u8)
    ensures
        k == 1 <==> (a@ is Bin && a@->Bin_1 == Op::Add && is_target(*a@->Bin_0, t@)),
        k == 2 ==> (a@ is Bin && a@->Bin_1 == Op::Add && is_target(*a@->Bin_2, t@)),
        k == 3 ==> (b@ is Bin && b@->Bin_1 == Op::Add && is_target(*b@->Bin_0, t@)),
        k == 4 ==> (b@ is Bin && b@->Bin_1 == Op::Add && is_target(*b@->Bin_2, t@)),
        k == 5 ==> (a@ is Bin && a@->Bin_1 == Op::Subtract && is_target(*a@->Bin_0, t@)),
        k == 6 ==> (a@ is Bin && a@->Bin_1 == Op::Subtract && is_target(*a@->Bin_2, t@)),
        k == 7 ==> (b@ is Bin && b@->Bin_1 == Op::Subtract && is_target(*b@->Bin_0, t@)),
        k == 8 ==> (b@ is Bin && b@->Bin_1 == Op::Subtract && is_target(*b@->Bin_2, t@)),
        k == 9 ==> (a@ is Neg && is_target(*a@->Neg_0, t@)),
        k == 10 ==> is_target(a@, t@),
        k <= 10,
        equation_rules(a@, b@, t@) == (if k == 1 {
            (*a@->Bin_0, bin(b@, Op::Subtract, *a@->Bin_2))
        } else if k == 2 {
            (*a@->Bin_2, bin(b@, Op::Subtract, *a@->Bin_0))
        } else if k == 3 {
            (bin(a@, Op::Subtract, *b@->Bin_0), *b@->Bin_2)
        } else if k == 4 {
            (bin(a@, Op::Subtract, *b@->Bin_2), *b@->Bin_0)
        } else if k == 5 {
            (*a@->Bin_0, bin(b@, Op::Add, *a@->Bin_2))
        } else if k == 6 {
            (*a@->Bin_2, bin(neg(b@), Op::Add, *a@->Bin_0))
        } else if k == 7 {
            (bin(a@, Op::Subtract, *b@->Bin_0), neg(*b@->Bin_2))
        } else if k == 8 {
            (bin(a@, Op::Add, *b@->Bin_2), *b@->Bin_0)
        } else if k == 9 {
            (*a@->Neg_0, neg(b@))
        } else if k == 10 {
            (Term::Mono(Decimal::int_spec(1), a@->Mono_1, a@->Mono_2), bin(b@, Op::Divide, Term::Num(a@->Mono_0)))
        } else {
            (a@, b@)
        }),
{
    let (a_op, a0, a2): (u8, bool, bool) = match a {
        Expr::BinOp { lhs, op, rhs } => {
            let o: u8 = if *op == Op::Add { 1 } else if *op == Op::Subtract { 2 } else { 0 };
            (o, is_target_monomial(lhs, t), is_target_monomial(rhs, t))
        },
        _ => (0, false, false),
    };
    let (b_op, b0, b2): (u8, bool, bool) = match b {
        Expr::BinOp { lhs, op, rhs } => {
            let o: u8 = if *op == Op::Add { 1 } else if *op == Op::Subtract { 2 } else { 0 };
            (o, is_target_monomial(lhs, t), is_target_monomial(rhs, t))
        },
        _ => (0, false, false),
    };
    let neg_target: bool = match a {
        Expr::UnaryMinus(x) => is_target_monomial(x, t),
        _ => false,
    };
    if a_op == 1 && a0 {
        1
    } else if a_op == 1 && a2 {
        2
    } else if b_op == 1 && b0 {
        3
    } else if b_op == 1 && b2 {
        4
    } else if a_op == 2 && a0 {
        5
    } else if a_op == 2 && a2 {
        6
    } else if b_op == 2 && b0 {
        7
    } else if b_op == 2 && b2 {
        8
    } else if neg_target {
        9
    } else if is_target_monomial(a, t) {
        10
    } else {
        0
    }
}

/// One isolation step on the sides `a = b` of an equation.
fn apply_equation_rule(a: &Expr, b: &Expr, t: &String) -> (r: (Expr, Expr))
    ensures
        (r.0@, r.1@) == equation_rules(a@, b@, t@),
{
    let k = rule_index(a, b, t);
    match a {
        Expr::BinOp { lhs: al, rhs: ar, .. } => {
            if k == 1 {
                return (al.copy(), mk_bin(b.copy(), Op::Subtract, ar.copy()));
            } else if k == 2 {
                return (ar.copy(), mk_bin(b.copy(), Op::Subtract, al.copy()));
            } else if k == 5 {
                return (al.copy(), mk_bin(b.copy(), Op::Add, ar.copy()));
            } else if k == 6 {
                return (ar.copy(), mk_bin(Expr::UnaryMinus(Box::new(b.copy())), Op::Add, al.copy()));
            }
        },
        Expr::UnaryMinus(x) => {
            if k == 9 {
                return (x.copy(), Expr::UnaryMinus(Box::new(b.copy())));
            }
        },
        Expr::Monomial { coefficient, variable, exponent } => {
            if k == 10 {
                return (
                    Expr::Monomial { coefficient: Decimal::from_int(1), variable: variable.clone(), exponent: *exponent },
                    mk_bin(b.copy(), Op::Divide, Expr::Number(*coefficient)),
                );
            }
        },
        _ => {},
    }
    match b {
        Expr::BinOp { lhs: bl, rhs: br, .. } => {
            if k == 3 {
                return (mk_bin(a.copy(), Op::Subtract, bl.copy()), br.copy());
            } else if k == 4 {
                return (mk_bin(a.copy(), Op::Subtract, br.copy()), bl.copy());
            } else if k == 7 {
                return (mk_bin(a.copy(), Op::Subtract, bl.copy()), Expr::UnaryMinus(Box::new(br.copy())));
            } else if k == 8 {
                return (mk_bin(a.copy(), Op::Add, br.copy()), bl.copy());
            }
        },
        _ => {},
    }
    (a.copy(), b.copy())
}

/// Simplification is idempotent: when `optimize_expression` yields a tree,
/// simplifying that tree again yields it unchanged.
pub proof fn lemma_optimize_expression_idempotent(t: Term, target: Seq<char>)
    requires
        settle(t, target, false, MAX_PASSES as nat) is Some,
    ensures
        settle(settle(t, target, false, MAX_PASSES as nat)->Some_0, target, false, MAX_PASSES as nat) == settle(
            t,
            target,
            false,
            MAX_PASSES as nat,
        ),
{
    lemma_settle_fixpoint(t, target, false, MAX_PASSES as nat);
}

} // verus!
