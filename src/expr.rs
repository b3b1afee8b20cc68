//! The expression tree, its mathematical view, structural equality and the
//! canonical printed form.
use vstd::prelude::*;
use crate::number::{Decimal, decimal_text};
use vstd::std_specs::iter::IteratorSpec;

verus! {

broadcast use vstd::std_specs::vec::group_vec_axioms;

/// A binary operator.
#[derive(Clone, Copy, Debug, PartialEq, Eq, Structural)]
pub enum Op {
    Add,
    Subtract,
    Multiply,
    Divide,
    Modulo,
    Power,
    Equals,
}

pub open spec fn precedence_of(op: Op) -> Option<u8> {
    match op {
        Op::Add | Op::Subtract => Some(1u8),
        Op::Multiply | Op::Divide | Op::Modulo => Some(2u8),
        Op::Power => Some(3u8),
        Op::Equals => None,
    }
}

pub open spec fn op_char(op: Op) -> char {
    match op {
        Op::Add => '+',
        Op::Subtract => '-',
        Op::Multiply => '*',
        Op::Divide => '/',
        Op::Modulo => '%',
        Op::Power => '^',
        Op::Equals => '=',
    }
}

impl Op {
    /// Binding strength: 1 for `+ -`, 2 for `* / %`, 3 for `^`; none for `=`.
    pub fn get_precedence(&self) -> (r: Option<u8>)
        ensures
            r == precedence_of(*self),
    {
        match self {
            Op::Add | Op::Subtract => Some(1),
            Op::Multiply | Op::Divide | Op::Modulo => Some(2),
            Op::Power => Some(3),
            Op::Equals => None,
        }
    }

    pub fn symbol(&self) -> (c: char)
        ensures
            c == op_char(*self),
    {
        match self {
            Op::Add => '+',
            Op::Subtract => '-',
            Op::Multiply => '*',
            Op::Divide => '/',
            Op::Modulo => '%',
            Op::Power => '^',
            Op::Equals => '=',
        }
    }
}

/// The mathematical view of an expression tree.
pub enum Term {
    Num(Decimal),
    Neg(Box<Term>),
    Bin(Box<Term>, Op, Box<Term>),
    Call(Seq<char>, Seq<Term>),
    Mono(Decimal, Seq<char>, Decimal),
}

/// An expression tree; every child is owned by its parent.
#[derive(Debug)]
pub enum Expr {
    Number(Decimal),
    UnaryMinus(Box<Expr>),
    BinOp { lhs: Box<Expr>, op: Op, rhs: Box<Expr> },
    Function { name: String, args: Vec<Expr> },
    Monomial { coefficient: Decimal, variable: String, exponent: Decimal },
}

pub open spec fn term_of(e: Expr) -> Term
    decreases e,
{
    match e {
        Expr::Number(d) => Term::Num(d),
        Expr::UnaryMinus(x) => Term::Neg(Box::new(term_of(*x))),
        Expr::BinOp { lhs, op, rhs } => Term::Bin(Box::new(term_of(*lhs)), op, Box::new(term_of(*rhs))),
        Expr::Function { name, args } => Term::Call(
            name@,
            Seq::new(args.len() as nat, |i: int| if 0 <= i < args.len() { term_of(args[i]) } else { Term::Num(Decimal::int_spec(0)) }),
        ),
        Expr::Monomial { coefficient, variable, exponent } => Term::Mono(coefficient, variable@, exponent),
    }
}

impl View for Expr {
    type V = Term;

    open spec fn view(&self) -> Term {
        term_of(*self)
    }
}

/// A tree that the expression grammar yields: no `=`, named calls, and
/// monomials with a named variable.
pub open spec fn expression_form(t: Term) -> bool
    decreases t,
{
    match t {
        Term::Num(_) => true,
        Term::Neg(x) => expression_form(*x),
        Term::Bin(l, op, r) => op != Op::Equals && expression_form(*l) && expression_form(*r),
        Term::Call(name, args) => name.len() > 0 && all_expression_form(args),
        Term::Mono(_, v, _) => v.len() > 0,
    }
}

pub open spec fn all_expression_form(args: Seq<Term>) -> bool
    decreases args,
{
    if args.len() == 0 {
        true
    } else {
        all_expression_form(args.subrange(0, args.len() - 1)) && expression_form(args[args.len() - 1])
    }
}

/// An expression, or an equation whose two sides are expressions.
pub open spec fn equation_form(t: Term) -> bool {
    expression_form(t) || (t is Bin && t->Bin_1 == Op::Equals && expression_form(*t->Bin_0)
        && expression_form(*t->Bin_2))
}

/// The canonical printed form: every binary operation in parentheses,
/// negation as `-(x)`, calls as `name(a, b)`, monomials as `{c}{v}^({e})`.
pub open spec fn text(t: Term) -> Seq<char>
    decreases t,
{
    match t {
        Term::Num(d) => decimal_text(d),
        Term::Neg(x) => seq!['-', '('] + text(*x) + seq![')'],
        Term::Bin(l, op, r) => seq!['('] + text(*l) + seq![op_char(op)] + text(*r) + seq![')'],
        Term::Call(name, args) => name + seq!['('] + args_text(args) + seq![')'],
        Term::Mono(c, v, e) => decimal_text(c) + v + seq!['^', '('] + decimal_text(e) + seq![')'],
    }
}

/// Argument texts separated by `", "`.
pub open spec fn args_text(args: Seq<Term>) -> Seq<char>
    decreases args,
{
    if args.len() == 0 {
        Seq::empty()
    } else if args.len() == 1 {
        text(args[0])
    } else {
        args_text(args.subrange(0, args.len() - 1)) + seq![',', ' '] + text(args[args.len() - 1])
    }
}

/// Relies on `String`'s `FromIterator<&char>`: the string of the characters in order.
#[verifier::external_body]
pub(crate) fn string_from_chars(v: &Vec<char>) -> (r: String)
    ensures
        r@ == v@,
{
    String::from_iter(v.iter())
}

impl Expr {
    /// Structural equality of two trees.
    pub fn same(&self, other: &Expr) -> (r: bool)
        ensures
            r == (self@ == other@),
        decreases self@,
    {
        match self {
            Expr::Number(x) => match other {
                Expr::Number(y) => *x == *y,
                _ => false,
            },
            Expr::UnaryMinus(x) => match other {
                Expr::UnaryMinus(y) => {
                    proof {
                        assert(decreases_to!(self@ => self@->Neg_0));
                    }
                    x.same(y)
                },
                _ => false,
            },
            Expr::BinOp { lhs: l1, op: o1, rhs: r1 } => match other {
                Expr::BinOp { lhs: l2, op: o2, rhs: r2 } => {
                    proof {
                        assert(decreases_to!(self@ => self@->Bin_0));
                        assert(decreases_to!(self@ => self@->Bin_2));
                    }
                    *o1 == *o2 && l1.same(l2) && r1.same(r2)
                },
                _ => false,
            },
            Expr::Function { name: n1, args: a1 } => match other {
                Expr::Function { name: n2, args: a2 } => {
                    if !(*n1 == *n2) || a1.len() != a2.len() {
                        assert(self@->Call_1.len() == a1.len() && other@->Call_1.len() == a2.len());
                        return false;
                    }
                    assert(forall|j: int| 0 <= j < a1.len() ==> self@->Call_1[j] == #[trigger] a1[j]@);
                    assert(forall|j: int| 0 <= j < a2.len() ==> other@->Call_1[j] == #[trigger] a2[j]@);
                    let mut i: usize = 0;
                    while i < a1.len()
                        invariant
                            i <= a1.len() == a2.len(),
                            self@ is Call && other@ is Call,
                            self@->Call_0 == other@->Call_0,
                            self@->Call_1.len() == a1.len(),
                            other@->Call_1.len() == a2.len(),
                            forall|j: int| 0 <= j < a1.len() ==> self@->Call_1[j] == #[trigger] a1[j]@,
                            forall|j: int| 0 <= j < a2.len() ==> other@->Call_1[j] == #[trigger] a2[j]@,
                            forall|j: int| 0 <= j < i ==> a1[j]@ == a2[j]@,
                        decreases a1.len() - i,
                    {
                        proof {
                            assert(decreases_to!(self@ => self@->Call_1[i as int]));
                        }
                        if !a1[i].same(&a2[i]) {
                            return false;
                        }
                        i += 1;
                    }
                    assert(self@->Call_1 =~= other@->Call_1);
                    true
                },
                _ => false,
            },
            Expr::Monomial { coefficient: c1, variable: v1, exponent: e1 } => match other {
                Expr::Monomial { coefficient: c2, variable: v2, exponent: e2 } => {
                    *c1 == *c2 && *v1 == *v2 && *e1 == *e2
                },
                _ => false,
            },
        }
    }

    /// A deep copy of the tree.
    pub fn copy(&self) -> (r: Expr)
        ensures
            r@ == self@,
        decreases self@,
    {
        match self {
            Expr::Number(d) => Expr::Number(*d),
            Expr::UnaryMinus(x) => {
                proof {
                    assert(decreases_to!(self@ => self@->Neg_0));
                }
                Expr::UnaryMinus(Box::new(x.copy()))
            },
            Expr::BinOp { lhs, op, rhs } => {
                proof {
                    assert(decreases_to!(self@ => self@->Bin_0));
                    assert(decreases_to!(self@ => self@->Bin_2));
                }
                Expr::BinOp { lhs: Box::new(lhs.copy()), op: *op, rhs: Box::new(rhs.copy()) }
            },
            Expr::Function { name, args } => {
                assert(forall|j: int| 0 <= j < args.len() ==> self@->Call_1[j] == #[trigger] args[j]@);
                let mut out: Vec<Expr> = Vec::new();
                let mut i: usize = 0;
                while i < args.len()
                    invariant
                        i <= args.len(),
                        out.len() == i,
                        self@ is Call,
                        self@->Call_1.len() == args.len(),
                        forall|j: int| 0 <= j < args.len() ==> self@->Call_1[j] == #[trigger] args[j]@,
                        forall|j: int| 0 <= j < i ==> #[trigger] out[j]@ == args[j]@,
                    decreases args.len() - i,
                {
                    proof {
                        assert(decreases_to!(self@ => self@->Call_1[i as int]));
                    }
                    out.push(args[i].copy());
                    i += 1;
                }
                let ghost outs = out;
                let r = Expr::Function { name: name.clone(), args: out };
                assert(forall|j: int| 0 <= j < outs.len() ==> r@->Call_1[j] == #[trigger] outs[j]@);
                assert(r@->Call_1.len() == outs.len());
                assert forall|j: int| 0 <= j < outs.len() implies r@->Call_1[j] == self@->Call_1[j] by {
                    assert(r@->Call_1[j] == outs[j]@);
                    assert(outs[j]@ == args[j]@);
                }
                assert(r@->Call_1 =~= self@->Call_1);
                r
            },
            Expr::Monomial { coefficient, variable, exponent } => Expr::Monomial {
                coefficient: *coefficient,
                variable: variable.clone(),
                exponent: *exponent,
            },
        }
    }

    /// The parts of a binary operation.
    pub fn get_bin_op(self) -> (r: Option<(Expr, Op, Expr)>)
        ensures
            self@ is Bin <==> r is Some,
            r matches Some(p) ==> self@ == Term::Bin(Box::new(p.0@), p.1, Box::new(p.2@)),
    {
        match self {
            Expr::BinOp { lhs, op, rhs } => Some((*lhs, op, *rhs)),
            _ => None,
        }
    }
}

impl Expr {
    /// Appends the canonical printed form of the tree.
    pub fn write_text(&self, out: &mut Vec<char>)
        ensures
            final(out)@ == old(out)@ + text(self@),
        decreases self@, 1nat,
    {
        let ghost start = out@;
        match self {
            Expr::Number(d) => {
                d.write_text(out);
            },
            Expr::UnaryMinus(x) => {
                proof {
                    assert(decreases_to!(self@ => self@->Neg_0));
                }
                out.push('-');
                out.push('(');
                x.write_text(out);
                out.push(')');
                assert(out@ =~= start + text(self@));
            },
            Expr::BinOp { lhs, op, rhs } => {
                proof {
                    assert(decreases_to!(self@ => self@->Bin_0));
                    assert(decreases_to!(self@ => self@->Bin_2));
                }
                out.push('(');
                lhs.write_text(out);
                out.push(op.symbol());
                rhs.write_text(out);
                out.push(')');
                assert(out@ =~= start + text(self@));
            },
            Expr::Function { .. } => {
                self.write_call(out);
            },
            Expr::Monomial { coefficient, variable, exponent } => {
                coefficient.write_text(out);
                push_str(variable, out);
                out.push('^');
                out.push('(');
                exponent.write_text(out);
                out.push(')');
                assert(out@ =~= start + text(self@));
            },
        }
    }

    fn write_call(&self, out: &mut Vec<char>)
        requires
            self@ is Call,
        ensures
            final(out)@ == old(out)@ + text(self@),
        decreases self@, 0nat,
    {
        let ghost start = out@;
        match self {
            Expr::Function { name, args } => {
                let ghost a = self@->Call_1;
                assert(forall|j: int| 0 <= j < args.len() ==> a[j] == #[trigger] args[j]@);
                push_str(name, out);
                out.push('(');
                let ghost head = out@;
                assert(a.subrange(0, 0) =~= Seq::<Term>::empty());
                let mut i: usize = 0;
                while i < args.len()
                    invariant
                        i <= args.len(),
                        self@ is Call,
                        a == self@->Call_1,
                        a.len() == args.len(),
                        forall|j: int| 0 <= j < args.len() ==> a[j] == #[trigger] args[j]@,
                        out@ == head + args_text(a.subrange(0, i as int)),
                    decreases args.len() - i,
                {
                    proof {
                        assert(decreases_to!(self@ => self@->Call_1[i as int]));
                    }
                    if i > 0 {
                        out.push(',');
                        out.push(' ');
                    }
                    args[i].write_text(out);
                    proof {
                        let s = a.subrange(0, i + 1);
                        assert(s.subrange(0, s.len() - 1) =~= a.subrange(0, i as int));
                        assert(s[s.len() - 1] == args[i as int]@);
                        if i == 0 {
                            assert(s[0] == args[0]@);
                        }
                        assert(out@ =~= head + args_text(s));
                    }
                    i += 1;
                }
                out.push(')');
                assert(a.subrange(0, a.len() as int) =~= a);
                assert(out@ =~= start + text(self@));
            },
            _ => {},
        }
    }

    /// The canonical printed form of the tree.
    pub fn to_string(&self) -> (r: String)
        ensures
            r@ == text(self@),
    {
        let mut out: Vec<char> = Vec::new();
        self.write_text(&mut out);
        assert(out@ =~= text(self@));
        string_from_chars(&out)
    }
}

/// The characters of a string, in order.
pub fn chars_of(s: &str) -> (r: Vec<char>)
    ensures
        r@ == s@,
{
    let mut out: Vec<char> = Vec::new();
    let mut it = s.chars();
    proof {
        vstd::string::axiom_spec_iter(s);
    }
    loop
        invariant_except_break
            out@ + it.remaining() == s@,
            it.obeys_prophetic_iter_laws(),
            it.decrease() is Some,
        ensures
            out@ == s@,
        decreases it.decrease()->0,
    {
        let ghost before = it;
        match it.next() {
            Some(c) => {
                proof {
                    vstd::string::next_postcondition(&before, &it, Some(c));
                    assert(before.remaining().len() > 0);
                    assert(decreases_to!(before.decrease()->0 => it.decrease()->0));
                }
                out.push(c);
                assert(out@ + it.remaining() =~= s@);
            },
            None => {
                proof {
                    vstd::string::next_postcondition(&before, &it, None);
                }
                assert(out@ =~= s@);
                break;
            },
        }
    }
    out
}

fn push_str(s: &String, out: &mut Vec<char>)
    ensures
        final(out)@ == old(out)@ + s@,
{
    let c = chars_of(s.as_str());
    let mut i: usize = 0;
    let ghost start = out@;
    while i < c.len()
        invariant
            i <= c.len(),
            c@ == s@,
            out@ == start + c@.subrange(0, i as int),
        decreases c.len() - i,
    {
        out.push(c[i]);
        assert(c@.subrange(0, i + 1) =~= c@.subrange(0, i as int).push(c[i as int]));
        i += 1;
    }
    assert(c@.subrange(0, c.len() as int) =~= c@);
}

} // verus!
