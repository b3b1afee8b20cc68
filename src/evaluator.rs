//! What numeric evaluation needs decided before any arithmetic: the
//! library of built-in functions and the failures a tree would meet.
use vstd::prelude::*;
use crate::error::EvaluatorError;
use crate::expr::{Expr, Op, Term, chars_of};

verus! {

broadcast use vstd::std_specs::vec::group_vec_axioms;

/// A built-in numeric function. Trigonometric arguments are in degrees.
#[derive(Clone, Copy, Debug, PartialEq, Eq, Structural)]
pub enum Builtin {
    Sin,
    Cos,
    Tan,
    Floor,
    Ceil,
    Round,
    Trunc,
    Fract,
    Sqrt,
    Pow,
    Min,
    Max,
}

/// The built-in function called `name`.
pub open spec fn builtin_spec(name: Seq<char>) -> Option<Builtin> {
    if name == "sin"@ {
        Some(Builtin::Sin)
    } else if name == "cos"@ {
        Some(Builtin::Cos)
    } else if name == "tan"@ {
        Some(Builtin::Tan)
    } else if name == "floor"@ {
        Some(Builtin::Floor)
    } else if name == "ceil"@ {
        Some(Builtin::Ceil)
    } else if name == "round"@ {
        Some(Builtin::Round)
    } else if name == "trunc"@ {
        Some(Builtin::Trunc)
    } else if name == "fract"@ {
        Some(Builtin::Fract)
    } else if name == "sqrt"@ {
        Some(Builtin::Sqrt)
    } else if name == "pow"@ {
        Some(Builtin::Pow)
    } else if name == "min"@ {
        Some(Builtin::Min)
    } else if name == "max"@ {
        Some(Builtin::Max)
    } else {
        None
    }
}

pub open spec fn arity_spec(b: Builtin) -> nat {
    match b {
        Builtin::Pow | Builtin::Min | Builtin::Max => 2,
        _ => 1,
    }
}

impl Builtin {
    /// How many arguments the function takes.
    pub fn arity(&self) -> (n: usize)
        ensures
            n == arity_spec(*self),
    {
        match self {
            Builtin::Pow | Builtin::Min | Builtin::Max => 2,
            _ => 1,
        }
    }
}

fn is_word(c: &Vec<char>, w: &str) -> (r: bool)
    ensures
        r == (c@ == w@),
{
    let d = chars_of(w);
    if c.len() != d.len() {
        return false;
    }
    let mut i: usize = 0;
    while i < c.len()
        invariant
            i <= c.len() == d.len(),
            d@ == w@,
            forall|j: int| 0 <= j < i ==> c[j] == d[j],
        decreases c.len() - i,
    {
        if c[i] != d[i] {
            return false;
        }
        i = i + 1;
    }
    assert(c@ =~= d@);
    true
}

/// The built-in function called `name`, if there is one.
pub fn builtin_of(name: &String) -> (r: Option<Builtin>)
    ensures
        r == builtin_spec(name@),
{
    let c = chars_of(name.as_str());
    if is_word(&c, "sin") {
        Some(Builtin::Sin)
    } else if is_word(&c, "cos") {
        Some(Builtin::Cos)
    } else if is_word(&c, "tan") {
        Some(Builtin::Tan)
    } else if is_word(&c, "floor") {
        Some(Builtin::Floor)
    } else if is_word(&c, "ceil") {
        Some(Builtin::Ceil)
    } else if is_word(&c, "round") {
        Some(Builtin::Round)
    } else if is_word(&c, "trunc") {
        Some(Builtin::Trunc)
    } else if is_word(&c, "fract") {
        Some(Builtin::Fract)
    } else if is_word(&c, "sqrt") {
        Some(Builtin::Sqrt)
    } else if is_word(&c, "pow") {
        Some(Builtin::Pow)
    } else if is_word(&c, "min") {
        Some(Builtin::Min)
    } else if is_word(&c, "max") {
        Some(Builtin::Max)
    } else {
        None
    }
}

/// The first obstacle that evaluation meets, in its order: an operator's
/// left operand before its right one, a call's name before its arguments.
pub enum Fault {
    /// An `=` node.
    Equality,
    /// A monomial in the named variable.
    Variable(Seq<char>),
    /// A call of an unknown function, or with the wrong number of arguments.
    Unknown(Seq<char>),
}

pub open spec fn fault_of(t: Term) -> Option<Fault>
    decreases t,
{
    match t {
        Term::Num(_) => None,
        Term::Neg(x) => fault_of(*x),
        Term::Bin(l, op, r) => if op == Op::Equals {
            Some(Fault::Equality)
        } else if fault_of(*l) is Some {
            fault_of(*l)
        } else {
            fault_of(*r)
        },
        Term::Call(name, args) => match builtin_spec(name) {
            Some(b) => if args.len() == arity_spec(b) {
                args_fault(args)
            } else {
                Some(Fault::Unknown(name))
            },
            None => Some(Fault::Unknown(name)),
        },
        Term::Mono(_, v, _) => Some(Fault::Variable(v)),
    }
}

/// The first fault among call arguments, from the left.
pub open spec fn args_fault(args: Seq<Term>) -> Option<Fault>
    decreases args,
{
    if args.len() == 0 {
        None
    } else if args_fault(args.subrange(0, args.len() - 1)) is Some {
        args_fault(args.subrange(0, args.len() - 1))
    } else {
        fault_of(args[args.len() - 1])
    }
}

/// The error reported for a fault.
pub open spec fn reports(e: EvaluatorError, f: Fault) -> bool {
    match f {
        Fault::Equality => e is EqualityInEval,
        Fault::Variable(v) => e matches EvaluatorError::VariableInEval(s) && s@ == v,
        Fault::Unknown(n) => e matches EvaluatorError::UnknownFunction(s) && s@ == n,
    }
}

/// Succeeds exactly when numeric evaluation of the tree meets no fault;
/// otherwise reports the first one.
pub fn check_evaluable(e: &Expr) -> (r: Result<(), EvaluatorError>)
    ensures
        r is Ok <==> fault_of(e@) is None,
        r matches Err(err) ==> reports(err, fault_of(e@)->Some_0),
    decreases e@, 1nat,
{
    match e {
        Expr::Number(_) => Ok(()),
        Expr::UnaryMinus(x) => {
            proof {
                assert(decreases_to!(e@ => e@->Neg_0));
            }
            check_evaluable(x)
        },
        Expr::BinOp { lhs, op, rhs } => {
            proof {
                assert(decreases_to!(e@ => e@->Bin_0));
                assert(decreases_to!(e@ => e@->Bin_2));
            }
            if *op == Op::Equals {
                return Err(EvaluatorError::EqualityInEval);
            }
            check_evaluable(lhs)?;
            check_evaluable(rhs)
        },
        Expr::Function { .. } => check_call(e),
        Expr::Monomial { variable, .. } => Err(EvaluatorError::VariableInEval(variable.clone())),
    }
}

fn check_call(e: &Expr) -> (r: Result<(), EvaluatorError>)
    requires
        e@ is Call,
    ensures
        r is Ok <==> fault_of(e@) is None,
        r matches Err(err) ==> reports(err, fault_of(e@)->Some_0),
    decreases e@, 0nat,
{
    match e {
        Expr::Function { name, args } => {
            let ghost a = e@->Call_1;
            assert(a.len() == args.len());
            assert(forall|j: int| 0 <= j < args.len() ==> a[j] == #[trigger] args[j]@);
            match builtin_of(name) {
                Some(b) => {
                    if args.len() != b.arity() {
                        return Err(EvaluatorError::UnknownFunction(name.clone()));
                    }
                },
                None => {
                    return Err(EvaluatorError::UnknownFunction(name.clone()));
                },
            }
            assert(a.subrange(0, 0) =~= Seq::<Term>::empty());
            assert(fault_of(e@) == args_fault(a));
            let mut i: usize = 0;
            while i < args.len()
                invariant
                    i <= args.len(),
                    e@ is Call,
                    a == e@->Call_1,
                    a.len() == args.len(),
                    forall|j: int| 0 <= j < args.len() ==> a[j] == #[trigger] args[j]@,
                    args_fault(a.subrange(0, i as int)) is None,
                    fault_of(e@) == args_fault(a),
                decreases args.len() - i,
            {
                proof {
                    assert(decreases_to!(e@ => e@->Call_1[i as int]));
                }
                let ghost pre = a.subrange(0, i + 1);
                assert(pre.subrange(0, pre.len() - 1) =~= a.subrange(0, i as int));
                assert(pre[pre.len() - 1] == args[i as int]@);
                match check_evaluable(&args[i]) {
                    Ok(()) => {},
                    Err(err) => {
                        assert(args_fault(pre) == fault_of(args[i as int]@));
                        assert(a.subrange(0, i as int) + a.subrange(i as int, a.len() as int) =~= a);
                        proof {
                            lemma_args_fault_extends(a, i as int + 1);
                        }
                        return Err(err);
                    },
                }
                i = i + 1;
            }
            assert(a.subrange(0, a.len() as int) =~= a);
            Ok(())
        },
        _ => Ok(()),
    }
}

/// A fault among the first `k` arguments is the first fault of them all.
proof fn lemma_args_fault_extends(a: Seq<Term>, k: int)
    requires
        0 <= k <= a.len(),
        args_fault(a.subrange(0, k)) is Some,
    ensures
        args_fault(a) == args_fault(a.subrange(0, k)),
    decreases a.len() - k,
{
    if k < a.len() {
        let b = a.subrange(0, k + 1);
        assert(b.subrange(0, b.len() - 1) =~= a.subrange(0, k));
        lemma_args_fault_extends(a, k + 1);
    } else {
        assert(a.subrange(0, k) =~= a);
    }
}

} // verus!
