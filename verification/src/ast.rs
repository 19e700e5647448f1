use vstd::prelude::*;

verus! {

broadcast use vstd::std_specs::vec::group_vec_axioms;

/// The six operator keywords of the language.
#[derive(Clone, Copy, Debug, PartialEq, Eq, Structural)]
pub enum Op {
    Add,
    Sub,
    Mul,
    Div,
    Max,
    Min,
}

/// What the parser was looking for at the offset where it gave up.
#[derive(Clone, Copy, Debug, PartialEq, Eq, Structural)]
pub enum Expected {
    /// An expression (number, parenthesized application, or dice roll).
    Expression,
    /// A number literal, after the `d` of a dice roll.
    Number,
    /// One of the six operator keywords, after `(`.
    Operator,
    /// The closing `)` of an application.
    CloseParen,
    /// End of input: something other than whitespace trailed the expression.
    EndOfInput,
}

/// A failed parse: the furthest offset the parser reached and what it
/// expected to find there.
#[derive(Clone, Copy, Debug, PartialEq, Eq, Structural)]
pub struct SyntaxError {
    pub offset: usize,
    pub expected: Expected,
}

/// An evaluation that is undefined even though the input parsed.
#[derive(Clone, Copy, Debug, PartialEq, Eq, Structural)]
pub enum EvalError {
    /// A dice bound whose floor is not positive: the range `[0, n)` is empty.
    EmptyDiceRange,
    /// A `max`/`min` comparison met an operand that compares as unordered.
    NanComparison,
}

/// A parsed expression. Number literals are kept as the exact bytes that
/// were consumed, so that the numeric conversion the evaluator applies is
/// the standard one on precisely the recognized span.
#[derive(Debug, PartialEq, Eq)]
pub enum Expr {
    /// A signed decimal literal, as its bytes.
    Num { lit: Vec<u8> },
    /// A dice roll `d<N>`; `lit` holds the bytes of `N`.
    Dice { lit: Vec<u8> },
    /// An operator applied to its arguments: exactly two for
    /// `add`/`sub`/`mul`/`div`, one or more for `max`/`min`.
    App { op: Op, args: Vec<Expr> },
}

/// The mathematical shape of an `Expr`: literals as byte sequences,
/// argument lists as sequences.
#[verifier::ext_equal]
pub enum Ast {
    Num { lit: Seq<u8> },
    Dice { lit: Seq<u8> },
    App { op: Op, args: Seq<Ast> },
}

impl Expr {
    /// The abstract tree this expression represents.
    pub open spec fn view(&self) -> Ast
        decreases self,
    {
        match self {
            Expr::Num { lit } => Ast::Num { lit: lit@ },
            Expr::Dice { lit } => Ast::Dice { lit: lit@ },
            Expr::App { op, args } => Ast::App { op: *op, args: views_of(args@) },
        }
    }
}

/// The abstract trees of a sequence of expressions, element by element.
pub open spec fn views_of(v: Seq<Expr>) -> Seq<Ast>
    decreases v,
{
    if v.len() == 0 {
        Seq::empty()
    } else {
        seq![v[0].view()] + views_of(v.drop_first())
    }
}

/// `views_of` maps indexwise: it keeps the length and views each element.
pub proof fn lemma_views_of(v: Seq<Expr>)
    ensures
        views_of(v).len() == v.len(),
        forall|i: int| 0 <= i < v.len() ==> views_of(v)[i] == v[i].view(),
    decreases v,
{
    if v.len() > 0 {
        lemma_views_of(v.drop_first());
    }
}

} // verus!
