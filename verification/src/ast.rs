//! The expression tree and its rendering as text.

use crate::lexer::{char_is_digit, is_digit, is_numeral_char};
use vstd::prelude::*;
use vstd::string::*;

verus! {

/// An arithmetic operator. A unary node holds `Add` or `Sub` only.
#[derive(Debug, Clone, Copy, PartialEq, Eq, Structural)]
pub enum Op {
    Add,
    Sub,
    Mul,
    Div,
}

impl Op {
    /// The operator's character.
    pub open spec fn symbol(self) -> char {
        match self {
            Op::Add => '+',
            Op::Sub => '-',
            Op::Mul => '*',
            Op::Div => '/',
        }
    }

    /// Whether the operator may stand before a single operand.
    pub open spec fn is_sign(self) -> bool {
        self == Op::Add || self == Op::Sub
    }

    /// The operator as text: its one character.
    pub fn to_text(&self) -> (text: String)
        ensures
            text@ == seq![self.symbol()],
    {
        proof {
            reveal_strlit("+");
            reveal_strlit("-");
            reveal_strlit("*");
            reveal_strlit("/");
        }
        let text = match self {
            Op::Add => String::from_str("+"),
            Op::Sub => String::from_str("-"),
            Op::Mul => String::from_str("*"),
            Op::Div => String::from_str("/"),
        };
        assert(text@ =~= seq![self.symbol()]);
        text
    }
}

/// A numeral: it starts with a digit, holds digits and decimal points only,
/// and at most one decimal point.
pub open spec fn is_numeral(sp: Seq<char>) -> bool {
    &&& sp.len() > 0
    &&& is_digit(sp[0])
    &&& forall|i: int| 0 <= i < sp.len() ==> is_numeral_char(#[trigger] sp[i])
    &&& forall|i: int, j: int|
        0 <= i < j < sp.len() && #[trigger] sp[i] == '.' ==> #[trigger] sp[j] != '.'
}

/// Decides whether `text` is a numeral.
pub fn check_numeral(text: &str) -> (b: bool)
    ensures
        b == is_numeral(text@),
{
    let n = text.unicode_len();
    if n == 0 {
        return false;
    }
    if !char_is_digit(text.get_char(0)) {
        return false;
    }
    let mut point: Option<usize> = None;
    let mut i: usize = 0;
    while i < n
        invariant
            n == text@.len(),
            0 <= i <= n,
            forall|k: int| 0 <= k < i ==> is_numeral_char(#[trigger] text@[k]),
            match point {
                Some(p) => p < i && text@[p as int] == '.' && forall|k: int|
                    0 <= k < i && k != p ==> #[trigger] text@[k] != '.',
                None => forall|k: int| 0 <= k < i ==> #[trigger] text@[k] != '.',
            },
        decreases n - i,
    {
        let c = text.get_char(i);
        if c == '.' {
            if point.is_some() {
                return false;
            }
            point = Some(i);
        } else if !char_is_digit(c) {
            return false;
        }
        i += 1;
    }
    true
}

/// One parsed expression. Each node owns its subtrees. A number holds its
/// numeral as it was written.
#[derive(Debug, PartialEq)]
pub enum Ast {
    Number(String),
    UnaryExpr { op: Op, rhs: Box<Ast> },
    BinaryExpr { lhs: Box<Ast>, op: Op, rhs: Box<Ast> },
}

/// The mathematical value of an [`Ast`].
pub ghost enum Expr {
    Number(Seq<char>),
    UnaryExpr { op: Op, rhs: Box<Expr> },
    BinaryExpr { lhs: Box<Expr>, op: Op, rhs: Box<Expr> },
}

impl Expr {
    /// Every number is a numeral and every unary operator is a sign.
    pub open spec fn wf(self) -> bool
        decreases self,
    {
        match self {
            Expr::Number(sp) => is_numeral(sp),
            Expr::UnaryExpr { op, rhs } => op.is_sign() && rhs.wf(),
            Expr::BinaryExpr { lhs, op, rhs } => lhs.wf() && rhs.wf(),
        }
    }

    /// The expression in infix notation, with no parentheses and no spaces
    /// added, each number as it was written.
    pub open spec fn text(self) -> Seq<char>
        decreases self,
    {
        match self {
            Expr::Number(sp) => sp,
            Expr::UnaryExpr { op, rhs } => seq![op.symbol()] + rhs.text(),
            Expr::BinaryExpr { lhs, op, rhs } => lhs.text() + seq![op.symbol()] + rhs.text(),
        }
    }
}

/// One of the four operator characters.
pub open spec fn is_operator_char(c: char) -> bool {
    c == '+' || c == '-' || c == '*' || c == '/'
}

/// The text of a well-formed expression holds digits, decimal points and
/// operators only: rendering writes neither a parenthesis nor a space.
pub proof fn lemma_text_is_flat(e: Expr)
    requires
        e.wf(),
    ensures
        forall|i: int|
            0 <= i < e.text().len() ==> is_numeral_char(#[trigger] e.text()[i])
                || is_operator_char(e.text()[i]),
    decreases e,
{
    match e {
        Expr::Number(sp) => {
            assert(e.text() == sp);
        },
        Expr::UnaryExpr { op, rhs } => {
            lemma_text_is_flat(*rhs);
            let tail = rhs.text();
            assert(e.text() == seq![op.symbol()] + tail);
            assert forall|i: int| 0 <= i < e.text().len() implies is_numeral_char(
                #[trigger] e.text()[i],
            ) || is_operator_char(e.text()[i]) by {
                if i >= 1 {
                    assert(e.text()[i] == tail[i - 1]);
                }
            }
        },
        Expr::BinaryExpr { lhs, op, rhs } => {
            lemma_text_is_flat(*lhs);
            lemma_text_is_flat(*rhs);
            let head = lhs.text();
            let tail = rhs.text();
            assert(e.text() == head + seq![op.symbol()] + tail);
            assert forall|i: int| 0 <= i < e.text().len() implies is_numeral_char(
                #[trigger] e.text()[i],
            ) || is_operator_char(e.text()[i]) by {
                if i < head.len() {
                    assert(e.text()[i] == head[i]);
                } else if i > head.len() {
                    assert(e.text()[i] == tail[i - head.len() - 1]);
                }
            }
        },
    }
}

impl View for Ast {
    type V = Expr;

    open spec fn view(&self) -> Expr {
        self.expr()
    }
}

impl Ast {
    /// The tree as a mathematical value.
    pub open spec fn expr(&self) -> Expr
        decreases self,
    {
        match self {
            Ast::Number(sp) => Expr::Number(sp@),
            Ast::UnaryExpr { op, rhs } => Expr::UnaryExpr { op: *op, rhs: Box::new(rhs.expr()) },
            Ast::BinaryExpr { lhs, op, rhs } => Expr::BinaryExpr {
                lhs: Box::new(lhs.expr()),
                op: *op,
                rhs: Box::new(rhs.expr()),
            },
        }
    }

    /// Renders the tree in infix notation. Grouping is not kept: no
    /// parentheses are written.
    pub fn to_text(&self) -> (text: String)
        ensures
            text@ == self@.text(),
        decreases self,
    {
        match self {
            Ast::Number(sp) => sp.clone(),
            Ast::UnaryExpr { op, rhs } => {
                let tail = rhs.to_text();
                op.to_text().concat(tail.as_str())
            },
            Ast::BinaryExpr { lhs, op, rhs } => {
                let head = lhs.to_text();
                let sign = op.to_text();
                let tail = rhs.to_text();
                head.concat(sign.as_str()).concat(tail.as_str())
            },
        }
    }
}

} // verus!
