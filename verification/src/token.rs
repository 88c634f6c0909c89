//! The lexical data model: tokens, operands, operators, functions, and the
//! error taxonomy of the scanner, together with their spec-level views.
//!
//! A numeric operand carries the decimal text of the literal; spec-level
//! reasoning works on views in which every piece of text is a `Seq<char>`.

use vstd::prelude::*;

verus! {

/// Enumerated tag for the supported elementary functions. The current
/// scanner grammar never produces a function operand; the tag is part of
/// the data model for completeness.
#[derive(Debug, Copy, Clone, PartialEq, Eq)]
pub enum Function {
    Sin,
    Cos,
    Tan,
    Asin,
    Acos,
    Atan,
    Sinh,
    Cosh,
    Tanh,
    Asinh,
    Acosh,
    Atanh,
    Exp,
    Log,
    Log2,
    Log10,
    Sqrt,
    Abs,
    Ceil,
    Floor,
    Round,
    Trunc,
}

/// A value-producing token: a numeric literal (held as its decimal text),
/// a named variable (only meaningful before substitution), or a function tag.
#[derive(Debug, PartialEq, Eq)]
pub enum Operand {
    Number(String),
    Variable(String),
    Function(Function),
}

/// The operator variants. Unary plus/minus are distinguished from their
/// binary forms at scan time.
#[derive(Debug, Copy, Clone, PartialEq, Eq)]
pub enum Operator {
    Plus,
    Uplus,
    Minus,
    Uminus,
    Multiply,
    Divide,
    Power,
    Modulus,
}

/// Numeric rank governing which pending operator the reducer resolves first.
pub open spec fn spec_precedence(op: Operator) -> u8 {
    match op {
        Operator::Uplus | Operator::Uminus => 3,
        Operator::Power => 4,
        Operator::Multiply | Operator::Divide | Operator::Modulus => 2,
        Operator::Plus | Operator::Minus => 1,
    }
}

impl Operator {
    /// The operator's precedence, used by the reducer's release condition.
    pub fn precedence(&self) -> (p: u8)
        ensures
            p == spec_precedence(*self),
    {
        match self {
            Operator::Uplus | Operator::Uminus => 3,
            Operator::Power => 4,
            Operator::Multiply | Operator::Divide | Operator::Modulus => 2,
            Operator::Plus | Operator::Minus => 1,
        }
    }
}

/// The total precedence order over the operator classes, as the reducer's
/// release condition (`precedence of the pending operator >= precedence of
/// the incoming one`) observes it: power ranks above the unary operators,
/// which rank above multiply/divide/modulus, which rank above binary
/// plus/minus; operators of one class rank equally.
pub proof fn lemma_precedence_order()
    ensures
        forall|a: Operator, b: Operator|
            ((a == Operator::Plus || a == Operator::Minus) && (b == Operator::Plus || b
                == Operator::Minus)) ==> spec_precedence(a) == spec_precedence(b),
        forall|a: Operator, b: Operator|
            ((a == Operator::Multiply || a == Operator::Divide || a == Operator::Modulus) && (b
                == Operator::Multiply || b == Operator::Divide || b == Operator::Modulus))
                ==> spec_precedence(a) == spec_precedence(b),
        forall|a: Operator, b: Operator|
            ((a == Operator::Uplus || a == Operator::Uminus) && (b == Operator::Uplus || b
                == Operator::Uminus)) ==> spec_precedence(a) == spec_precedence(b),
        forall|a: Operator, b: Operator|
            ((a == Operator::Multiply || a == Operator::Divide || a == Operator::Modulus) && (b
                == Operator::Plus || b == Operator::Minus)) ==> spec_precedence(a)
                >= spec_precedence(b),
        forall|a: Operator, b: Operator|
            ((a == Operator::Uplus || a == Operator::Uminus) && (b == Operator::Multiply || b
                == Operator::Divide || b == Operator::Modulus)) ==> spec_precedence(a)
                >= spec_precedence(b),
        forall|b: Operator| spec_precedence(Operator::Power) >= #[trigger] spec_precedence(b),
{
}

/// A classified lexical unit: operand, operator, or parenthesis marker.
#[derive(Debug, PartialEq, Eq)]
pub enum Token {
    Operand(Operand),
    Operator(Operator),
    ParenL,
    ParenR,
}

/// Spec-level view of an operand: every piece of text is a `Seq<char>`.
pub enum OperandView {
    Number(Seq<char>),
    Variable(Seq<char>),
    Function(Function),
}

/// Spec-level view of a token.
pub enum TokenView {
    Operand(OperandView),
    Operator(Operator),
    ParenL,
    ParenR,
}

impl View for Operand {
    type V = OperandView;

    open spec fn view(&self) -> OperandView {
        match self {
            Operand::Number(s) => OperandView::Number(s@),
            Operand::Variable(s) => OperandView::Variable(s@),
            Operand::Function(f) => OperandView::Function(*f),
        }
    }
}

impl View for Token {
    type V = TokenView;

    open spec fn view(&self) -> TokenView {
        match self {
            Token::Operand(o) => TokenView::Operand(o@),
            Token::Operator(op) => TokenView::Operator(*op),
            Token::ParenL => TokenView::ParenL,
            Token::ParenR => TokenView::ParenR,
        }
    }
}

/// The views of a sequence of tokens, in order.
pub open spec fn views_of(ts: Seq<Token>) -> Seq<TokenView> {
    ts.map_values(|t: Token| t@)
}

impl Clone for Operand {
    fn clone(&self) -> (r: Self)
        ensures
            r == *self,
    {
        match self {
            Operand::Number(s) => Operand::Number(s.clone()),
            Operand::Variable(s) => Operand::Variable(s.clone()),
            Operand::Function(f) => Operand::Function(*f),
        }
    }
}

impl Clone for Token {
    fn clone(&self) -> (r: Self)
        ensures
            r == *self,
    {
        match self {
            Token::Operand(o) => Token::Operand(o.clone()),
            Token::Operator(op) => Token::Operator(*op),
            Token::ParenL => Token::ParenL,
            Token::ParenR => Token::ParenR,
        }
    }
}

impl Token {
    /// Whether the token is an operand: a number, a variable, or a
    /// function tag all answer true, despite the narrower name.
    pub fn is_integer(&self) -> (r: bool)
        ensures
            r == (self@ matches TokenView::Operand(_)),
    {
        match self {
            Token::Operand(_) => true,
            _ => false,
        }
    }

    /// Whether the token is an operator.
    pub fn is_operator(&self) -> (r: bool)
        ensures
            r == (self@ matches TokenView::Operator(_)),
    {
        match self {
            Token::Operator(_) => true,
            _ => false,
        }
    }

    /// Whether the token is a left parenthesis.
    pub fn is_paren_l(&self) -> (r: bool)
        ensures
            r == (self@ matches TokenView::ParenL),
    {
        match self {
            Token::ParenL => true,
            _ => false,
        }
    }

    /// Whether the token is a right parenthesis.
    pub fn is_paren_r(&self) -> (r: bool)
        ensures
            r == (self@ matches TokenView::ParenR),
    {
        match self {
            Token::ParenR => true,
            _ => false,
        }
    }
}

/// The error taxonomy of the scanner. Each variant carries the character
/// offset at which the condition was detected.
#[derive(Debug, PartialEq, Eq)]
pub enum Error {
    InvalidExpression(usize),
    InvalidToken((usize, char)),
    InvalidFunction(usize),
    InvalidOperator(usize),
    InvalidOperand((usize, String)),
    InvalidVariable(usize),
    InvalidParenthesis(usize),
    InvalidEOF(usize),
}

/// Spec-level view of an error: positions as `int`, text as `Seq<char>`.
pub enum ErrorView {
    InvalidExpression(int),
    InvalidToken((int, char)),
    InvalidFunction(int),
    InvalidOperator(int),
    InvalidOperand((int, Seq<char>)),
    InvalidVariable(int),
    InvalidParenthesis(int),
    InvalidEOF(int),
}

impl View for Error {
    type V = ErrorView;

    open spec fn view(&self) -> ErrorView {
        match self {
            Error::InvalidExpression(p) => ErrorView::InvalidExpression(*p as int),
            Error::InvalidToken((p, c)) => ErrorView::InvalidToken((*p as int, *c)),
            Error::InvalidFunction(p) => ErrorView::InvalidFunction(*p as int),
            Error::InvalidOperator(p) => ErrorView::InvalidOperator(*p as int),
            Error::InvalidOperand((p, s)) => ErrorView::InvalidOperand((*p as int, s@)),
            Error::InvalidVariable(p) => ErrorView::InvalidVariable(*p as int),
            Error::InvalidParenthesis(p) => ErrorView::InvalidParenthesis(*p as int),
            Error::InvalidEOF(p) => ErrorView::InvalidEOF(*p as int),
        }
    }
}

} // verus!
