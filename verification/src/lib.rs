//! An arithmetic-expression compiler pipeline: it scans a textual formula
//! (optionally with named variables bound to numeric values) into a flat
//! token sequence, and reorders that sequence by operator precedence
//! (shunting-yard) into an evaluation-ready form.

pub mod expr;
pub mod num;
pub mod reduce;
pub mod stack;
pub mod token;

pub use expr::Expression;
pub use reduce::UnwindStack;
pub use stack::Stack;
pub use token::Error;
pub use token::ErrorView;
pub use token::Function;
pub use token::Operand;
pub use token::OperandView;
pub use token::Operator;
pub use token::Token;
pub use token::TokenView;
