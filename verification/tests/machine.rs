use exprc::Expression;
use exprc::Operand;
use exprc::Operator;
use exprc::Stack;
use exprc::Token;
use exprc::UnwindStack;

fn n(s: &str) -> Token {
    Token::Operand(Operand::Number(s.to_string()))
}

#[test]
fn precedence_values_and_order() {
    assert_eq!(Operator::Plus.precedence(), 1);
    assert_eq!(Operator::Minus.precedence(), 1);
    assert_eq!(Operator::Multiply.precedence(), 2);
    assert_eq!(Operator::Divide.precedence(), 2);
    assert_eq!(Operator::Modulus.precedence(), 2);
    assert_eq!(Operator::Uplus.precedence(), 3);
    assert_eq!(Operator::Uminus.precedence(), 3);
    assert_eq!(Operator::Power.precedence(), 4);
    assert!(Operator::Multiply.precedence() >= Operator::Plus.precedence());
    assert!(Operator::Uminus.precedence() >= Operator::Divide.precedence());
    assert!(Operator::Power.precedence() >= Operator::Uplus.precedence());
}

#[test]
fn token_predicates() {
    assert!(n("1").is_integer());
    assert!(!n("1").is_operator());
    assert!(Token::Operator(Operator::Plus).is_operator());
    assert!(Token::ParenL.is_paren_l());
    assert!(!Token::ParenL.is_paren_r());
    assert!(Token::ParenR.is_paren_r());
    assert!(!Token::ParenR.is_integer());
}

#[test]
fn stack_push_pop_reverses() {
    let mut s = Stack::new(n("1"));
    s.push(n("2"));
    s.push(n("3"));
    assert_eq!(s.len(), 3);
    assert!(!s.is_empty());
    assert_eq!(s.pop(), Some(n("3")));
    assert_eq!(s.pop(), Some(n("2")));
    assert_eq!(s.pop(), Some(n("1")));
    assert_eq!(s.len(), 0);
    assert!(s.is_empty());
    assert_eq!(s.pop(), None);
    assert_eq!(s.len(), 0);
    assert!(s.is_empty());
}

#[test]
fn stack_peek_and_next() {
    let mut s = Stack::new(n("1"));
    assert_eq!(s.peek(), Some(n("1")));
    assert_eq!(s.next(), None);
    s.push(n("2"));
    assert_eq!(s.peek(), Some(n("2")));
    assert_eq!(s.next(), Some(n("1")));
    assert_eq!(s.len(), 2);
    let e = Stack::empty();
    assert_eq!(e.peek(), None);
    assert_eq!(e.next(), None);
}

#[test]
fn stack_from_expression_last_on_top() {
    let mut x = Expression::new("1 + 2");
    assert!(x.tokenize().is_ok());
    let mut s = Stack::from(&mut x);
    assert!(x.structurized.is_none());
    assert_eq!(s.len(), 3);
    assert_eq!(
        s.to_vec(),
        vec![n("1"), Token::Operator(Operator::Plus), n("2")]
    );
    assert_eq!(s.pop(), Some(n("2")));
    assert_eq!(s.pop(), Some(Token::Operator(Operator::Plus)));
    assert_eq!(s.pop(), Some(n("1")));
}

#[test]
fn reduce_orders_by_precedence() {
    let mut x = Expression::new("2 - 2 * 2");
    assert!(x.tokenize().is_ok());
    let mut u = UnwindStack::new(&mut x);
    assert!(u.calculate().is_ok());
    assert_eq!(u.input_stack.len(), 0);
    assert_eq!(u.operator_stack.len(), 0);
    assert_eq!(
        u.output_queue.to_vec(),
        vec![
            n("2"),
            n("2"),
            n("2"),
            Token::Operator(Operator::Multiply),
            Token::Operator(Operator::Minus)
        ]
    );
}

#[test]
fn reduce_handles_parentheses() {
    let mut x = Expression::new("(2 + 3) * 4");
    assert!(x.tokenize().is_ok());
    let mut u = UnwindStack::new(&mut x);
    assert!(u.calculate().is_ok());
    assert_eq!(
        u.output_queue.to_vec(),
        vec![
            n("2"),
            n("3"),
            Token::Operator(Operator::Plus),
            n("4"),
            Token::Operator(Operator::Multiply)
        ]
    );
}

#[test]
fn reduce_equal_precedence_left_to_right() {
    let mut x = Expression::new("8 / 4 / 2");
    assert!(x.tokenize().is_ok());
    let mut u = UnwindStack::new(&mut x);
    assert!(u.calculate().is_ok());
    assert_eq!(
        u.output_queue.to_vec(),
        vec![
            n("8"),
            n("4"),
            Token::Operator(Operator::Divide),
            n("2"),
            Token::Operator(Operator::Divide)
        ]
    );
}
