use exprc::Error;
use exprc::Expression;
use exprc::Operand;
use exprc::Operator;
use exprc::Token;

fn num(s: &str) -> Token {
    Token::Operand(Operand::Number(s.to_string()))
}

fn op(o: Operator) -> Token {
    Token::Operator(o)
}

fn tokens_of(e: &Expression) -> Vec<Token> {
    e.structurized.as_ref().unwrap().clone()
}

#[test]
fn tokenize_simple_binary() {
    let mut x = Expression::new("2 - 2 * 2");
    assert!(x.tokenize().is_ok());
    assert_eq!(
        tokens_of(&x),
        vec![num("2"), op(Operator::Minus), num("2"), op(Operator::Multiply), num("2")]
    );
    assert_eq!(x.lookup().as_str(), "2 - 2 * 2");
}

#[test]
fn tokenize_variable_substitution() {
    let mut x = Expression::new("x - y | 2 1");
    assert!(x.tokenize().is_ok());
    assert_eq!(x.raw.as_str(), "2 - 1");
    assert_eq!(tokens_of(&x), vec![num("2"), op(Operator::Minus), num("1")]);
    assert_eq!(x.lookup().as_str(), "2 - 1");
}

#[test]
fn tokenize_twice_fails_invalid_eof() {
    let mut x = Expression::new("1 + 2");
    assert!(x.tokenize().is_ok());
    assert_eq!(x.tokenize(), Err(Error::InvalidEOF(0)));
    let mut y = Expression::new("x - y | 2 1");
    assert!(y.tokenize().is_ok());
    assert_eq!(y.tokenize(), Err(Error::InvalidEOF(0)));
}

#[test]
fn unmatched_close_paren_fails_at_offset() {
    let mut x = Expression::new("1 ) (");
    assert_eq!(x.tokenize(), Err(Error::InvalidParenthesis(2)));
}

#[test]
fn unbalanced_end_fails_at_zero() {
    let mut x = Expression::new("(2");
    assert_eq!(x.tokenize(), Err(Error::InvalidParenthesis(0)));
    let mut y = Expression::new("((1) + 2");
    assert_eq!(y.tokenize(), Err(Error::InvalidParenthesis(0)));
}

#[test]
fn unknown_character_fails_at_offset() {
    let mut x = Expression::new("2 @ 3");
    assert_eq!(x.tokenize(), Err(Error::InvalidToken((2, '@'))));
}

#[test]
fn binary_operator_misplaced_fails() {
    let mut a = Expression::new("* 2");
    assert_eq!(a.tokenize(), Err(Error::InvalidOperator(0)));
    let mut b = Expression::new("2 * / 3");
    assert_eq!(b.tokenize(), Err(Error::InvalidOperator(4)));
    let mut c = Expression::new("( % 2)");
    assert_eq!(c.tokenize(), Err(Error::InvalidOperator(2)));
}

#[test]
fn sign_classification_unary_and_binary() {
    let mut a = Expression::new("-2");
    assert!(a.tokenize().is_ok());
    assert_eq!(tokens_of(&a), vec![op(Operator::Uminus), num("2")]);
    let mut b = Expression::new("2 * -3");
    assert!(b.tokenize().is_ok());
    assert_eq!(
        tokens_of(&b),
        vec![num("2"), op(Operator::Multiply), op(Operator::Uminus), num("3")]
    );
    let mut c = Expression::new("(2) - 1");
    assert!(c.tokenize().is_ok());
    assert_eq!(
        tokens_of(&c),
        vec![
            Token::ParenL,
            num("2"),
            Token::ParenR,
            op(Operator::Minus),
            num("1")
        ]
    );
}

#[test]
fn number_literal_shapes() {
    let mut a = Expression::new(".5");
    assert!(a.tokenize().is_ok());
    assert_eq!(tokens_of(&a), vec![num(".5")]);
    let mut b = Expression::new("1.2.3");
    assert!(b.tokenize().is_ok());
    assert_eq!(tokens_of(&b), vec![num("1.2"), num(".3")]);
    let mut c = Expression::new(".");
    assert_eq!(c.tokenize(), Err(Error::InvalidOperand((1, ".".to_string()))));
}

#[test]
fn bad_value_fails_invalid_variable() {
    let mut x = Expression::new("x | abc");
    assert_eq!(x.tokenize(), Err(Error::InvalidVariable(0)));
    let mut y = Expression::new("x | 1..2");
    assert_eq!(y.tokenize(), Err(Error::InvalidVariable(0)));
}

#[test]
fn substitution_canonicalizes_values() {
    let mut x = Expression::new("x | 2.50");
    assert!(x.tokenize().is_ok());
    assert_eq!(x.raw.as_str(), "2.5");
    let mut y = Expression::new("x y | 003 +.5");
    assert!(y.tokenize().is_ok());
    assert_eq!(y.raw.as_str(), "3 0.5");
    let mut z = Expression::new("x | -07.10");
    assert!(z.tokenize().is_ok());
    assert_eq!(z.raw.as_str(), "-7.1");
}

#[test]
fn substitution_repeated_name() {
    let mut x = Expression::new("x + x | 7");
    assert!(x.tokenize().is_ok());
    assert_eq!(x.raw.as_str(), "7 + 7");
}

#[test]
fn substitution_missing_values_leaves_names() {
    let mut x = Expression::new("x + y | 1");
    assert_eq!(x.tokenize(), Err(Error::InvalidToken((4, 'y'))));
    assert_eq!(x.raw.as_str(), "1 + y");
}

#[test]
fn lookup_paren_spacing() {
    let mut x = Expression::new("(2 + 3) * 4");
    assert!(x.tokenize().is_ok());
    assert_eq!(x.lookup().as_str(), "( 2 + 3) * 4");
}

#[test]
fn rendered_text_retokenizes_to_same_tokens() {
    for src in ["2 - 2 * 2", "(2 + 3) * 4", "-(1.5 / .5) ^ 2 % 3"] {
        let mut x = Expression::new(src);
        assert!(x.tokenize().is_ok());
        let rendered = x.lookup();
        let mut y = Expression::new(rendered.as_str());
        assert!(y.tokenize().is_ok());
        assert_eq!(x.structurized, y.structurized);
        assert_eq!(y.lookup(), rendered);
    }
}

#[test]
fn substitution_binds_first_appearance() {
    let mut x = Expression::new("x y x | 1 2 3");
    assert!(x.tokenize().is_ok());
    assert_eq!(x.raw.as_str(), "1 2 1");
}

#[test]
fn empty_inputs_tokenize_to_nothing() {
    let mut x = Expression::new("");
    assert!(x.tokenize().is_ok());
    assert_eq!(x.structurized, Some(vec![]));
    let mut y = Expression::new("| 1");
    assert!(y.tokenize().is_ok());
    assert_eq!(y.raw.as_str(), "");
    assert_eq!(y.structurized, Some(vec![]));
}

#[test]
fn text_kept_without_separator() {
    let mut x = Expression::new("1 + 2");
    assert!(x.tokenize().is_ok());
    assert_eq!(x.raw.as_str(), "1 + 2");
}
