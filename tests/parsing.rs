use funcplot::lexer::{tokenize, Operation, Token};
use funcplot::parser::{parse, parse_factor, parse_single_value, parse_term, Expression};
use funcplot::samples::evaluate_many;

fn num(text: &str) -> Expression {
    Expression::Number(text.chars().collect())
}

fn op(lhs: Expression, operation: Operation, rhs: Expression) -> Expression {
    Expression::Operation(Box::new(lhs), operation, Box::new(rhs))
}

fn tokens_of(text: &str) -> Vec<Token> {
    tokenize(text.chars().collect()).unwrap()
}

#[test]
fn parse_variable() {
    assert_eq!(parse(String::from("x")), Expression::X);
}

#[test]
fn parse_sum_of_constants() {
    assert_eq!(parse(String::from("2+3")), op(num("2"), Operation::Add, num("3")));
}

#[test]
fn brackets_override_grouping() {
    assert_eq!(
        parse(String::from("(2+3)*4")),
        op(op(num("2"), Operation::Add, num("3")), Operation::Mul, num("4"))
    );
    assert_eq!(
        parse(String::from("2+3*4")),
        op(num("2"), Operation::Add, op(num("3"), Operation::Mul, num("4")))
    );
}

#[test]
fn foreign_characters_are_invalid() {
    assert_eq!(parse(String::from("2+y")), Expression::Invalid);
    assert_eq!(parse(String::from("2+#")), Expression::Invalid);
    assert_eq!(parse(String::from("x\u{e9}")), Expression::Invalid);
}

#[test]
fn unmatched_bracket_and_empty_are_invalid() {
    assert_eq!(parse(String::from("(2+3")), Expression::Invalid);
    assert_eq!(parse(String::from("")), Expression::Invalid);
    assert_eq!(parse(String::from("   ")), Expression::Invalid);
}

#[test]
fn power_groups_to_the_left() {
    assert_eq!(
        parse(String::from("x^2^3")),
        op(op(Expression::X, Operation::Pow, num("2")), Operation::Pow, num("3"))
    );
}

#[test]
fn division_groups_to_the_right() {
    assert_eq!(
        parse(String::from("8/2/2")),
        op(num("8"), Operation::Div, op(num("2"), Operation::Div, num("2")))
    );
}

#[test]
fn subtraction_groups_to_the_right() {
    assert_eq!(
        parse(String::from("5-2-1")),
        op(num("5"), Operation::Sub, op(num("2"), Operation::Sub, num("1")))
    );
}

#[test]
fn square_of_variable() {
    assert_eq!(parse(String::from("x^2")), op(Expression::X, Operation::Pow, num("2")));
}

#[test]
fn polynomial_with_spaces() {
    assert_eq!(
        parse(String::from(" x^2 + 3 * x - 1 ")),
        op(
            op(Expression::X, Operation::Pow, num("2")),
            Operation::Add,
            op(op(num("3"), Operation::Mul, Expression::X), Operation::Sub, num("1"))
        )
    );
}

#[test]
fn power_binds_a_single_value() {
    assert_eq!(
        parse(String::from("2*x^(1+1)")),
        op(
            num("2"),
            Operation::Mul,
            op(Expression::X, Operation::Pow, op(num("1"), Operation::Add, num("1")))
        )
    );
}

#[test]
fn trailing_tokens_are_ignored() {
    assert_eq!(parse(String::from("2)3")), num("2"));
    assert_eq!(parse(String::from("(x)(1")), Expression::X);
}

#[test]
fn missing_operands_are_invalid() {
    assert_eq!(parse(String::from("2+")), Expression::Invalid);
    assert_eq!(parse(String::from("*2")), Expression::Invalid);
    assert_eq!(parse(String::from("2*")), Expression::Invalid);
    assert_eq!(parse(String::from("x^")), Expression::Invalid);
    assert_eq!(parse(String::from("()")), Expression::Invalid);
    assert_eq!(parse(String::from("-1")), Expression::Invalid);
}

#[test]
fn invalid_deep_inside_is_contagious() {
    assert_eq!(parse(String::from("1+2*(3-)")), Expression::Invalid);
    assert_eq!(parse(String::from("x^(x")), Expression::Invalid);
}

#[test]
fn decimal_numerals() {
    assert_eq!(parse(String::from("2.5*x")), op(num("2.5"), Operation::Mul, Expression::X));
    assert_eq!(parse(String::from("3.")), num("3."));
    assert_eq!(parse(String::from(".5")), Expression::Invalid);
}

#[test]
fn malformed_numeral_is_invalid() {
    assert_eq!(tokenize("1.2.3".chars().collect()), None);
    assert_eq!(tokenize("x+1..".chars().collect()), None);
    assert_eq!(parse(String::from("1.2.3")), Expression::Invalid);
}

#[test]
fn tokenize_keeps_order_and_skips_spaces() {
    assert_eq!(
        tokens_of(" 12.5 x+(3)-/^*"),
        vec![
            Token::Number(vec!['1', '2', '.', '5']),
            Token::X,
            Token::Operation(Operation::Add),
            Token::BracketOpen,
            Token::Number(vec!['3']),
            Token::BracketClosed,
            Token::Operation(Operation::Sub),
            Token::Operation(Operation::Div),
            Token::Operation(Operation::Pow),
            Token::Operation(Operation::Mul),
        ]
    );
    assert_eq!(tokens_of(""), vec![]);
}

#[test]
fn tokenize_marks_unknown_characters_and_goes_on() {
    assert_eq!(
        tokens_of("2#x.y"),
        vec![Token::Number(vec!['2']), Token::Unknown, Token::X, Token::Unknown, Token::Unknown]
    );
}

#[test]
fn numeral_stops_at_other_characters() {
    assert_eq!(
        tokens_of("10x2"),
        vec![Token::Number(vec!['1', '0']), Token::X, Token::Number(vec!['2'])]
    );
}

#[test]
fn parse_levels_report_their_end() {
    let tokens = tokens_of("2*3+4");
    let (e, end) = parse_factor(&tokens, 0);
    assert_eq!(e, op(num("2"), Operation::Mul, num("3")));
    assert_eq!(end, 3);
    let (e, end) = parse_single_value(&tokens, 4);
    assert_eq!(e, num("4"));
    assert_eq!(end, 5);
    let (e, end) = parse_term(&tokens, 0);
    assert_eq!(e, op(op(num("2"), Operation::Mul, num("3")), Operation::Add, num("4")));
    assert_eq!(end, 5);
    let (e, _) = parse_single_value(&tokens, 5);
    assert_eq!(e, Expression::Invalid);
}

#[test]
fn evaluate_many_keeps_length_and_order() {
    let xs: Vec<f64> = vec![0.0, 1.0, 2.0, 3.0];
    let ys = evaluate_many(&xs, |x: f64| x * x);
    assert_eq!(ys, vec![0.0, 1.0, 4.0, 9.0]);
    let ys = evaluate_many(&xs, |x: f64| 10.0 - x);
    assert_eq!(ys, vec![10.0, 9.0, 8.0, 7.0]);
}

#[test]
fn evaluate_many_on_no_samples() {
    let xs: Vec<f64> = vec![];
    let ys = evaluate_many(&xs, |x: f64| x + 1.0);
    assert!(ys.is_empty());
}

#[test]
fn is_invalid_tells_the_failure_apart() {
    assert!(parse(String::from("2+y")).is_invalid());
    assert!(!parse(String::from("2+x")).is_invalid());
}
