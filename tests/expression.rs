use memocache::{
    calc_postfix, infix_to_postfix, run, tokenize, tokenize_infix, tokens_to_string, Brace,
    CalcVisitor, ExprError, Lexeme, NumberToken, Operation, ParserVisitor, PrintVisitor, Token,
    TokenVisitor,
};

#[test]
fn precedence() {
    let result = run("2 + 2 * 2");
    assert_eq!(result.unwrap(), ("2 2 2 * +".to_owned(), 6));
}

#[test]
fn precedence_with_braces() {
    let result = run("(2 + 2) * 2");
    assert_eq!(result.unwrap(), ("2 2 + 2 *".to_owned(), 8));
}

#[test]
fn division_with_braces() {
    let result = run("(2 + 2) / 2");
    assert_eq!(result.unwrap(), ("2 2 + 2 /".to_owned(), 2));
}

#[test]
fn division_left_associative() {
    let result = run("4 / 2 / 2");
    assert_eq!(result.unwrap(), ("4 2 / 2 /".to_owned(), 1));
}

#[test]
fn subtraction_left_associative() {
    let result = run("4 - 2 - 2");
    assert_eq!(result.unwrap(), ("4 2 - 2 -".to_owned(), 0));
}

#[test]
fn simple_plus() {
    let result = tokenize("5 + 5");
    let expected: Vec<Lexeme> = vec![
        Lexeme::Number(NumberToken(5)),
        Lexeme::Operation(Operation::Plus),
        Lexeme::Number(NumberToken(5)),
    ];
    assert_eq!(result.unwrap(), expected);
}

#[test]
fn plus_multiply_with_braces() {
    let result = tokenize("(2 + 2) * 2");
    let expected: Vec<Lexeme> = vec![
        Lexeme::Brace(Brace::Open),
        Lexeme::Number(NumberToken(2)),
        Lexeme::Operation(Operation::Plus),
        Lexeme::Number(NumberToken(2)),
        Lexeme::Brace(Brace::Close),
        Lexeme::Operation(Operation::Star),
        Lexeme::Number(NumberToken(2)),
    ];
    assert_eq!(result.unwrap(), expected);
}

#[test]
fn infix_to_postfix_simple() {
    let input: Vec<Lexeme> = vec![
        Lexeme::Number(NumberToken(5)),
        Lexeme::Operation(Operation::Plus),
        Lexeme::Number(NumberToken(5)),
    ];
    let result = ParserVisitor::infix_to_postfix(&input);
    let expected: Vec<Lexeme> = vec![
        Lexeme::Number(NumberToken(5)),
        Lexeme::Number(NumberToken(5)),
        Lexeme::Operation(Operation::Plus),
    ];
    assert_eq!(result.unwrap(), expected);
}

#[test]
fn infix_to_postfix_hard() {
    let input: Vec<Lexeme> = vec![
        Lexeme::Number(NumberToken(2)),
        Lexeme::Operation(Operation::Plus),
        Lexeme::Number(NumberToken(2)),
        Lexeme::Operation(Operation::Star),
        Lexeme::Number(NumberToken(2)),
    ];
    let result = ParserVisitor::infix_to_postfix(&input);
    let expected: Vec<Lexeme> = vec![
        Lexeme::Number(NumberToken(2)),
        Lexeme::Number(NumberToken(2)),
        Lexeme::Number(NumberToken(2)),
        Lexeme::Operation(Operation::Star),
        Lexeme::Operation(Operation::Plus),
    ];
    assert_eq!(result.unwrap(), expected);
}

#[test]
fn infix_to_postfix_non_associative() {
    let input: Vec<Lexeme> = vec![
        Lexeme::Number(NumberToken(4)),
        Lexeme::Operation(Operation::Minus),
        Lexeme::Number(NumberToken(2)),
        Lexeme::Operation(Operation::Slash),
        Lexeme::Number(NumberToken(2)),
    ];
    let result = ParserVisitor::infix_to_postfix(&input);
    let expected: Vec<Lexeme> = vec![
        Lexeme::Number(NumberToken(4)),
        Lexeme::Number(NumberToken(2)),
        Lexeme::Number(NumberToken(2)),
        Lexeme::Operation(Operation::Slash),
        Lexeme::Operation(Operation::Minus),
    ];
    assert_eq!(result.unwrap(), expected);
}

#[test]
fn infix_to_postfix_braces() {
    let input: Vec<Lexeme> = vec![
        Lexeme::Brace(Brace::Open),
        Lexeme::Number(NumberToken(2)),
        Lexeme::Operation(Operation::Plus),
        Lexeme::Number(NumberToken(2)),
        Lexeme::Brace(Brace::Close),
        Lexeme::Operation(Operation::Star),
        Lexeme::Number(NumberToken(2)),
    ];
    let result = ParserVisitor::infix_to_postfix(&input);
    let expected: Vec<Lexeme> = vec![
        Lexeme::Number(NumberToken(2)),
        Lexeme::Number(NumberToken(2)),
        Lexeme::Operation(Operation::Plus),
        Lexeme::Number(NumberToken(2)),
        Lexeme::Operation(Operation::Star),
    ];
    assert_eq!(result.unwrap(), expected);
}

#[test]
fn print_simple() {
    let input: Vec<Lexeme> = vec![
        Lexeme::Number(NumberToken(5)),
        Lexeme::Operation(Operation::Plus),
        Lexeme::Number(NumberToken(5)),
    ];
    assert_eq!(PrintVisitor::write(&input).unwrap(), "5 + 5");
}

#[test]
fn evaluate_simple() {
    let input: Vec<Lexeme> = vec![
        Lexeme::Number(NumberToken(2)),
        Lexeme::Number(NumberToken(2)),
        Lexeme::Number(NumberToken(2)),
        Lexeme::Operation(Operation::Star),
        Lexeme::Operation(Operation::Plus),
    ];
    let res = CalcVisitor::evaluate_postfix(&input);
    assert_eq!(res.unwrap(), 6);
}

#[test]
fn multi_digit_numbers_and_other_whitespace() {
    let tokens = tokenize_infix("\t12*\n(305-7)\u{a0}").unwrap();
    let expected: Vec<Lexeme> = vec![
        Lexeme::Number(NumberToken(12)),
        Lexeme::Operation(Operation::Star),
        Lexeme::Brace(Brace::Open),
        Lexeme::Number(NumberToken(305)),
        Lexeme::Operation(Operation::Minus),
        Lexeme::Number(NumberToken(7)),
        Lexeme::Brace(Brace::Close),
    ];
    assert_eq!(tokens, expected);
    assert_eq!(run("12*(305-7)").unwrap(), ("12 305 7 - *".to_owned(), 3576));
}

#[test]
fn largest_literal_is_accepted() {
    let tokens = tokenize("2147483647").unwrap();
    assert_eq!(tokens, vec![Lexeme::Number(NumberToken(i32::MAX))]);
    assert_eq!(tokenize("2147483648"), Err(ExprError::NumberOutOfRange));
    assert_eq!(tokenize("99999999999 + x"), Err(ExprError::NumberOutOfRange));
}

#[test]
fn empty_input_has_no_tokens() {
    assert_eq!(tokenize("").unwrap(), Vec::<Lexeme>::new());
    assert_eq!(tokenize("   ").unwrap(), Vec::<Lexeme>::new());
    assert_eq!(run(""), Err(ExprError::UnexpectedEnd));
}

#[test]
fn unexpected_char_is_reported() {
    assert_eq!(tokenize("2 + x"), Err(ExprError::UnexpectedChar('x')));
    assert_eq!(run("1 % 2"), Err(ExprError::UnexpectedChar('%')));
}

#[test]
fn unbalanced_braces_are_reported() {
    assert_eq!(run("(2 + 2"), Err(ExprError::UnexpectedOpenBrace));
    assert_eq!(run("2 + 2)"), Err(ExprError::UnexpectedCloseBrace));
}

#[test]
fn postfix_errors_are_reported() {
    let with_brace = vec![Lexeme::Number(NumberToken(1)), Lexeme::Brace(Brace::Open)];
    assert_eq!(calc_postfix(&with_brace), Err(ExprError::BraceInPostfix));
    let short = vec![Lexeme::Number(NumberToken(1)), Lexeme::Operation(Operation::Minus)];
    assert_eq!(calc_postfix(&short), Err(ExprError::NotEnoughOperands(Operation::Minus)));
    let two = vec![Lexeme::Number(NumberToken(1)), Lexeme::Number(NumberToken(2))];
    assert_eq!(calc_postfix(&two), Err(ExprError::UnexpectedEnd));
}

#[test]
fn arithmetic_errors_are_reported() {
    assert_eq!(run("1 / 0"), Err(ExprError::DivisionByZero));
    assert_eq!(run("2147483647 + 1"), Err(ExprError::Overflow));
    assert_eq!(run("0 - 2147483647 - 2"), Err(ExprError::Overflow));
    assert_eq!(run("65536 * 65536"), Err(ExprError::Overflow));
}

#[test]
fn division_truncates_toward_zero() {
    assert_eq!(run("7 / 2").unwrap().1, 3);
    assert_eq!(run("(0 - 7) / 2").unwrap().1, -3);
}

#[test]
fn printing_of_negatives_and_braces() {
    let tokens = vec![
        Lexeme::Brace(Brace::Open),
        Lexeme::Number(NumberToken(-42)),
        Lexeme::Operation(Operation::Slash),
        Lexeme::Number(NumberToken(0)),
        Lexeme::Brace(Brace::Close),
    ];
    assert_eq!(tokens_to_string(&tokens).unwrap(), "(-42 / 0 )");
    assert_eq!(tokens_to_string(&Vec::new()).unwrap(), "");
    let min = vec![Lexeme::Number(NumberToken(i32::MIN))];
    assert_eq!(tokens_to_string(&min).unwrap(), "-2147483648");
}

#[test]
fn pipeline_pieces_agree_with_run() {
    let tokens = tokenize_infix("8 - 3 * 2").unwrap();
    let postfix = infix_to_postfix(&tokens).unwrap();
    assert_eq!(tokens_to_string(&postfix).unwrap(), "8 3 2 * -");
    assert_eq!(calc_postfix(&postfix).unwrap(), 2);
}

#[derive(Default)]
struct KindCounter {
    numbers: usize,
    braces: usize,
    operations: usize,
}

impl TokenVisitor for KindCounter {
    fn visit_number(&mut self, _token: &NumberToken) -> Result<(), ExprError> {
        self.numbers += 1;
        Ok(())
    }

    fn visit_brace(&mut self, _token: &Brace) -> Result<(), ExprError> {
        self.braces += 1;
        Ok(())
    }

    fn visit_operation(&mut self, _token: &Operation) -> Result<(), ExprError> {
        self.operations += 1;
        Ok(())
    }
}

#[test]
fn visitor_sees_each_kind() {
    let tokens = tokenize("(1 + 2) * 3").unwrap();
    let mut counter = KindCounter::default();
    for t in &tokens {
        t.accept(&mut counter).unwrap();
    }
    assert_eq!((counter.numbers, counter.braces, counter.operations), (3, 2, 2));
    NumberToken(4).accept(&mut counter).unwrap();
    assert_eq!(counter.numbers, 4);
}
