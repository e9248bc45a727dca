use calc_core::op::Op;
use calc_core::op::OpType;
use calc_core::parser::parse_to_operations;
use calc_core::parser::sanitase;
use calc_core::parser::KnownLiterals;
use calc_core::parser::Parse;
use calc_core::rational::Rational;
use calc_core::tokenizer::dbg_tokenize;
use calc_core::tokenizer::tokenize;
use calc_core::tokenizer::Token;

fn num(n: i64) -> Token {
    Token::Number(Rational::new(n, 1))
}

fn leaf(n: i64) -> Box<Op> {
    Box::new(Op::Number(Rational::new(n, 1)))
}

#[test]
fn test_parse_to_operations() {
    let mut known_literals = KnownLiterals::new();
    assert_eq!(
        parse_to_operations(vec![num(2), Token::Op(OpType::Mul), num(2)], &mut known_literals)
            .unwrap(),
        Op::Mul(leaf(2), leaf(2))
    );
    assert_eq!(
        parse_to_operations(vec![num(2), Token::Op(OpType::Div), num(2)], &mut known_literals)
            .unwrap(),
        Op::Div(leaf(2), leaf(2))
    );
    assert_eq!(
        parse_to_operations(vec![num(2), Token::Op(OpType::Add), num(2)], &mut known_literals)
            .unwrap(),
        Op::Add(leaf(2), leaf(2))
    );
    assert_eq!(
        parse_to_operations(vec![num(2), Token::Op(OpType::Sub), num(2)], &mut known_literals)
            .unwrap(),
        Op::Sub(leaf(2), leaf(2))
    );
    assert_eq!(
        parse_to_operations(
            vec![num(2), Token::Op(OpType::Sub), num(2), Token::Op(OpType::Div), num(3)],
            &mut known_literals
        )
        .unwrap(),
        Op::Sub(leaf(2), Box::new(Op::Div(leaf(2), leaf(3))))
    );
    assert_eq!(
        parse_to_operations(
            vec![num(2), Token::Op(OpType::Mul), num(2), Token::Op(OpType::Div), num(3)],
            &mut known_literals
        )
        .unwrap(),
        Op::Div(Box::new(Op::Mul(leaf(2), leaf(2))), leaf(3))
    );
    assert_eq!(
        parse_to_operations(vec![Token::Op(OpType::Root), num(2)], &mut known_literals).unwrap(),
        Op::Root(leaf(2))
    );
}

#[test]
fn parser_test_parse_to_operations() {
    let mut known_literals = KnownLiterals::new();
    assert_eq!(
        parse_to_operations(vec![num(2), Token::Op(OpType::Mul), num(2)], &mut known_literals)
            .unwrap(),
        Op::Mul(leaf(2), leaf(2))
    );
    assert_eq!(
        parse_to_operations(vec![num(2), Token::Op(OpType::Div), num(2)], &mut known_literals)
            .unwrap(),
        Op::Div(leaf(2), leaf(2))
    );
    assert_eq!(
        parse_to_operations(
            vec![num(2), Token::Op(OpType::Sub), num(2), Token::Op(OpType::Div), num(3)],
            &mut known_literals
        )
        .unwrap(),
        Op::Sub(leaf(2), Box::new(Op::Div(leaf(2), leaf(3))))
    );
    assert_eq!(
        parse_to_operations(vec![Token::Op(OpType::Root), num(2)], &mut known_literals).unwrap(),
        Op::Root(leaf(2))
    );
}

#[test]
fn implicit_multiplication_matches_explicit() {
    // "2 3" and "2*3" build equal trees and equal results.
    let mut t1 = KnownLiterals::new();
    let mut t2 = KnownLiterals::new();
    let spaced = sanitase(tokenize("2 3")).unwrap();
    let starred = sanitase(tokenize("2*3")).unwrap();
    assert_eq!(spaced, starred);
    let tree1 = parse_to_operations(spaced, &mut t1).unwrap();
    let tree2 = parse_to_operations(starred, &mut t2).unwrap();
    assert_eq!(tree1, tree2);
    assert_eq!(tree1.apply(), Rational::new(6, 1));
    let mut t3 = KnownLiterals::new();
    let mut t4 = KnownLiterals::new();
    assert_eq!(
        tokenize("2 3").parse(&mut t3).unwrap(),
        tokenize("2*3").parse(&mut t4).unwrap()
    );
}

#[test]
fn precedence_scenarios() {
    let mut t = KnownLiterals::new();
    // "1 - 2 / 3" binds the division under the subtraction.
    let tree = parse_to_operations(sanitase(tokenize("1 - 2 / 3")).unwrap(), &mut t).unwrap();
    assert_eq!(tree, Op::Sub(leaf(1), Box::new(Op::Div(leaf(2), leaf(3)))));
    assert_eq!(tokenize("1 - 2 / 3").parse(&mut t).unwrap(), Rational::new(1, 3));
    // "2 * 2 / 3" stays left to right among equals.
    let tree = parse_to_operations(sanitase(tokenize("2 * 2 / 3")).unwrap(), &mut t).unwrap();
    assert_eq!(tree, Op::Div(Box::new(Op::Mul(leaf(2), leaf(2))), leaf(3)));
    assert_eq!(tokenize("2 * 2 / 3").parse(&mut t).unwrap(), Rational::new(4, 3));
    // "2 - 3 * 4" binds the product under the subtraction.
    let tree = parse_to_operations(sanitase(tokenize("2 - 3 * 4")).unwrap(), &mut t).unwrap();
    assert_eq!(tree, Op::Sub(leaf(2), Box::new(Op::Mul(leaf(3), leaf(4)))));
    assert_eq!(tokenize("2 - 3 * 4").parse(&mut t).unwrap(), Rational::new(-10, 1));
}

#[test]
fn forward_operators() {
    let mut t = KnownLiterals::new();
    assert_eq!(tokenize("sqrt 4").parse(&mut t).unwrap(), Rational::new(2, 1));
    // The operand after a forward operator gains no implicit multiplication
    // at its boundary.
    let clean = sanitase(tokenize("sqrt 4 2")).unwrap();
    assert_eq!(
        clean,
        vec![Token::Op(OpType::Root), num(4), num(2)]
    );
    assert_eq!(tokenize("log 2 8").parse(&mut t).unwrap(), Rational::new(3, 1));
    assert_eq!(tokenize("2 ^ 10").parse(&mut t).unwrap(), Rational::new(1024, 1));
    assert_eq!(tokenize("7 % 3").parse(&mut t).unwrap(), Rational::new(1, 1));
}

#[test]
fn session_bindings() {
    let mut t = KnownLiterals::new();
    assert_eq!(tokenize("a = 5").parse(&mut t).unwrap(), Rational::new(5, 1));
    assert_eq!(tokenize("a * 2").parse(&mut t).unwrap(), Rational::new(10, 1));
    // Names match without regard to case.
    assert_eq!(tokenize("A + 1").parse(&mut t).unwrap(), Rational::new(6, 1));
    // A bound name is eagerly substituted before the binding sign is seen,
    // so a second binding does not take: the line degenerates to the zero
    // sentinel and the old value stays.
    assert_eq!(tokenize("a = 7").parse(&mut t).unwrap(), Rational::new(0, 1));
    assert_eq!(tokenize("a * 2").parse(&mut t).unwrap(), Rational::new(10, 1));
    // Binding one name to another bound name.
    assert_eq!(tokenize("b = a").parse(&mut t).unwrap(), Rational::new(5, 1));
    assert_eq!(tokenize("b + 1").parse(&mut t).unwrap(), Rational::new(6, 1));
}

#[test]
fn unknown_literal_fails() {
    let mut t = KnownLiterals::new();
    let r = tokenize("zz").parse(&mut t);
    assert_eq!(r, Err(String::from("Unknown literal: \"zz\"")));
}

#[test]
fn error_variants() {
    let mut t = KnownLiterals::new();
    // A stray invalid token aborts the stream.
    assert_eq!(
        vec![Token::Invalid, num(1)].parse(&mut t),
        Err(String::from("Stream contains invalid tokens"))
    );
    assert_eq!(
        vec![Token::Invalid].parse(&mut t),
        Err(String::from("Stream contains invalid tokens"))
    );
    // A lone token with no numeric value.
    assert_eq!(
        vec![Token::OpenP].parse(&mut t),
        Err(String::from("Failed to parse stream."))
    );
    // An operator missing its trailing operand.
    assert_eq!(
        tokenize("1 +").parse(&mut t),
        Err(String::from("Expected token at: 2"))
    );
    // A non-number where a number is required.
    assert_eq!(
        tokenize("+ 1").parse(&mut t),
        Err(String::from("Number expected."))
    );
    // An empty line.
    assert_eq!(tokenize("").parse(&mut t), Err(String::from("Stream empty")));
    // A forward operator that would rebind into a tighter tree.
    assert_eq!(
        tokenize("1 + 2 sqrt 4").parse(&mut t),
        Err(String::from("Unsupported operator combination"))
    );
}

#[test]
fn longer_operand_runs() {
    let mut t = KnownLiterals::new();
    // Every adjacent operand pair gains its multiplication.
    let clean = sanitase(tokenize("2 3 4")).unwrap();
    assert_eq!(
        clean,
        vec![
            num(2),
            Token::Op(OpType::Mul),
            num(3),
            Token::Op(OpType::Mul),
            num(4)
        ]
    );
    assert_eq!(tokenize("2 3 4").parse(&mut t).unwrap(), Rational::new(24, 1));
}

#[test]
fn parentheses_are_lexed_and_skipped() {
    let mut t = KnownLiterals::new();
    assert_eq!(tokenize("("), vec![Token::OpenP]);
    assert_eq!(tokenize("(2 + 3)").parse(&mut t).unwrap(), Rational::new(5, 1));
}

#[test]
fn leading_minus_is_an_operator() {
    // The minus sign always lexes as the subtraction operator, so a negative
    // literal on its own does not parse.
    let mut t = KnownLiterals::new();
    assert_eq!(
        tokenize("-5").parse(&mut t),
        Err(String::from("Number expected."))
    );
}

#[test]
fn display_reparses() {
    // Formatting a reduced fraction and parsing the text again reproduces
    // the value, with and without a denominator.
    let samples = vec![
        Rational::new(7, 1),
        Rational::new(0, 1),
        Rational::new(3, 2),
        Rational::new(22, 7),
        Rational::new(1, 1000),
    ];
    for r in samples {
        let mut t = KnownLiterals::new();
        let shown = r.to_display();
        assert_eq!(tokenize(shown.as_str()).parse(&mut t), Ok(r));
    }
}

#[test]
fn division_by_zero_line() {
    let mut t = KnownLiterals::new();
    let r = tokenize("1 / 0").parse(&mut t).unwrap();
    assert_eq!(r.to_display(), "undefined");
}

#[test]
fn dbg_stream_parses_like_plain() {
    let mut t1 = KnownLiterals::new();
    let mut t2 = KnownLiterals::new();
    let plain = tokenize("1 - 2 / 3").parse(&mut t1).unwrap();
    let echoed = dbg_tokenize("1 - 2 / 3").parse(&mut t2).unwrap();
    assert_eq!(plain, echoed);
}
