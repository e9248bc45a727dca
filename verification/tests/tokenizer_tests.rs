use calc_core::op::OpType;
use calc_core::rational::Rational;
use calc_core::tokenizer::_tokenize;
use calc_core::tokenizer::dbg_tokenize;
use calc_core::tokenizer::DbgDisplay;
use calc_core::tokenizer::parse_decimal;
use calc_core::tokenizer::pre_tokenize;
use calc_core::tokenizer::split;
use calc_core::tokenizer::tokenize;
use calc_core::tokenizer::Token;
use calc_core::tokenizer::TokenizerOptions;

#[test]
fn test_split() {
    assert_eq!(split("a b"), vec!["a".to_string(), "b".to_string()]);
    assert_eq!(split("a/b"), vec!["a".to_string(), "/".to_string(), "b".to_string()]);
    assert_eq!(split("a*b"), vec!["a".to_string(), "*".to_string(), "b".to_string()]);
    assert_eq!(split("a/ b"), vec!["a".to_string(), "/".to_string(), "b".to_string()]);
    assert_eq!(
        split("a/ b*/////"),
        vec![
            "a".to_string(),
            "/".to_string(),
            "b".to_string(),
            "*".to_string(),
            "/".to_string(),
            "/".to_string(),
            "/".to_string(),
            "/".to_string(),
            "/".to_string()
        ]
    );
    assert_eq!(split("log a b"), vec!["log".to_string(), "a".to_string(), "b".to_string()]);
    assert_eq!(
        split("sqrt a ^ b"),
        vec!["sqrt".to_string(), "a".to_string(), "^".to_string(), "b".to_string()]
    );
}

#[test]
fn tokenizer_test_split() {
    assert_eq!(split("a b"), vec!["a".to_string(), "b".to_string()]);
    assert_eq!(split("a/b"), vec!["a".to_string(), "/".to_string(), "b".to_string()]);
    assert_eq!(split("a*b"), vec!["a".to_string(), "*".to_string(), "b".to_string()]);
    assert_eq!(split("a/ b"), vec!["a".to_string(), "/".to_string(), "b".to_string()]);
    assert_eq!(
        split("a/ b*/////"),
        vec![
            "a".to_string(),
            "/".to_string(),
            "b".to_string(),
            "*".to_string(),
            "/".to_string(),
            "/".to_string(),
            "/".to_string(),
            "/".to_string(),
            "/".to_string()
        ]
    );
    assert_eq!(split("log a b"), vec!["log".to_string(), "a".to_string(), "b".to_string()]);
    assert_eq!(
        split("sqrt a ^ b"),
        vec!["sqrt".to_string(), "a".to_string(), "^".to_string(), "b".to_string()]
    );
}

#[test]
fn test_priv_tokenize() {
    assert_eq!(_tokenize("*"), Token::Op(OpType::Mul));
    assert_eq!(_tokenize("/"), Token::Op(OpType::Div));
    assert_eq!(_tokenize("+"), Token::Op(OpType::Add));
    assert_eq!(_tokenize("-"), Token::Op(OpType::Sub));
    assert_eq!(_tokenize("^"), Token::Op(OpType::Pow));
    assert_eq!(_tokenize("sqrt"), Token::Op(OpType::Root));
    assert_eq!(_tokenize("log"), Token::Op(OpType::Log));
    assert_eq!(_tokenize("123"), Token::Number(Rational::new(123, 1)));
    assert_eq!(_tokenize("123.0"), Token::Number(Rational::new(123, 1)));
    assert_eq!(_tokenize(".01"), Token::Number(Rational::new(1, 100)));
}

#[test]
fn test_tokenize() {
    assert_eq!(
        tokenize("1/123"),
        vec![
            Token::Number(Rational::new(1, 1)),
            Token::Op(OpType::Div),
            Token::Number(Rational::new(123, 1))
        ]
    );
    assert_eq!(
        tokenize("1 123"),
        vec![Token::Number(Rational::new(1, 1)), Token::Number(Rational::new(123, 1))]
    );
    assert_eq!(
        tokenize("1*123"),
        vec![
            Token::Number(Rational::new(1, 1)),
            Token::Op(OpType::Mul),
            Token::Number(Rational::new(123, 1))
        ]
    );
    assert_eq!(
        tokenize("1*123/321"),
        vec![
            Token::Number(Rational::new(1, 1)),
            Token::Op(OpType::Mul),
            Token::Number(Rational::new(123, 1)),
            Token::Op(OpType::Div),
            Token::Number(Rational::new(321, 1))
        ]
    );
    assert_eq!(
        tokenize("a 1*123"),
        vec![
            Token::Literal(String::from("a")),
            Token::Number(Rational::new(1, 1)),
            Token::Op(OpType::Mul),
            Token::Number(Rational::new(123, 1))
        ]
    );
}

#[test]
fn tokenize_more_forms() {
    assert_eq!(_tokenize("%"), Token::Op(OpType::Mod));
    assert_eq!(_tokenize("rt"), Token::Op(OpType::Root));
    assert_eq!(_tokenize("root"), Token::Op(OpType::Root));
    assert_eq!(_tokenize("lg"), Token::Op(OpType::Log));
    assert_eq!(_tokenize("("), Token::OpenP);
    assert_eq!(_tokenize(")"), Token::CloseP);
    assert_eq!(_tokenize("="), Token::Eq);
    assert_eq!(_tokenize("SQRT"), Token::Op(OpType::Root));
    assert_eq!(_tokenize("Log"), Token::Op(OpType::Log));
    assert_eq!(_tokenize("abc"), Token::Literal(String::from("abc")));
    assert_eq!(_tokenize("1e5"), Token::Literal(String::from("1e5")));
    assert_eq!(_tokenize("1.2.3"), Token::Literal(String::from("1.2.3")));
    assert_eq!(_tokenize("."), Token::Literal(String::from(".")));
}

#[test]
fn decimal_literals() {
    // The denominator is an exact power of ten before reduction.
    assert_eq!(parse_decimal("3.4"), Some((34, 10)));
    assert_eq!(parse_decimal("0.125"), Some((125, 1000)));
    assert_eq!(parse_decimal(".01"), Some((1, 100)));
    assert_eq!(parse_decimal("17"), Some((17, 1)));
    assert_eq!(parse_decimal("2."), Some((2, 1)));
    assert_eq!(parse_decimal("x"), None);
    assert_eq!(parse_decimal(""), None);
    // Reduction then gives the exact fraction the literal denotes.
    assert_eq!(_tokenize("3.4"), Token::Number(Rational::new(17, 5)));
    assert_eq!(_tokenize("0.125"), Token::Number(Rational::new(1, 8)));
}

#[test]
fn pre_tokenize_options() {
    let (rest, opts) = pre_tokenize("1 + 2");
    assert_eq!(rest, "1 + 2");
    assert_eq!(opts, TokenizerOptions { debug: false, as_float: false });
    let (rest, opts) = pre_tokenize("d#1 + 2");
    assert_eq!(rest, "1 + 2");
    assert_eq!(opts, TokenizerOptions { debug: true, as_float: false });
    let (rest, opts) = pre_tokenize("fd#x");
    assert_eq!(rest, "x");
    assert_eq!(opts, TokenizerOptions { debug: true, as_float: true });
    let (rest, opts) = pre_tokenize("zq#y");
    assert_eq!(rest, "y");
    assert_eq!(opts, TokenizerOptions { debug: false, as_float: false });
    let (rest, _) = pre_tokenize("#");
    assert_eq!(rest, "");
}

#[test]
fn dbg_tokenize_pairs() {
    let pairs = dbg_tokenize("1*2");
    assert_eq!(pairs.len(), 3);
    assert_eq!(pairs[0].0, "1");
    assert_eq!(pairs[0].1, Token::Number(Rational::new(1, 1)));
    assert_eq!(pairs[1].0, "*");
    assert_eq!(pairs[1].1, Token::Op(OpType::Mul));
    assert_eq!(pairs[2].0, "2");
    assert_eq!(pairs[2].1, Token::Number(Rational::new(2, 1)));
}

#[test]
fn dbg_display_streams() {
    let toks = tokenize("1*2");
    assert_eq!(toks.dbg(), "Number(1)\r\nOp(Mul)\r\nNumber(2)\r");
    let pairs = dbg_tokenize("x 2");
    assert_eq!(pairs.dbg(), "x Literal(\"x\")\r\n2 Number(2)\r");
}
