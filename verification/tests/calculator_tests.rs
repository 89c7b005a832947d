use parser_generator::calculator::parse;
use parser_generator::calculator::Token;
use parser_generator::calculator::Tokenizer;
use parser_generator::generate_dot_format;

#[test]
fn invalid_tokens() {
    let e = parse("7### asdas zxzx".to_string());
    assert!(e.is_err())
}

#[test]
fn invalid_expr() {
    let e = parse("9 + + 4 - 5 * * 6".to_string());
    assert!(e.is_err())
}

#[test]
fn num() {
    let (_, res) = parse("4".to_string()).unwrap();
    assert_eq!(4, res)
}

#[test]
fn sum() {
    let (_, res) = parse("9 + 4".to_string()).unwrap();
    assert_eq!(9 + 4, res);
}

#[test]
fn sub() {
    let (_, res) = parse("9 - 4".to_string()).unwrap();
    assert_eq!(9 - 4, res);
}

#[test]
fn mul() {
    let (_, res) = parse("9 * 4".to_string()).unwrap();
    assert_eq!(9 * 4, res);
}

#[test]
fn div() {
    let (_, res) = parse("9 / 4".to_string()).unwrap();
    assert_eq!(9 / 4, res);
}

#[test]
fn neg() {
    let (_, res) = parse("- (9 + 4)".to_string()).unwrap();
    assert_eq!(-(9 + 4), res);
}

#[test]
fn main_complex_expression() {
    let (_, res) = parse("4 * 3 - 5 / 3 * 6 - (10 - (-(10 - 1))) + 4".to_string()).unwrap();
    assert_eq!(4 * 3 - 5 / 3 * 6 - (10 - (-(10 - 1))) + 4, res)
}

#[test]
fn lexical_error_position() {
    let e = parse("7### asdas zxzx".to_string()).unwrap_err();
    assert_eq!(1, e.position);
    assert_eq!("Expected token", e.message);
}

#[test]
fn division_by_zero_is_reported() {
    let e = parse("4 / (2 - 2)".to_string()).unwrap_err();
    assert_eq!("Division by zero", e.message);
}

#[test]
fn combination_operator() {
    let (_, res) = parse("4 $ 2".to_string()).unwrap();
    assert_eq!(6, res);
}

#[test]
fn repeated_runs_identical() {
    let (t1, v1) = parse("4 * (2 - 7)".to_string()).unwrap();
    let (t2, v2) = parse("4 * (2 - 7)".to_string()).unwrap();
    assert_eq!(v1, v2);
    assert_eq!(generate_dot_format(&t1), generate_dot_format(&t2));
}

#[test]
fn tokenizer_keeps_lexemes() {
    let toks = Tokenizer::tokenize("12 + (34)".to_string()).unwrap();
    assert_eq!(6, toks.len());
    match &toks[0] {
        Token::Num(s) => assert_eq!("12", s),
        t => panic!("unexpected token {t:?}"),
    }
    match &toks[1] {
        Token::Plus(s) => assert_eq!("+", s),
        t => panic!("unexpected token {t:?}"),
    }
    match &toks[2] {
        Token::Lb(s) => assert_eq!("(", s),
        t => panic!("unexpected token {t:?}"),
    }
    match &toks[3] {
        Token::Num(s) => assert_eq!("34", s),
        t => panic!("unexpected token {t:?}"),
    }
    match &toks[4] {
        Token::Rb(s) => assert_eq!(")", s),
        t => panic!("unexpected token {t:?}"),
    }
    assert!(matches!(toks[5], Token::Eof));
}

#[test]
fn parse_tree_ids_are_preorder() {
    // The DOT serialization lists nodes in preorder; node ids are the
    // consecutive counter values starting at 0.
    let (tree, _) = parse("4".to_string()).unwrap();
    let dot = generate_dot_format(&tree);
    let expected = "digraph ParseTree {\n    0[shape=circle, label=S]\n    1[shape=circle, label=C]\n    2[shape=circle, label=E]\n    3[shape=circle, label=T]\n    4[shape=circle, label=F]\n    5[shape=circle, label=P]\n    6[shape=box, label=Num]\n    7[shape=circle, label=Tx]\n    8[shape=circle, label=Ex]\n    9[shape=circle, label=Cx]\n";
    assert!(dot.starts_with(expected), "{dot}");
}
