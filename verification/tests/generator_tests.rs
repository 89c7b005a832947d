use parser_generator::generate_parser_from_string;
use parser_generator::GenError;

fn small_grammar() -> String {
    "Prelude { use foo::bar; }\nSkip { \" \" ; }\nTokens { A -> \"a\"; B -> \"b\" }\nNotTerminals { S {} {} -> A B | B }\n".to_string()
}

#[test]
fn pipeline_emits_parser_for_valid_grammar() {
    let out = generate_parser_from_string(small_grammar()).unwrap();
    assert!(out.contains("use foo::bar;"));
    assert!(out.contains("pub enum Token {"));
    assert!(out.contains("A(String),"));
    assert!(out.contains("B(String),"));
    assert!(out.contains("Eof,"));
    assert!(out.contains("static ref A_regex: Regex = Regex::new(\"a\").unwrap();"));
    assert!(out.contains("static ref SKIP_REGEX: Vec<Regex> = vec!(Regex::new(\" \").unwrap(),);"));
    assert!(out.contains("fn match_token(&mut self) -> Option<Token>"));
    assert!(out.contains("fn S(&mut self,) -> Result<(GraphVizNode, ()),ParseError>"));
    assert!(out.contains("Token::A(_)=> {"));
    assert!(out.contains("let (child, (A0_ident)) = self.A()?;"));
    assert!(out.contains("pub fn parse(input:String,) -> Result<(GraphVizNode, ()),ParseError>"));
}

#[test]
fn pipeline_splices_commands_and_attributes() {
    let grammar = "Prelude {}\nSkip {}\nTokens { A -> \"a\" }\nNotTerminals { S { x # i64 } { y # i64 } -> A { y = x; } }\n".to_string();
    let out = generate_parser_from_string(grammar).unwrap();
    assert!(out.contains("fn S(&mut self,x:i64,) -> Result<(GraphVizNode, (i64)),ParseError>"));
    assert!(out.contains("let mut y:i64;"));
    assert!(out.contains(" y = x; "));
    assert!(out.contains("pub fn parse(input:String,x:i64,)"));
}

#[test]
fn malformed_description_is_a_meta_parse_error() {
    let e = generate_parser_from_string("garbage".to_string()).unwrap_err();
    assert!(matches!(e, GenError::MetaParse(_)));
}

#[test]
fn missing_start_symbol_is_reported() {
    let grammar = "Prelude {}\nSkip {}\nTokens { A -> \"a\" }\nNotTerminals { T {} {} -> A }\n".to_string();
    let e = generate_parser_from_string(grammar).unwrap_err();
    assert!(matches!(e, GenError::MissingStart));
}

#[test]
fn reserved_terminal_is_reported() {
    let grammar = "Prelude {}\nSkip {}\nTokens { Eof -> \"e\" }\nNotTerminals { S {} {} -> Eof }\n".to_string();
    let e = generate_parser_from_string(grammar).unwrap_err();
    assert!(matches!(e, GenError::ReservedTerminal));
}

#[test]
fn undefined_symbol_is_reported_with_its_name() {
    let grammar = "Prelude {}\nSkip {}\nTokens { A -> \"a\" }\nNotTerminals { S {} {} -> C }\n".to_string();
    let e = generate_parser_from_string(grammar).unwrap_err();
    match e {
        GenError::UndefinedSymbol { name } => assert_eq!("C", name),
        other => panic!("unexpected error {other:?}"),
    }
}

#[test]
fn non_ll1_grammar_is_rejected_with_the_pair() {
    let grammar = "Prelude {}\nSkip {}\nTokens { A -> \"a\" }\nNotTerminals { S {} {} -> A | A }\n".to_string();
    let e = generate_parser_from_string(grammar).unwrap_err();
    match e {
        GenError::NotLL1 { nonterminal, alternatives } => {
            assert_eq!("S", nonterminal);
            assert_eq!((0, 1), alternatives);
        },
        other => panic!("unexpected error {other:?}"),
    }
}

#[test]
fn pipeline_is_deterministic() {
    let a = generate_parser_from_string(small_grammar()).unwrap();
    let b = generate_parser_from_string(small_grammar()).unwrap();
    assert_eq!(a, b);
}
