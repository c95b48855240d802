use lambda::{parse_program, tokenize, Bindings, Instruction, TokenType};

fn kinds(text: &str) -> Vec<TokenType> {
    tokenize(text).into_iter().map(|t| t.token_type).collect()
}

#[test]
fn tokenize_statement() {
    let toks = tokenize("let id = \\x.x");
    let types: Vec<TokenType> = toks.iter().map(|t| t.token_type.clone()).collect();
    assert_eq!(types.len(), 7);
    assert!(matches!(types[0], TokenType::Let));
    assert!(matches!(types[1], TokenType::Identifier(ref n) if n == "id"));
    assert!(matches!(types[2], TokenType::Equals));
    assert!(matches!(types[3], TokenType::Lambda));
    assert!(matches!(types[4], TokenType::Identifier(ref n) if n == "x"));
    assert!(matches!(types[5], TokenType::Dot));
    assert!(matches!(types[6], TokenType::Identifier(ref n) if n == "x"));
}

#[test]
fn tokenize_spans() {
    let toks = tokenize("eval  abc");
    assert_eq!(toks.len(), 2);
    assert_eq!(toks[0].span, (0, 4));
    assert_eq!(toks[1].span, (6, 9));
}

#[test]
fn tokenize_skips_comments_and_unknown_characters() {
    let toks = kinds("a // comment . ( let\nb @ c");
    assert_eq!(toks.len(), 4);
    assert!(matches!(toks[0], TokenType::Identifier(ref n) if n == "a"));
    assert!(matches!(toks[1], TokenType::NewLine));
    assert!(matches!(toks[2], TokenType::Identifier(ref n) if n == "b"));
    assert!(matches!(toks[3], TokenType::Identifier(ref n) if n == "c"));
}

#[test]
fn keywords_need_word_boundaries() {
    let toks = kinds("letx eval1 let eval");
    assert_eq!(toks.len(), 4);
    assert!(matches!(toks[0], TokenType::Identifier(ref n) if n == "letx"));
    assert!(matches!(toks[1], TokenType::Identifier(ref n) if n == "eval1"));
    assert!(matches!(toks[2], TokenType::Let));
    assert!(matches!(toks[3], TokenType::Eval));
}

#[test]
fn describe_token_types() {
    assert_eq!(TokenType::Dot.describe(), "dot (.)");
    assert_eq!(TokenType::Lambda.describe(), "lambda (\\)");
    assert_eq!(
        TokenType::Identifier("abc".to_string()).describe(),
        "identifier (abc)"
    );
    assert_eq!(TokenType::NewLine.describe(), "newline");
}

#[test]
fn parse_let_and_eval() {
    let toks = kinds("let id = \\x.x\neval (id b)");
    let instructions = parse_program(&toks).expect("program should parse");
    assert_eq!(instructions.len(), 2);
    assert!(matches!(
        instructions[0],
        Instruction::Let { ref name, .. } if name == "id"
    ));
    assert!(matches!(instructions[1], Instruction::Eval(_)));
}

#[test]
fn parse_empty_program() {
    let toks = kinds("\n\n");
    let instructions = parse_program(&toks).expect("blank program should parse");
    assert_eq!(instructions.len(), 0);
}

#[test]
fn parse_error_positions() {
    // A bare `eval` stops one past the keyword.
    let toks = kinds("eval");
    let err = parse_program(&toks).expect_err("missing term must fail");
    assert_eq!(err.position, 1);

    // A stray closing parenthesis fails at its own position.
    let toks = kinds(")");
    let err = parse_program(&toks).expect_err("stray token must fail");
    assert_eq!(err.position, 0);

    // `let x x` fails where the equals sign was expected.
    let toks = kinds("let x x");
    let err = parse_program(&toks).expect_err("missing equals must fail");
    assert_eq!(err.position, 2);

    // Two statements must be separated by a newline.
    let toks = kinds("eval a eval b");
    let err = parse_program(&toks).expect_err("missing separator must fail");
    assert_eq!(err.position, 2);
}

#[test]
fn end_to_end_source_to_normal_form() {
    let text = "let id = \\x.x\n// apply the identity\neval (id b)";
    let toks = kinds(text);
    let instructions = parse_program(&toks).expect("program should parse");
    let mut env = Bindings::new();
    let mut outputs: Vec<String> = Vec::new();
    for instruction in instructions {
        if let Some(text) = instruction.process(&mut env) {
            outputs.push(text);
        }
    }
    assert_eq!(outputs, vec!["b".to_string()]);
}
