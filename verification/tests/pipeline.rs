use radix_script::ast::Node;
use radix_script::base_literal::{BaseLiteral, NumError};
use radix_script::builtin::{builtins, Builtin, Effect};
use radix_script::evaluator::{evaluate, run_source, EvalError, RunError};
use radix_script::parser::{ParseError, Parser};
use radix_script::token::TokenType;
use radix_script::tokenizer::{tokenize, LexError};

fn run(source: &str) -> Vec<Effect> {
    let outcome = run_source(source, Vec::new()).unwrap();
    assert_eq!(outcome.error, None);
    outcome.effects
}

fn prints(effects: &[Effect]) -> String {
    let mut out = String::new();
    for e in effects {
        match e {
            Effect::Print(s) => out.push_str(s),
            Effect::Sleep(_) => panic!("unexpected pause"),
        }
    }
    out
}

#[test]
fn base_literal_lexes_as_one_token() {
    let toks = tokenize("b16@ff").unwrap();
    assert_eq!(toks.len(), 2);
    assert_eq!(toks[0].ttype, TokenType::BaseLiteral);
    assert_eq!(toks[0].value.as_deref(), Some("16@ff"));
    assert_eq!(toks[0].pos, 0);
    assert_eq!(toks[1].ttype, TokenType::Eof);
    // The token decodes to 255, and 255 encodes back to the same spelling.
    assert_eq!(BaseLiteral::new(16, "ff").unwrap().to_int().unwrap(), 255);
    assert_eq!(BaseLiteral::from_int(16, 255).unwrap().display(), "b16@ff");
}

#[test]
fn lexer_token_kinds() {
    let toks = tokenize("x = 5 + y\nfn ret if else while loop break continue # note\n").unwrap();
    let kinds: Vec<TokenType> = toks.iter().map(|t| t.ttype).collect();
    assert_eq!(
        kinds,
        vec![
            TokenType::Identifier,
            TokenType::Assign,
            TokenType::Number,
            TokenType::Plus,
            TokenType::Identifier,
            TokenType::Newline,
            TokenType::Function,
            TokenType::Return,
            TokenType::If,
            TokenType::Else,
            TokenType::While,
            TokenType::Loop,
            TokenType::Break,
            TokenType::Continue,
            TokenType::Newline,
            TokenType::Eof,
        ]
    );
}

#[test]
fn lexer_b_run_without_at_is_identifier() {
    let toks = tokenize("b16 bob b2x").unwrap();
    let kinds: Vec<TokenType> = toks.iter().map(|t| t.ttype).collect();
    assert_eq!(
        kinds,
        vec![
            TokenType::Identifier,
            TokenType::Identifier,
            TokenType::Identifier,
            TokenType::Eof,
        ]
    );
    assert_eq!(toks[0].value.as_deref(), Some("b16"));
}

#[test]
fn lexer_rejects_radix_outside_range() {
    assert_eq!(
        tokenize("b99@ff").unwrap_err(),
        LexError::InvalidBase { pos: 0 }
    );
    assert_eq!(
        tokenize("x = b1@0").unwrap_err(),
        LexError::InvalidBase { pos: 4 }
    );
    assert_eq!(tokenize("b@0").unwrap_err(), LexError::InvalidBase { pos: 0 });
}

#[test]
fn lexer_text_escapes() {
    let toks = tokenize("\"a\\n\\t\\\"\\\\\\q\"").unwrap();
    assert_eq!(toks[0].ttype, TokenType::Text);
    assert_eq!(toks[0].value.as_deref(), Some("a\n\t\"\\q"));
}

#[test]
fn lexer_unterminated_text_runs_to_end() {
    let toks = tokenize("\"abc").unwrap();
    assert_eq!(toks[0].ttype, TokenType::Text);
    assert_eq!(toks[0].value.as_deref(), Some("abc"));
    assert_eq!(toks[1].ttype, TokenType::Eof);
}

#[test]
fn lexer_skips_unknown_characters() {
    let toks = tokenize("1 $ 2 %").unwrap();
    let kinds: Vec<TokenType> = toks.iter().map(|t| t.ttype).collect();
    assert_eq!(
        kinds,
        vec![TokenType::Number, TokenType::Number, TokenType::Eof]
    );
}

#[test]
fn trailing_operator_is_unexpected_token_at_end_of_input() {
    let toks = tokenize("1 +").unwrap();
    let mut p = Parser::new(toks);
    let err = p.parse().unwrap_err();
    assert_eq!(
        err,
        ParseError::UnexpectedToken {
            found: TokenType::Eof,
            pos: 3,
        }
    );
}

#[test]
fn stray_closing_paren_is_unexpected() {
    let toks = tokenize(") 1").unwrap();
    let mut p = Parser::new(toks);
    let err = p.parse().unwrap_err();
    assert_eq!(
        err,
        ParseError::UnexpectedToken {
            found: TokenType::RParen,
            pos: 0,
        }
    );
}

#[test]
fn sum_program_prints_eight() {
    let effects = run("x = 5; y = 3; out(x + y)");
    assert_eq!(effects, vec![Effect::Print("8".to_string())]);
}

#[test]
fn text_program_prints_verbatim() {
    let outcome = run_source("out(\"hi\\n\")", Vec::new()).unwrap();
    assert_eq!(outcome.error, None);
    assert_eq!(outcome.effects, vec![Effect::Print("hi\n".to_string())]);
}

#[test]
fn base_literal_round_trips_through_a_program() {
    let effects = run("a = b16@ff; out(a)");
    assert_eq!(effects, vec![Effect::Print("b16@ff".to_string())]);
}

#[test]
fn unknown_builtin_is_silently_nothing() {
    let outcome = run_source("foo(1)", Vec::new()).unwrap();
    assert_eq!(outcome.error, None);
    assert_eq!(outcome.effects, Vec::new());
}

#[test]
fn unknown_builtin_does_not_evaluate_its_arguments() {
    // The argument would print if it were evaluated.
    let outcome = run_source("foo(\"boom\")", Vec::new()).unwrap();
    assert_eq!(outcome.error, None);
    assert_eq!(outcome.effects, Vec::new());
}

#[test]
fn precedence_and_associativity() {
    assert_eq!(prints(&run("out(2 + 3 * 4)")), "14");
    assert_eq!(prints(&run("out(10 - 3 - 2)")), "5");
    assert_eq!(prints(&run("out((2 + 3) * 4)")), "20");
    assert_eq!(prints(&run("out(7 / 2)")), "3");
}

#[test]
fn division_by_zero_stops_the_run() {
    let outcome = run_source("out(1); out(5 / 0)", Vec::new()).unwrap();
    assert_eq!(outcome.error, Some(EvalError::Num(NumError::DivisionByZero)));
    // The first statement's output stands.
    assert_eq!(outcome.effects, vec![Effect::Print("1".to_string())]);
}

#[test]
fn underflow_stops_the_run() {
    let outcome = run_source("out(3 - 5)", Vec::new()).unwrap();
    assert_eq!(outcome.error, Some(EvalError::Num(NumError::Underflow)));
}

#[test]
fn undefined_variable_yields_nothing() {
    // `out` with a valueless argument prints nothing at all.
    let outcome = run_source("out(nope)", Vec::new()).unwrap();
    assert_eq!(outcome.error, None);
    assert_eq!(outcome.effects, Vec::new());
}

#[test]
fn valueless_assignment_is_a_no_op() {
    let outcome = run_source("x = foo(1); out(x)", Vec::new()).unwrap();
    assert_eq!(outcome.error, None);
    assert_eq!(outcome.effects, Vec::new());
}

#[test]
fn arithmetic_on_missing_value_is_fatal() {
    let outcome = run_source("out(1 + nope)", Vec::new()).unwrap();
    assert_eq!(outcome.error, Some(EvalError::MissingOperand));
}

#[test]
fn comments_and_separators() {
    let effects = run("# leading note\nx = 2 # trailing\nout(x)");
    assert_eq!(effects, vec![Effect::Print("2".to_string())]);
}

#[test]
fn mixed_base_program() {
    let effects = run("out(b16@ff + b2@10)");
    assert_eq!(effects, vec![Effect::Print("b16@101".to_string())]);
}

#[test]
fn wait_records_a_pause() {
    let effects = run("out(\"a\"); wait(2); out(\"b\")");
    assert_eq!(
        effects,
        vec![
            Effect::Print("a".to_string()),
            Effect::Sleep(2),
            Effect::Print("b".to_string()),
        ]
    );
}

#[test]
fn input_is_trimmed_and_read_as_decimal() {
    let outcome = run_source(
        "x = in(); out(x + 1)",
        vec!["  41 ".to_string()],
    )
    .unwrap();
    assert_eq!(outcome.error, None);
    assert_eq!(outcome.effects, vec![Effect::Print("42".to_string())]);
}

#[test]
fn exhausted_input_reads_as_empty() {
    // An empty digit string is a valid radix-10 numeral of value zero, and
    // displays as the empty string.
    let outcome = run_source("x = in(); out(x + 0)", Vec::new()).unwrap();
    assert_eq!(outcome.error, None);
    assert_eq!(outcome.effects, vec![Effect::Print("0".to_string())]);
}

#[test]
fn bad_input_line_is_fatal() {
    let outcome = run_source("x = in()", vec!["forty".to_string()]).unwrap();
    assert_eq!(outcome.error, Some(EvalError::Num(NumError::InvalidDigit)));
}

#[test]
fn lex_failure_surfaces_from_run_source() {
    let err = run_source("out(b77@0)", Vec::new()).unwrap_err();
    assert_eq!(err, RunError::Lex(LexError::InvalidBase { pos: 4 }));
}

#[test]
fn parse_failure_surfaces_from_run_source() {
    let err = run_source("out(", Vec::new()).unwrap_err();
    assert_eq!(
        err,
        RunError::Parse(ParseError::UnexpectedToken {
            found: TokenType::Eof,
            pos: 4,
        })
    );
}

#[test]
fn registry_holds_the_three_builtins() {
    let regs = builtins();
    assert_eq!(regs.len(), 3);
    assert_eq!(regs[0].0, "out");
    assert_eq!(regs[0].1, Builtin::Out);
    assert_eq!(regs[1].0, "in");
    assert_eq!(regs[1].1, Builtin::In);
    assert_eq!(regs[2].0, "wait");
    assert_eq!(regs[2].1, Builtin::Wait);
}

#[test]
fn return_node_yields_its_inner_value() {
    // The grammar never produces `ret`, but the evaluator handles the node:
    // at top level it behaves as the inner expression.
    let five = BaseLiteral::new(10, "5").unwrap();
    let nodes = vec![Node::Call {
        name: "out".to_string(),
        args: vec![Node::Return(Box::new(Node::BaseLiteral(five)))],
    }];
    let outcome = evaluate(&nodes, Vec::new());
    assert_eq!(outcome.error, None);
    assert_eq!(outcome.effects, vec![Effect::Print("5".to_string())]);
}

#[test]
fn non_arithmetic_operator_yields_nothing() {
    let one = BaseLiteral::new(10, "1").unwrap();
    let two = BaseLiteral::new(10, "2").unwrap();
    let nodes = vec![Node::Call {
        name: "out".to_string(),
        args: vec![Node::BinOp {
            op: TokenType::LessThan,
            left: Box::new(Node::BaseLiteral(one)),
            right: Box::new(Node::BaseLiteral(two)),
        }],
    }];
    let outcome = evaluate(&nodes, Vec::new());
    assert_eq!(outcome.error, None);
    assert_eq!(outcome.effects, Vec::new());
}

#[test]
fn text_statement_prints_directly() {
    let effects = run("\"plain text\"");
    assert_eq!(effects, vec![Effect::Print("plain text".to_string())]);
}

#[test]
fn uppercase_digits_fold_in_source_literals() {
    // Base 40 admits `A` as a digit in source, and construction folds it,
    // so the literal's digit string comes out lower-case.
    let effects = run("out(b40@A)");
    assert_eq!(effects, vec![Effect::Print("b40@a".to_string())]);
}

#[test]
fn uppercase_digits_outside_window_end_the_literal() {
    // In base 16 the scanner's window is the first sixteen alphabet
    // characters, so `F` does not extend the literal's body: `b16@FF`
    // scans as an empty-bodied literal followed by an identifier.
    let toks = tokenize("b16@FF").unwrap();
    let kinds: Vec<TokenType> = toks.iter().map(|t| t.ttype).collect();
    assert_eq!(
        kinds,
        vec![TokenType::BaseLiteral, TokenType::Identifier, TokenType::Eof]
    );
    assert_eq!(toks[0].value.as_deref(), Some("16@"));
    assert_eq!(toks[1].value.as_deref(), Some("FF"));
}

#[test]
fn empty_source_is_a_quiet_run() {
    let toks = tokenize("").unwrap();
    assert_eq!(toks.len(), 1);
    assert_eq!(toks[0].ttype, TokenType::Eof);
    assert_eq!(toks[0].pos, 0);
    let outcome = run_source("", Vec::new()).unwrap();
    assert_eq!(outcome.error, None);
    assert_eq!(outcome.effects, Vec::new());
}

#[test]
fn newlines_separate_statements() {
    let effects = run("x = 5\ny = 3\nout(x * y)");
    assert_eq!(effects, vec![Effect::Print("15".to_string())]);
}

#[test]
fn call_with_several_arguments_prints_only_the_first() {
    let effects = run("out(1, 2, 3)");
    assert_eq!(effects, vec![Effect::Print("1".to_string())]);
}

#[test]
fn reassignment_overwrites() {
    let effects = run("x = 1; x = x + 1; out(x)");
    assert_eq!(effects, vec![Effect::Print("2".to_string())]);
}
