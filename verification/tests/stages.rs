//! Unit tests of the lexer and parser stages.
use atscript::ast::{LexType, Type, Value};
use atscript::lexer::tokenizer;
use atscript::parser::{parse, ParseError};
use atscript::tokens::{compare_token_type, Token, TokenType};

fn chars(s: &str) -> Vec<char> {
    s.chars().collect()
}

fn kinds(tokens: &[Token]) -> Vec<TokenType> {
    tokens.iter().map(|t| t.token_type).collect()
}

#[test]
fn tokenizes_variable_declaration() {
    let toks = tokenizer(&chars("@ x[int=5];"));
    assert_eq!(
        kinds(&toks),
        vec![
            TokenType::TokenIdentifier,
            TokenType::TokenVarName,
            TokenType::TokenVarOptionKey,
            TokenType::TokenVarOptionValue,
            TokenType::TokenNone,
        ]
    );
    assert_eq!(toks[1].value, chars("x"));
    assert_eq!(toks[2].value, chars("int"));
    assert_eq!(toks[3].value, chars("5"));
}

#[test]
fn tokenizes_function_declaration() {
    let toks = tokenizer(&chars("@ /greet name@string # /say \"hi @name*\"; #\n"));
    assert_eq!(
        kinds(&toks),
        vec![
            TokenType::TokenIdentifier,
            TokenType::TokenFunStart,
            TokenType::TokenFunName,
            TokenType::TokenFunArgKey,
            TokenType::TokenFunArgValue,
            TokenType::TokenScopeStart,
            TokenType::TokenFunCall,
            TokenType::TokenFunCallArg,
            TokenType::TokenNone,
            TokenType::TokenScopeEnd,
        ]
    );
    assert_eq!(toks[2].value, chars("greet"));
    assert_eq!(toks[3].value, chars("name"));
    assert_eq!(toks[4].value, chars("string"));
    assert_eq!(toks[6].value, chars("/say"));
    assert_eq!(toks[7].value, chars("hi @name*"));
}

#[test]
fn tokenizes_comma_separated_options() {
    let toks = tokenizer(&chars("@ x[int=5,max=9];"));
    assert_eq!(
        kinds(&toks),
        vec![
            TokenType::TokenIdentifier,
            TokenType::TokenVarName,
            TokenType::TokenVarOptionKey,
            TokenType::TokenVarOptionValue,
            TokenType::TokenVarOptionSep,
            TokenType::TokenVarOptionKey,
            TokenType::TokenVarOptionValue,
            TokenType::TokenNone,
        ]
    );
}

#[test]
fn compare_token_type_checks_last_token() {
    let toks = tokenizer(&chars("@ x[int=5];"));
    assert!(compare_token_type(&toks, TokenType::TokenNone));
    assert!(!compare_token_type(&toks, TokenType::TokenVarName));
    let empty: Vec<Token> = Vec::new();
    assert!(!compare_token_type(&empty, TokenType::TokenNone));
}

#[test]
fn literal_inference_for_call_arguments() {
    let toks = tokenizer(&chars("/f 3 3.5 true \"hi\";"));
    let nodes = parse(&toks).expect("parse");
    assert_eq!(
        nodes,
        vec![LexType::FunctionCall(
            chars("f"),
            vec![
                Value::Int(3),
                Value::Float(chars("3.5")),
                Value::Bool(true),
                Value::Str(chars("hi")),
            ],
        )]
    );
}

#[test]
fn parses_variable_declaration() {
    let toks = tokenizer(&chars("@ x[int=5];"));
    let nodes = parse(&toks).expect("parse");
    assert_eq!(
        nodes,
        vec![LexType::Variable(chars("x"), Type::Int, Value::Int(5))]
    );
}

#[test]
fn parses_float_declaration_canonically() {
    let toks = tokenizer(&chars("@ f[float=3.50];"));
    let nodes = parse(&toks).expect("parse");
    assert_eq!(
        nodes,
        vec![LexType::Variable(chars("f"), Type::Float, Value::Float(chars("3.5")))]
    );
}

#[test]
fn parses_bool_declaration_with_loose_text() {
    let toks = tokenizer(&chars("@ b[bool=yes];"));
    let nodes = parse(&toks).expect("parse");
    assert_eq!(
        nodes,
        vec![LexType::Variable(chars("b"), Type::Bool, Value::Bool(false))]
    );
}

#[test]
fn parses_function_declaration() {
    let toks = tokenizer(&chars("@ /greet name@string # /say \"hi @name*\"; #\n"));
    let nodes = parse(&toks).expect("parse");
    match &nodes[0] {
        LexType::Function(name, params, body) => {
            assert_eq!(name, &chars("greet"));
            assert_eq!(params.len(), 1);
            assert_eq!(params[0].name, chars("name"));
            assert_eq!(params[0].argtype, Type::Str);
            assert_eq!(
                body,
                &vec![LexType::FunctionCall(
                    chars("say"),
                    vec![Value::Str(chars("hi @name*"))],
                )]
            );
        },
        other => panic!("expected a function declaration, got {:?}", other),
    }
}

#[test]
fn unknown_type_name_is_fatal() {
    let toks = tokenizer(&chars("@ x[wat=1];"));
    assert_eq!(parse(&toks), Err(ParseError::UnknownType));
}

#[test]
fn bad_int_literal_is_fatal() {
    let toks = tokenizer(&chars("@ x[int=zz];"));
    assert_eq!(parse(&toks), Err(ParseError::BadIntLiteral));
}

#[test]
fn bad_float_literal_is_fatal() {
    let toks = tokenizer(&chars("@ x[float=a];"));
    assert_eq!(parse(&toks), Err(ParseError::BadFloatLiteral));
}

#[test]
fn unmatched_text_is_silently_skipped() {
    let toks = tokenizer(&chars("nonsense here\n"));
    assert!(toks.is_empty());
    let nodes = parse(&toks).expect("parse");
    assert!(nodes.is_empty());
}

#[test]
fn integer_overflow_falls_back_to_float_inference() {
    let toks = tokenizer(&chars("/f 99999999999999999999;"));
    let nodes = parse(&toks).expect("parse");
    assert_eq!(
        nodes,
        vec![LexType::FunctionCall(
            chars("f"),
            vec![Value::Float(chars("99999999999999999999"))],
        )]
    );
}
