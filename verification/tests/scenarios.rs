//! End-to-end runs of whole source texts through the interpreter.
use atscript::interpret;
use atscript::ProgramError;
use atscript::eval::RunError;

fn chars(s: &str) -> Vec<char> {
    s.chars().collect()
}

fn run_source(src: &str) -> (Vec<String>, Option<ProgramError>) {
    let input = chars(src);
    let (lines, err) = interpret(&input, 10_000);
    let lines = lines
        .into_iter()
        .map(|l| l.into_iter().collect::<String>())
        .collect::<Vec<String>>();
    (lines, err)
}

#[test]
fn interpolation_round_trip() {
    let (lines, err) = run_source("@ x[int=5];\n/say \"val is @x*\";\n");
    assert!(err.is_none());
    assert_eq!(lines, vec!["val is 5".to_string()]);
}

#[test]
fn end_to_end_greet() {
    let (lines, err) = run_source("@ /greet name@string # /say \"hi @name*\"; #\n/greet \"Ann\";\n");
    assert!(err.is_none());
    assert_eq!(lines, vec!["hi Ann".to_string()]);
}

#[test]
fn missing_function_aborts_before_later_statements() {
    let (lines, err) = run_source("/missingFn;\n@ y[int=1];\n/say \"@y*\";\n");
    assert!(lines.is_empty());
    match err {
        Some(ProgramError::Run(RunError::FunctionNotFound(n))) => {
            assert_eq!(n, chars("missingFn"));
        },
        other => panic!("expected a function-not-found fault, got {:?}", other),
    }
}

#[test]
fn redeclared_variable_keeps_last_value() {
    let (lines, err) = run_source("@ x[int=1];@ x[int=2];/say \"@x*\";\n");
    assert!(err.is_none());
    assert_eq!(lines, vec!["2".to_string()]);
}

#[test]
fn caller_variable_not_visible_in_body() {
    let (lines, err) = run_source("@ x[int=1];@ /f a@int # /say \"@x*\"; #\n/f 1;\n");
    assert!(lines.is_empty());
    match err {
        Some(ProgramError::Run(RunError::VariableNotFound(n))) => {
            assert_eq!(n, chars("x"));
        },
        other => panic!("expected a variable-not-found fault, got {:?}", other),
    }
}

#[test]
fn body_variable_not_visible_after_return() {
    let (lines, err) = run_source("@ /f a@int # @ y[int=9]; #\n/f 1;\n/say \"@y*\";\n");
    assert!(lines.is_empty());
    match err {
        Some(ProgramError::Run(RunError::VariableNotFound(n))) => {
            assert_eq!(n, chars("y"));
        },
        other => panic!("expected a variable-not-found fault, got {:?}", other),
    }
}

#[test]
fn extra_parameters_stay_unbound() {
    let (lines, err) = run_source("@ /f a@int b@int # /say \"@b*\"; #\n/f 7;\n");
    assert!(lines.is_empty());
    match err {
        Some(ProgramError::Run(RunError::VariableNotFound(n))) => {
            assert_eq!(n, chars("b"));
        },
        other => panic!("expected a variable-not-found fault, got {:?}", other),
    }
}

#[test]
fn bound_prefix_is_usable() {
    let (lines, err) = run_source("@ /f a@int b@int # /say \"@a*\"; #\n/f 7;\n");
    assert!(err.is_none());
    assert_eq!(lines, vec!["7".to_string()]);
}

#[test]
fn extra_arguments_are_ignored() {
    let (lines, err) = run_source("@ /f a@int # /say \"@a*\"; #\n/f 1 2 3;\n");
    assert!(err.is_none());
    assert_eq!(lines, vec!["1".to_string()]);
}

#[test]
fn call_before_declaration_fails() {
    let (lines, err) = run_source("/g;\n@ /g  # /say \"hi\"; #\n");
    assert!(lines.is_empty());
    match err {
        Some(ProgramError::Run(RunError::FunctionNotFound(n))) => {
            assert_eq!(n, chars("g"));
        },
        other => panic!("expected a function-not-found fault, got {:?}", other),
    }
}

#[test]
fn two_calls_print_in_order() {
    let (lines, err) = run_source("@ /f a@int # /say \"n is @a*\"; #\n/f 1;\n/f 2;\n");
    assert!(err.is_none());
    assert_eq!(lines, vec!["n is 1".to_string(), "n is 2".to_string()]);
}

#[test]
fn say_with_non_string_argument_fails() {
    let (lines, err) = run_source("/say 3;\n");
    assert!(lines.is_empty());
    assert!(matches!(err, Some(ProgramError::Run(RunError::SayNotString))));
}

#[test]
fn say_without_argument_fails() {
    let (lines, err) = run_source("/say;\n");
    assert!(lines.is_empty());
    assert!(matches!(err, Some(ProgramError::Run(RunError::SayArgMissing))));
}

#[test]
fn float_and_bool_interpolate_canonically() {
    let (lines, err) = run_source("@ b[bool=true];@ f[float=2.50];/say \"@b* @f*\";\n");
    assert!(err.is_none());
    assert_eq!(lines, vec!["true 2.5".to_string()]);
}

#[test]
fn unbounded_recursion_runs_out_of_fuel() {
    let input = chars("@ /r  # /r; #\n/r;\n");
    let (lines, err) = interpret(&input, 5);
    assert!(lines.is_empty());
    assert!(matches!(err, Some(ProgramError::Run(RunError::OutOfFuel))));
}

#[test]
fn close_marker_before_open_marker_fails() {
    let (lines, err) = run_source("/say \"*@\";\n");
    assert!(lines.is_empty());
    assert!(matches!(
        err,
        Some(ProgramError::Run(RunError::MalformedInterpolation))
    ));
}

#[test]
fn negative_integer_interpolates() {
    let (lines, err) = run_source("@ x[int=-45];/say \"@x*\";\n");
    assert!(err.is_none());
    assert_eq!(lines, vec!["-45".to_string()]);
}

#[test]
fn bare_word_argument_is_a_string() {
    let (lines, err) = run_source("/say hi;\n");
    assert!(err.is_none());
    assert_eq!(lines, vec!["hi".to_string()]);
}

#[test]
fn string_variable_interpolates() {
    let (lines, err) = run_source("@ s[string=hello];/say \"@s*\";\n");
    assert!(err.is_none());
    assert_eq!(lines, vec!["hello".to_string()]);
}

#[test]
fn builtin_say_cannot_be_shadowed() {
    let (lines, err) = run_source("@ /say a@string # #\n/say \"x\";\n");
    assert!(err.is_none());
    assert_eq!(lines, vec!["x".to_string()]);
}

#[test]
fn markers_may_be_indented() {
    let (lines, err) = run_source("   @ x[int=3];\n /say \"@x*\";\n");
    assert!(err.is_none());
    assert_eq!(lines, vec!["3".to_string()]);
}

#[test]
fn callee_sees_functions_declared_before_call() {
    let (lines, err) = run_source(
        "@ /inner a@int # /say \"in @a*\"; #\n@ /outer b@int # /inner 8; #\n/outer 1;\n",
    );
    assert!(err.is_none());
    assert_eq!(lines, vec!["in 8".to_string()]);
}
