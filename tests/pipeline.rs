use zamuza::builder::BuildError;
use zamuza::check::{check_module, TypeError};
use zamuza::context::{compile, evaluate, CompileError, Context};
use zamuza::options::Options;
use zamuza::parser::parse;
use zamuza::vm::RuntimeError;

const ADDITION: &str = "
S(#x) >< A(#y, #w) => #x = A(#y, @z), #w = S(#z)
O >< A(#y, @w) => #y = @w
";

const MULTIPLICATION: &str = "
/* multiplication */
S(#x) >< M(#y, #w) => #x = M(#u, @z), #z = A(@v, #w), #y = D(@u, #v)
O >< M(#y, #w) => #y = E, #w = O
/* duplication */
O >< D(#a, #b) => #a = O, #b = O
S(#x) >< D(#a, #b) => #a = S(@c), #b = S(@d), #x = D(#c, #d)
/* erasure */
O >< E => _
S(#x) >< E => #x = E
";

fn run_source(source: &str, options: &Options) -> Result<Vec<String>, RuntimeError> {
    let module = parse(source).expect("parses");
    let program = match compile(&module) {
        Ok(p) => p,
        Err(_) => panic!("does not compile"),
    };
    evaluate(program, options, 1_000_000)
}

fn check_source(source: &str) -> Result<(), TypeError> {
    check_module(&parse(source).expect("parses"))
}

#[test]
fn peano_addition() {
    let src = format!("{}\nMain <| @r |> S(S(O)) = A(S(S(O)), #r)\n", ADDITION);
    let out = run_source(&src, &Options::new()).expect("reduces");
    assert_eq!(out, vec!["S(S(S(S(O))))".to_string()]);
}

#[test]
fn peano_multiplication() {
    let src = format!("{}{}\nMain <| @r |> S(S(O)) = M(S(S(O)), #r)\n", ADDITION, MULTIPLICATION);
    let out = run_source(&src, &Options::new()).expect("reduces");
    assert_eq!(out, vec!["S(S(S(S(O))))".to_string()]);
}

#[test]
fn multiplication_by_zero() {
    let src = format!("{}{}\nMain <| @r |> O = M(S(S(O)), #r)\n", ADDITION, MULTIPLICATION);
    let out = run_source(&src, &Options::new()).expect("reduces");
    assert_eq!(out, vec!["O".to_string()]);
}

#[test]
fn linearity_rejection() {
    let r = check_source("F(#x, #x) >< G => _\nMain <| |> _");
    match r {
        Err(TypeError::NonLinearRule { name }) => assert_eq!(name.as_name(), "x"),
        _ => panic!("expected NonLinearRule"),
    }
}

#[test]
fn overlap_rejection() {
    let r = check_source("A >< B => _\nA >< B => _\nMain <| |> _");
    assert!(matches!(r, Err(TypeError::OverlappingRules(1, 0))));
}

#[test]
fn overlap_rejection_unordered() {
    let r = check_source("A >< B => _\nB >< A => _\nMain <| |> _");
    assert!(matches!(r, Err(TypeError::OverlappingRules(1, 0))));
}

#[test]
fn missing_main() {
    let r = check_source("A >< B => _");
    assert!(matches!(r, Err(TypeError::NoMainFunction)));
}

#[test]
fn polarity_rejection() {
    let r = check_source("Main <| #x |> @x = O");
    match r {
        Err(TypeError::MisdirectedOutput { name }) => assert_eq!(name.as_name(), "x"),
        _ => panic!("expected MisdirectedOutput"),
    }
}

#[test]
fn misdirected_input() {
    let r = check_source("Main <| @x |> O = #x");
    assert!(matches!(r, Err(TypeError::MisdirectedInput { .. })));
}

#[test]
fn variable_count_error() {
    let r = check_source("Main <| #x |> _");
    match r {
        Err(TypeError::VariableCountError { name, count }) => {
            assert_eq!(name.as_name(), "x");
            assert_eq!(count, 1);
        }
        _ => panic!("expected VariableCountError"),
    }
}

#[test]
fn variable_count_in_rule() {
    let r = check_source("A(#x) >< B => #y = O\nMain <| |> _");
    match r {
        Err(TypeError::VariableCountError { name, count }) => {
            assert_eq!(name.as_name(), "x");
            assert_eq!(count, 1);
        }
        _ => panic!("expected VariableCountError"),
    }
}

#[test]
fn multiple_times_as_input() {
    let r = check_source("Main <| #x |> A(#x) = O");
    assert!(matches!(r, Err(TypeError::MultipleTimesAsInput { .. })));
}

#[test]
fn multiple_times_as_output() {
    let r = check_source("Main <| @x |> O = A(@x)");
    assert!(matches!(r, Err(TypeError::MultipleTimesAsOutput { .. })));
}

#[test]
fn rule_heads_fix_reversed_roles() {
    assert!(check_source("A(#x) >< B(@y) => #x = @y\nMain <| |> _").is_ok());
    let r = check_source("A(@x) >< B(@y) => #x = @y\nMain <| |> _");
    assert!(matches!(r, Err(TypeError::MultipleTimesAsInput { .. })));
}

#[test]
fn stack_size_zero_overflows() {
    let mut options = Options::new();
    options.stack_size = 0;
    let src = format!("{}\nMain <| @r |> S(O) = A(O, #r)\n", ADDITION);
    assert!(matches!(run_source(&src, &options), Err(RuntimeError::StackOverflow)));
}

#[test]
fn stack_size_one_suffices_for_small_net() {
    let mut options = Options::new();
    options.stack_size = 1;
    let src = format!("{}\nMain <| @r |> O = A(O, #r)\n", ADDITION);
    assert_eq!(run_source(&src, &options).expect("reduces"), vec!["O".to_string()]);
}

#[test]
fn missing_rule_is_reported() {
    let src = "A >< B => _\nMain <| |> A = C";
    match run_source(src, &Options::new()) {
        Err(RuntimeError::RuleNotFound { left, right }) => assert!(left.0 <= right.0),
        _ => panic!("expected RuleNotFound"),
    }
}

#[test]
fn unbound_names_print_with_identifier() {
    let out = run_source("Main <| #a, @a |> _", &Options::new()).expect("reduces");
    assert_eq!(out, vec!["x1".to_string(), "x1".to_string()]);
}

#[test]
fn empty_rule_body_reduces() {
    let out = run_source("A >< B => _\nMain <| |> A = B", &Options::new()).expect("reduces");
    assert!(out.is_empty());
}

#[test]
fn self_interaction_reduces() {
    let src = "A(#x) >< A(@y) => #x = @y\nMain <| @p, #q |> A(#p) = A(@q)";
    let out = run_source(src, &Options::new()).expect("reduces");
    assert_eq!(out.len(), 2);
    assert_eq!(out[0], out[1]);
}

#[test]
fn reduction_limit_is_reported() {
    let src = format!("{}\nMain <| @r |> S(S(O)) = A(S(S(O)), #r)\n", ADDITION);
    let module = parse(&src).expect("parses");
    let program = match compile(&module) {
        Ok(p) => p,
        Err(_) => panic!("does not compile"),
    };
    assert!(matches!(evaluate(program, &Options::new(), 2), Err(RuntimeError::ReductionLimit)));
}

#[test]
fn context_compiles_and_rejects() {
    let ctx = Context::new();
    let src = format!("{}\nMain <| @r |> O = A(O, #r)\n", ADDITION);
    let ctx = match ctx.add_file(&src) {
        Ok(c) => c,
        Err(_) => panic!("module compiles"),
    };
    let program = match ctx.build() {
        Ok(p) => p,
        Err(_) => panic!("builds"),
    };
    assert_eq!(evaluate(program, &Options::new(), 1000).expect("reduces"), vec!["O".to_string()]);
    assert!(matches!(Context::new().add_file("A >< "), Err(CompileError::Syntax(_))));
    assert!(matches!(Context::new().add_file("A >< B => _"), Err(CompileError::Type(TypeError::NoMainFunction))));
}

#[test]
fn arity_conflict_across_files() {
    let ctx = match Context::new().add_file("A(#x) >< B => #x = O\nMain <| |> _") {
        Ok(c) => c,
        Err(_) => panic!("first file compiles"),
    };
    match ctx.add_file("A >< C => _\nMain <| |> _") {
        Err(CompileError::Build(BuildError::AgentArityConflict { name, expected, given })) => {
            assert_eq!(name, "A");
            assert_eq!(expected, 1);
            assert_eq!(given, 0);
        }
        _ => panic!("expected an arity conflict"),
    }
}

#[test]
fn duplicate_main_is_rejected() {
    let ctx = match Context::new().add_file("Main <| |> _") {
        Ok(c) => c,
        Err(_) => panic!("first file compiles"),
    };
    assert!(matches!(ctx.add_file("Main <| |> _"), Err(CompileError::Build(BuildError::DuplicateMain))));
}
