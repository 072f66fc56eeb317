use zamuza::builder::{BuildError, GlobalBuilder, RuntimeBuilder};
use zamuza::context::Context;
use zamuza::options::Options;
use zamuza::target::emit_c;
use zamuza::ir::{AgentId, Local, NetInitializer, NetInstruction, Program, RuleInitializer, RuleInstruction};
use zamuza::optimize::optimize;
use zamuza::parser::{parse, tokenize, Token};
use zamuza::print::push_decimal;

fn build(source: &str) -> Program {
    let module = parse(source).expect("parses");
    match RuntimeBuilder::build_runtime(&module) {
        Ok(p) => p,
        Err(_) => panic!("builds"),
    }
}

const ADD_RULE: &str = "S(#x) >< A(#y, #w) => #x = A(#y, @z), #w = S(#z)\nMain <| |> _";

#[test]
fn indirection_agent_is_first() {
    let g = GlobalBuilder::new();
    assert_eq!(g.agents.len(), 1);
    assert_eq!(g.agents[0].name, "$");
    assert_eq!(g.agents[0].arity, 1);
}

#[test]
fn interning_is_stable_and_checks_arity() {
    let mut g = GlobalBuilder::new();
    let a = g.add_or_get_agent(&"A".to_string(), 2);
    assert!(matches!(a, Ok(AgentId(1))));
    let b = g.add_or_get_agent(&"B".to_string(), 0);
    assert!(matches!(b, Ok(AgentId(2))));
    assert!(matches!(g.add_or_get_agent(&"A".to_string(), 2), Ok(AgentId(1))));
    match g.add_or_get_agent(&"A".to_string(), 1) {
        Err(BuildError::AgentArityConflict { name, expected, given }) => {
            assert_eq!(name, "A");
            assert_eq!(expected, 2);
            assert_eq!(given, 1);
        }
        _ => panic!("expected an arity conflict"),
    }
    assert_eq!(g.agents.len(), 3);
}

#[test]
fn rule_endpoints_are_canonical() {
    let p = build("A >< C => _\nB(#x) >< A => #x = O\nMain <| |> _");
    assert_eq!(p.rule_map.len(), 2);
    assert_eq!(p.rule_map[1], (AgentId(1), AgentId(3), 1));
    assert_eq!(p.rules[1].index, 1);
    assert_eq!(p.rules[1].initializers[0], RuleInitializer::SlotFromRight { index: 0, slot: 1 });
    for (l, r, i) in &p.rule_map {
        assert!(l.0 <= r.0);
        assert_eq!(p.rules[*i].index, *i);
    }
}

#[test]
fn self_interaction_is_canonical() {
    let p = build("A(#x) >< A(@y) => #x = @y\nMain <| |> _");
    assert_eq!(p.rule_map[0], (AgentId(1), AgentId(1), 0));
    assert_eq!(p.rules[0].initializers[0], RuleInitializer::SlotFromLeft { index: 0, slot: 1 });
    assert_eq!(p.rules[0].initializers[1], RuleInitializer::SlotFromRight { index: 1, slot: 1 });
}

#[test]
fn empty_rule_body_only_frees() {
    let mut p = build("A >< B => _\nMain <| |> _");
    assert!(p.rules[0].initializers.is_empty());
    assert_eq!(p.rules[0].instructions.len(), 2);
    assert!(matches!(p.rules[0].instructions[0], RuleInstruction::FreeLeft));
    assert!(matches!(p.rules[0].instructions[1], RuleInstruction::FreeRight));
    optimize(&mut p);
    assert!(p.rules[0].initializers.is_empty());
    assert_eq!(p.rules[0].instructions.len(), 2);
}

#[test]
fn zero_arity_agents_get_no_slots() {
    let p = build("O >< A(#y, @w) => #y = @w\nMain <| @r |> S(S(O)) = A(S(O), #r)");
    let f = &p.functions[p.entry_point];
    for instr in &f.instructions {
        if let NetInstruction::SetSlot { target: Local::Agent(i), slot, .. } = instr {
            let id = f
                .initializers
                .iter()
                .find_map(|init| match init {
                    NetInitializer::Agent { index, id } if index == i => Some(*id),
                    _ => None,
                })
                .expect("agent register is initialized");
            assert!(*slot >= 1 && *slot <= p.agents[id.0].arity);
            assert!(p.agents[id.0].arity > 0);
        }
    }
}

#[test]
fn lowering_allocates_then_fills_slots() {
    let p = build(ADD_RULE);
    let r = &p.rules[0];
    assert_eq!(
        r.initializers,
        vec![
            RuleInitializer::SlotFromLeft { index: 0, slot: 1 },
            RuleInitializer::SlotFromRight { index: 1, slot: 1 },
            RuleInitializer::SlotFromRight { index: 2, slot: 2 },
            RuleInitializer::Name { index: 0 },
            RuleInitializer::Agent { index: 0, id: AgentId(2) },
            RuleInitializer::Agent { index: 1, id: AgentId(1) },
        ]
    );
    assert_eq!(r.instructions.len(), 7);
    match &r.instructions[2] {
        RuleInstruction::PushEquation { left, right, description } => {
            assert_eq!(*left, Local::Slot(0));
            assert_eq!(*right, Local::Agent(0));
            assert_eq!(description, "#x = A(#y, @z)");
        }
        _ => panic!("expected a push"),
    }
    assert_eq!(r.description, "S(#x) >< A(#y, #w)");
}

#[test]
fn optimiser_reuses_both_endpoints() {
    let mut p = build(ADD_RULE);
    optimize(&mut p);
    let r = &p.rules[0];
    assert_eq!(
        r.initializers,
        vec![
            RuleInitializer::SlotFromLeft { index: 0, slot: 1 },
            RuleInitializer::SlotFromRight { index: 1, slot: 1 },
            RuleInitializer::SlotFromRight { index: 2, slot: 2 },
            RuleInitializer::Name { index: 0 },
            RuleInitializer::ReuseLeft { index: 1 },
            RuleInitializer::ReuseRight { index: 0 },
        ]
    );
    assert_eq!(r.instructions.len(), 5);
    assert!(r
        .instructions
        .iter()
        .all(|i| !matches!(i, RuleInstruction::FreeLeft | RuleInstruction::FreeRight)));
}

#[test]
fn outputs_follow_interfaces() {
    let p = build("Main <| #a, @a, O |> _\nOther <| |> _");
    assert_eq!(p.functions.len(), 2);
    assert_eq!(p.entry_point, 0);
    assert_eq!(p.functions[0].outputs, vec![Local::Name(0), Local::Name(0), Local::Agent(0)]);
    assert_eq!(p.function_meta[0].name, "Main");
    assert_eq!(p.function_meta[0].output_count, 3);
    assert_eq!(p.function_meta[1].name, "Other");
}

#[test]
fn missing_entry_point() {
    let module = parse("Other <| |> _").expect("parses");
    assert!(matches!(RuntimeBuilder::build_runtime(&module), Err(BuildError::NoEntryPoint)));
}

#[test]
fn syntax_errors_have_positions() {
    let e = parse("A >< ").err().expect("fails");
    assert_eq!(e.position, 5);
    let e = parse("A $ B").err().expect("fails");
    assert_eq!(e.position, 2);
    let e = parse("/* open").err().expect("fails");
    assert_eq!(e.position, 0);
}

#[test]
fn tokens_skip_comments_and_read_names() {
    let toks = tokenize("/* c */ #ab <| _").expect("lexes");
    assert_eq!(toks.len(), 3);
    assert!(matches!(&toks[0].0, Token::In(s) if s == "ab"));
    assert_eq!(toks[0].1, 8);
    assert!(matches!(toks[1].0, Token::NetOpen));
    assert!(matches!(toks[2].0, Token::Underscore));
}

#[test]
fn reversed_arrows_swap_sides() {
    let m = parse("B << A(#x) => O <- #x\nMain <| |> _").expect("parses");
    assert_eq!(m.rules[0].left.agent, "A");
    assert_eq!(m.rules[0].right.agent, "B");
    assert!(matches!(&m.rules[0].equations[0].left, zamuza::ast::Term::Name(_)));
}

#[test]
fn decimal_digits() {
    let mut s = String::from("x");
    push_decimal(1204, &mut s);
    assert_eq!(s, "x1204");
    let mut z = String::new();
    push_decimal(0, &mut z);
    assert_eq!(z, "0");
}

#[test]
fn c_output_has_rules_dispatch_and_entry() {
    let p = build(ADD_RULE);
    let mut options = Options::new();
    options.stack_size = 64;
    let c = emit_c(&p, &options);
    assert!(c.starts_with("#include <stdio.h>\n#include <stdlib.h>\n#define MAX_STACK_SIZE 64\n"));
    assert!(c.contains("#define AGENT_COUNT 3\nconst char* AGENTS[] = { \"$\", \"S\", \"A\" };\nconst size_t ARITY[] = { 1, 1, 2 };\n"));
    assert!(c.contains("\n// S(#x) >< A(#y, #w)\nvoid rule_0(size_t* left, size_t* right) {\n    size_t* s0 = (size_t*) left[1];\n"));
    assert!(c.contains("    push_equation(s0, a0); // #x = A(#y, @z)\n"));
    assert!(c.contains("    RULES[1][2] = rule_0;\n"));
    assert!(c.contains("size_t** outputs = func_0();"));
    assert!(!c.contains("ZZ_TRACE\n#define"));
    options.trace = true;
    options.timing = true;
    let c = emit_c(&p, &options);
    assert!(c.starts_with("#include <stdio.h>\n#include <stdlib.h>\n#include <time.h>\n#define ZZ_TIMING\n#define ZZ_TRACE\n"));
    let ctx = Context::new().add_file(ADD_RULE).ok().expect("compiles");
    let text = ctx.output_c().ok().expect("renders");
    assert!(text.contains("    size_t* a1 = left;\n"));
    assert!(text.contains("    size_t* a0 = right;\n"));
}
