use zamuza::context::compile;
use zamuza::ir::Program;
use zamuza::options::Options;
use zamuza::parser::parse;
use zamuza::vm::{Cell, RuntimeError, VM};

fn program(source: &str) -> Program {
    match compile(&parse(source).expect("parses")) {
        Ok(p) => p,
        Err(_) => panic!("compiles"),
    }
}

#[test]
fn default_options() {
    let o = Options::default();
    assert_eq!(o.stack_size, 1024);
    assert!(!o.trace);
    assert!(!o.timing);
}

#[test]
fn step_binds_a_name_to_an_agent() {
    let mut vm = VM::new(program("Main <| @r |> #r = O"), &Options::new());
    vm.execute_main().expect("builds the net");
    assert_eq!(vm.stack.len(), 1);
    let (l, r) = vm.stack[0];
    assert!(matches!(vm.heap[l], Cell::Name { uid: 1 }));
    assert!(matches!(vm.step(), Ok(true)));
    assert_eq!(vm.heap[l], Cell::Indirection { target: r });
    assert!(matches!(vm.step(), Ok(false)));
    assert_eq!(vm.print(vm.outputs[0], 1000), "O");
}

#[test]
fn step_releases_indirections() {
    let mut vm = VM::new(program("Main <| @r |> #r = O"), &Options::new());
    vm.execute_main().expect("builds the net");
    let (l, r) = vm.stack[0];
    vm.step().expect("binds");
    vm.push_equation(l, r).expect("room on the stack");
    assert!(matches!(vm.step(), Ok(true)));
    assert_eq!(vm.heap[l], Cell::Free);
    assert_eq!(vm.stack, vec![(r, r)]);
}

#[test]
fn push_respects_the_bound() {
    let mut options = Options::new();
    options.stack_size = 1;
    let mut vm = VM::new(program("Main <| |> _"), &options);
    assert!(vm.push_equation(0, 0).is_ok());
    assert!(matches!(vm.push_equation(0, 0), Err(RuntimeError::StackOverflow)));
    assert_eq!(vm.stack.len(), 1);
}

#[test]
fn slots_are_bounds_checked() {
    let mut vm = VM::new(program("A(#x) >< B => #x = B\nMain <| |> A(B) = B"), &Options::new());
    let a = vm.new_agent(zamuza::ir::AgentId(1)).expect("A exists");
    assert!(matches!(vm.read_slot(a, 1), Err(RuntimeError::SlotNotFound)));
    assert!(vm.write_slot(a, 1, a).is_ok());
    assert_eq!(vm.read_slot(a, 1).expect("set"), a);
    assert!(vm.write_slot(a, 2, a).is_err());
    assert!(vm.read_slot(a + 1, 1).is_err());
    assert!(vm.new_agent(zamuza::ir::AgentId(99)).is_err());
}

#[test]
fn rules_are_found_in_canonical_order() {
    let vm = VM::new(program("A >< B => _\nMain <| |> _"), &Options::new());
    assert_eq!(vm.find_rule(1, 2), Some(0));
    assert_eq!(vm.find_rule(2, 1), None);
}

#[test]
fn printing_bounds_depth() {
    let mut vm = VM::new(program("Main <| @r |> #r = S(S(S(O)))"), &Options::new());
    vm.execute_main().expect("builds the net");
    while vm.step().expect("reduces") {}
    assert_eq!(vm.print(vm.outputs[0], 1000), "S(S(S(O)))");
    assert_eq!(vm.print(vm.outputs[0], 2), "S(S(...))");
    assert_eq!(vm.print(vm.outputs[0], 0), "...");
}

#[test]
fn compiled_rule_keys_are_distinct() {
    let p = program(
        "S(#x) >< A(#y, #w) => #x = A(#y, @z), #w = S(#z)\nO >< A(#y, @w) => #y = @w\nMain <| @r |> O = A(O, #r)",
    );
    assert_eq!(p.rule_map.len(), 2);
    assert!(p.rule_map[0].0 != p.rule_map[1].0 || p.rule_map[0].1 != p.rule_map[1].1);
}

#[test]
fn entry_net_with_zero_bound_overflows_first() {
    let mut options = Options::new();
    options.stack_size = 0;
    let mut vm = VM::new(program("Main <| @r |> #r = O"), &options);
    assert!(matches!(vm.execute_main(), Err(RuntimeError::StackOverflow)));
}

#[test]
fn run_counts_reductions() {
    let mut vm = VM::new(program("Main <| @r |> #r = O"), &Options::new());
    vm.execute_main().expect("builds the net");
    assert!(matches!(vm.run(10), Ok(1)));
    assert!(matches!(vm.run(10), Ok(0)));
}
