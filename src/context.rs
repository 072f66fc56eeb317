//! The whole pipeline: parse, check, lower, optimise, and evaluate.

use vstd::prelude::*;

use crate::ast::Module;
use crate::builder::{
    entry_matches, rule_keys_unique, main_at_most_once, module_arities_agree, module_fits, module_in_table, program_wf, BuildError,
    RuntimeBuilder,
};
use crate::check::{check_module, module_result, TypeError};
use crate::ir::Program;
use crate::optimize::{optimize, reuse_both};
use crate::options::Options;
use crate::parser::{module_ok, parse, SyntaxError};
use crate::target::{emit_c, program_text};
use crate::print::cell_text;
use crate::vm::{count_pushes, fresh, is_run, main_ran, main_ready, step_post, RuntimeError, VM};

verus! {

/// Why a module is not compiled.
pub enum CompileError {
    Syntax(SyntaxError),
    Type(TypeError),
    Build(BuildError),
}

/// `p` is the program of builder `b` after optimisation: the builder's
/// agents, rule map, functions and entry point, and each of its rules
/// rewritten by `reuse_both` with the agents its map entry names.
pub open spec fn built_from(b: RuntimeBuilder, p: Program) -> bool {
    &&& b.functions.entry_point == Some(p.entry_point)
    &&& p.agents@ == b.global.agents@
    &&& p.rule_map@ == b.rules.rule_map@
    &&& p.functions@ == b.functions.functions@
    &&& p.function_meta@ == b.functions.function_meta@
    &&& p.rules@.len() == b.rules.rules@.len()
    &&& forall|i: int|
        0 <= i < p.rules@.len() ==> {
            let (a, c) = reuse_both(
                b.rules.rules@[i].initializers@,
                b.rules.rules@[i].instructions@,
                b.rules.rule_map@[i].0,
                b.rules.rule_map@[i].1,
            );
            &&& (#[trigger] p.rules@[i]).initializers@ == a
            &&& p.rules@[i].instructions@ == c
            &&& p.rules@[i].description == b.rules.rules@[i].description
        }
}

/// The depth to which outputs are printed.
pub const MAX_PRINT_DEPTH: usize = 1000;

/// A compilation: the modules added so far, lowered into one program.
pub struct Context {
    pub builder: RuntimeBuilder,
    pub options: Options,
}

impl Context {
    /// An empty compilation with default options.
    pub fn new() -> (r: Context)
        ensures
            r.builder.wf(),
            r.builder.functions.functions@.len() == 0,
            r.builder.rules.rules@.len() == 0,
    {
        Context { builder: RuntimeBuilder::new(), options: Options::new() }
    }

    /// The same compilation with other options.
    pub fn set_options(self, options: Options) -> (r: Context)
        ensures
            r.builder == self.builder,
            r.options == options,
    {
        Context { builder: self.builder, options }
    }

    /// Parses, checks and lowers one source text into this compilation.
    /// A module that fails a check is not lowered.
    pub fn add_file(self, source: &str) -> (r: Result<Context, CompileError>)
        requires
            self.builder.wf(),
        ensures
            r is Ok ==> r->Ok_0.builder.wf() && r->Ok_0.options == self.options,
            r is Ok ==> exists|m: Module|
                module_ok(m) && module_result(m) is Ok && #[trigger] module_in_table(m, r->Ok_0.builder.global.agents@)
                    && r->Ok_0.builder.rules.rules@.len() == self.builder.rules.rules@.len() + m.rules@.len(),
            match r {
                Err(CompileError::Syntax(e)) => e.position <= source@.len(),
                Err(CompileError::Type(e)) => exists|m: Module|
                    module_ok(m) && #[trigger] module_result(m) == Err::<(), TypeError>(e),
                Err(CompileError::Build(_)) => exists|m: Module|
                    module_ok(m) && #[trigger] module_result(m) is Ok && !(module_fits(self.builder.global.agents@, m)
                        && main_at_most_once(m.nets@) && !(self.builder.functions.entry_point is Some
                        && crate::check::has_main(m.nets@))),
                Ok(_) => true,
            },
    {
        let module = match parse(source) {
            Ok(m) => m,
            Err(e) => return Err(CompileError::Syntax(e)),
        };
        if let Err(e) = check_module(&module) {
            assert(module_ok(module) && module_result(module) == Err::<(), TypeError>(e));
            return Err(CompileError::Type(e));
        }
        let mut ctx = self;
        match ctx.builder.module(&module) {
            Ok(()) => {
                assert(module_ok(module) && module_result(module) is Ok && module_in_table(module, ctx.builder.global.agents@));
                Ok(ctx)
            },
            Err(e) => {
                assert(module_ok(module) && module_result(module) is Ok);
                Err(CompileError::Build(e))
            },
        }
    }

    /// The optimised program of this compilation.
    pub fn build(self) -> (r: Result<Program, CompileError>)
        requires
            self.builder.wf(),
        ensures
            r is Ok ==> program_wf(r->Ok_0),
            self.builder.functions.entry_point is None <==> r is Err,
            r is Ok ==> built_from(self.builder, r->Ok_0),
    {
        match self.builder.build() {
            Ok(mut p) => {
                optimize(&mut p);
                Ok(p)
            },
            Err(e) => Err(CompileError::Build(e)),
        }
    }
}

impl Context {
    /// The optimised program of this compilation as C source.
    pub fn output_c(self) -> (r: Result<String, CompileError>)
        requires
            self.builder.wf(),
        ensures
            self.builder.functions.entry_point is None <==> r is Err,
            r is Ok ==> exists|p: Program| #[trigger] built_from(self.builder, p) && program_wf(p) && r->Ok_0@ == program_text(p, self.options),
    {
        let options = Options { stack_size: self.options.stack_size, trace: self.options.trace, timing: self.options.timing };
        let program = match self.build() {
            Ok(p) => p,
            Err(e) => return Err(e),
        };
        let text = emit_c(&program, &options);
        assert(built_from(self.builder, program) && program_wf(program) && text@ == program_text(program, options));
        Ok(text)
    }
}

/// Compiles one checked module into an optimised program.
pub fn compile(module: &Module) -> (r: Result<Program, CompileError>)
    ensures
        module_result(*module) is Err ==> r is Err,
        module_result(*module) is Ok && main_at_most_once(module.nets@) && module_arities_agree(*module) ==> r is Ok,
        r is Ok ==> rule_keys_unique(r->Ok_0.rule_map@),
        r is Ok ==> program_wf(r->Ok_0),
        r is Ok ==> r->Ok_0.rules@.len() == module.rules@.len(),
{
    if let Err(e) = check_module(module) {
        return Err(CompileError::Type(e));
    }
    match RuntimeBuilder::build_runtime(module) {
        Ok(mut p) => {
            proof {
                crate::check::lemma_no_overlap(module.rules@);
                assert forall|i: int, j: int| 0 <= i < j < p.rule_map@.len() implies !((#[trigger] p.rule_map@[i]).0
                    == (#[trigger] p.rule_map@[j]).0 && p.rule_map@[i].1 == p.rule_map@[j].1) by {
                    assert(entry_matches(p.rule_map@[i], p.agents@, module.rules@[i]));
                    assert(entry_matches(p.rule_map@[j], p.agents@, module.rules@[j]));
                    assert(!crate::check::same_heads(module.rules@[i], module.rules@[j]));
                }
            }
            optimize(&mut p);
            Ok(p)
        },
        Err(e) => Err(CompileError::Build(e)),
    }
}

/// `out` is what evaluating `program` printed: `vn` is the fresh machine,
/// `v0` the machine right after the entry net was built on it, `states` a run of successful reductions
/// from it, `vf` the machine when no equation was left, and each line is
/// the text of an interface cell of `vf` at depth 1000.
pub open spec fn evaluated(program: Program, options: Options, out: Seq<String>, vn: VM, v0: VM, states: Seq<VM>, vf: VM) -> bool {
    &&& fresh(vn, program, options)
    &&& main_ran(vn, v0, Ok(()))
    &&& is_run(states)
    &&& states[0] == v0
    &&& (states.last() == vf || step_post(states.last(), vf, Ok(false)))
    &&& vf.stack@.len() == 0
    &&& out.len() == vf.outputs@.len()
    &&& forall|i: int| 0 <= i < out.len() ==> (#[trigger] out[i])@ == cell_text(vf, vf.outputs@[i], MAX_PRINT_DEPTH as nat)
}

/// Some run of `program` printed `out`.
pub open spec fn evaluates_to(program: Program, options: Options, out: Seq<String>) -> bool {
    exists|vn: VM, v0: VM, states: Seq<VM>, vf: VM| #[trigger] evaluated(program, options, out, vn, v0, states, vf)
}

/// Evaluating `program` fails with `e`: building the entry net fails with
/// it, or some reduction after it does, or reduction is still pending
/// after `max` steps and `e` is `ReductionLimit`.
pub open spec fn evaluation_fails(program: Program, options: Options, max: nat, e: RuntimeError) -> bool {
    exists|vn: VM, v1: VM| #[trigger] fails_from(program, options, max, e, vn, v1)
}

/// `fails_from` with the fresh machine `vn` and the machine `v1` after
/// building the entry net (or after the failure to build it).
pub open spec fn fails_from(program: Program, options: Options, max: nat, e: RuntimeError, vn: VM, v1: VM) -> bool {
    &&& fresh(vn, program, options)
    &&& (main_ran(vn, v1, Err(e)) || (main_ran(vn, v1, Ok(())) && (
        (exists|states: Seq<VM>, vf: VM| #![trigger is_run(states), step_post(states.last(), vf, Err(e))] is_run(states) && states[0] == v1 && step_post(states.last(), vf, Err(e)))
        || (e == RuntimeError::ReductionLimit && exists|states: Seq<VM>|
            #[trigger] is_run(states) && states[0] == v1 && states.len() == max + 1 && states.last().stack@.len() > 0))))
}

/// Runs a program: builds its entry net, reduces for at most
/// `max_reductions` steps, and prints each interface output. Reduction
/// still pending after the bound is a `ReductionLimit` error.
#[verifier::rlimit(50)]
pub fn evaluate(program: Program, options: &Options, max_reductions: u64) -> (r: Result<Vec<String>, RuntimeError>)
    requires
        program_wf(program),
    ensures
        r is Ok ==> r->Ok_0@.len() == program.functions@[program.entry_point as int].outputs@.len(),
        options.stack_size == 0 && count_pushes(program.functions@[program.entry_point as int].instructions@) > 0
            ==> r == Err::<Vec<String>, RuntimeError>(RuntimeError::StackOverflow),
        r is Ok ==> evaluates_to(program, *options, r->Ok_0@),
        r is Err ==> evaluation_fails(program, *options, max_reductions as nat, r->Err_0),
{
    let mut vm = VM::new(program, options);
    let ghost vn = vm;
    let _ = vm.main.initializers.len();
    proof {
        assert(main_ready(vm));
    }
    match vm.execute_main() {
        Ok(()) => {},
        Err(e) => {
            proof {
                assert(fails_from(program, *options, max_reductions as nat, e, vn, vm));
            }
            return Err(e);
        },
    }
    let ghost v0 = vm;
    let ran = vm.run(max_reductions);
    match ran {
        Ok(_) => {},
        Err(e) => {
            proof {
                let states = choose|states: Seq<VM>| #[trigger] is_run(states) && states[0] == v0 && step_post(states.last(), vm, Err(e));
                assert(fails_from(program, *options, max_reductions as nat, e, vn, v0));
            }
            return Err(e);
        },
    }
    if vm.stack.len() > 0 {
        proof {
            let states = choose|states: Seq<VM>|
                #[trigger] is_run(states) && states.len() == ran->Ok_0 + 1 && states[0] == v0 && (ran->Ok_0
                    < max_reductions ==> step_post(states.last(), vm, Ok(false))) && (ran->Ok_0
                    == max_reductions ==> states.last() == vm);
            assert(ran->Ok_0 == max_reductions);
            assert(fails_from(program, *options, max_reductions as nat, RuntimeError::ReductionLimit, vn, v0));
        }
        return Err(RuntimeError::ReductionLimit);
    }
    let ghost states = choose|states: Seq<VM>|
        #[trigger] is_run(states) && states[0] == v0 && (states.last() == vm || step_post(states.last(), vm, Ok(false)));
    let mut out: Vec<String> = Vec::new();
    let mut i: usize = 0;
    while i < vm.outputs.len()
        invariant
            i <= vm.outputs@.len(),
            out@.len() == i,
            forall|k: int| 0 <= k < i ==> (#[trigger] out@[k])@ == cell_text(vm, vm.outputs@[k], MAX_PRINT_DEPTH as nat),
        decreases vm.outputs@.len() - i,
    {
        out.push(vm.print(vm.outputs[i], MAX_PRINT_DEPTH));
        i += 1;
    }
    assert(evaluated(program, *options, out@, vn, v0, states, vm));
    assert(evaluates_to(program, *options, out@));
    Ok(out)
}

} // verus!
