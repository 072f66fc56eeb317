//! Rendering of a program as a self-contained C translation unit.

use vstd::prelude::*;
use vstd::string::StringExecFns;

use crate::ir::{AgentId, AgentMeta, Function, Local, NetInitializer, NetInstruction, Program, Rule, RuleInitializer, RuleInstruction};
use crate::options::Options;
use crate::print::{decimal, push_decimal};

verus! {

/// The C runtime: cells are `size_t` arrays whose slot 0 is an agent id,
/// a name identifier at or above `AGENT_COUNT`, or 0 for an indirection.
pub const RUNTIME: &'static str = "
#ifdef ZZ_TIMING
size_t REDUCTIONS = 0;
#endif

typedef void (*RuleFun)(size_t* left, size_t* right);

size_t* EQ_STACK[MAX_STACK_SIZE + 1][2];
size_t EQ_STACK_SIZE = 0;
size_t NAME_COUNTER = AGENT_COUNT;
RuleFun RULES[AGENT_COUNT][AGENT_COUNT] = { 0 };

#define IS_NAME(term) ((term)[0] >= AGENT_COUNT)
#define IS_AGENT(term) ((term)[0] > 0 && (term)[0] < AGENT_COUNT)

size_t* new_agent(size_t agent_id) {
    size_t* agent = malloc(sizeof(size_t) * (ARITY[agent_id] + 1));
    if (!agent) { fprintf(stderr, \"error: out of memory\\n\"); exit(1); }
    agent[0] = agent_id;
    return agent;
}

size_t* new_name(void) {
    size_t* name = malloc(sizeof(size_t) * 2);
    if (!name) { fprintf(stderr, \"error: out of memory\\n\"); exit(1); }
    name[0] = NAME_COUNTER++;
    name[1] = 0;
    return name;
}

void push_equation(size_t* left, size_t* right) {
    if (EQ_STACK_SIZE >= MAX_STACK_SIZE) {
        fprintf(stderr, \"error: stack overflow\\n\");
        fprintf(stderr, \"hint: try to increase the stack size with `--stack-size`\\n\");
        exit(1);
    }
    EQ_STACK[EQ_STACK_SIZE][0] = left;
    EQ_STACK[EQ_STACK_SIZE][1] = right;
    EQ_STACK_SIZE++;
}

void print_term(FILE* f, size_t* term, size_t max_recursion) {
    if (max_recursion == 0) { fprintf(f, \"...\"); return; }
    while (term[0] == 0) term = (size_t*) term[1];
    if (IS_NAME(term)) { fprintf(f, \"x%zu\", term[0] - AGENT_COUNT + 1); return; }
    size_t arity = ARITY[term[0]];
    fprintf(f, \"%s\", AGENTS[term[0]]);
    if (arity == 0) return;
    fprintf(f, \"(\");
    for (size_t i = 1; i <= arity; i++) {
        print_term(f, (size_t*) term[i], max_recursion - 1);
        if (i != arity) fprintf(f, \", \");
    }
    fprintf(f, \")\");
}

void free_term(size_t* term) {
    while (term[0] == 0) { size_t* next = (size_t*) term[1]; free(term); term = next; }
    if (IS_AGENT(term)) {
        for (size_t i = 1; i <= ARITY[term[0]]; i++) free_term((size_t*) term[i]);
    }
    free(term);
}

void init_rules(void);

void run(void) {
    size_t *left, *right;
    init_rules();
    while (EQ_STACK_SIZE) {
        EQ_STACK_SIZE--;
        left = EQ_STACK[EQ_STACK_SIZE][0];
        right = EQ_STACK[EQ_STACK_SIZE][1];
#ifdef ZZ_TIMING
        REDUCTIONS++;
#endif
#ifdef ZZ_TRACE
        print_term(stderr, left, 3);
        fprintf(stderr, \" = \");
        print_term(stderr, right, 3);
        fprintf(stderr, \"\\n\");
#endif
        if (left[0] == 0) { push_equation((size_t*) left[1], right); free(left); continue; }
        if (right[0] == 0) { push_equation(left, (size_t*) right[1]); free(right); continue; }
        if (IS_AGENT(left) && IS_AGENT(right)) {
            if (left[0] > right[0]) { size_t* t = left; left = right; right = t; }
            if (!RULES[left[0]][right[0]]) {
                fprintf(stderr, \"error: no rule for \");
                print_term(stderr, left, 3);
                fprintf(stderr, \" and \");
                print_term(stderr, right, 3);
                fprintf(stderr, \"\\n\");
                exit(1);
            }
            RULES[left[0]][right[0]](left, right);
            continue;
        }
        if (IS_NAME(left)) { left[0] = 0; left[1] = (size_t) right; continue; }
        right[0] = 0;
        right[1] = (size_t) left;
    }
}
";

/// The C name of a register.
pub open spec fn local_text(l: Local) -> Seq<char> {
    match l {
        Local::Name(i) => "x"@ + decimal(i as nat),
        Local::Agent(i) => "a"@ + decimal(i as nat),
        Local::Slot(i) => "s"@ + decimal(i as nat),
    }
}

/// The C line of a rule initializer.
pub open spec fn rule_init_text(i: RuleInitializer) -> Seq<char> {
    match i {
        RuleInitializer::Name { index } => "    size_t* x"@ + decimal(index as nat) + " = new_name();\n"@,
        RuleInitializer::Agent { index, id } => "    size_t* a"@ + decimal(index as nat) + " = new_agent("@ + decimal(
            id.0 as nat,
        ) + ");\n"@,
        RuleInitializer::SlotFromLeft { index, slot } => "    size_t* s"@ + decimal(index as nat) + " = (size_t*) left["@
            + decimal(slot as nat) + "];\n"@,
        RuleInitializer::SlotFromRight { index, slot } => "    size_t* s"@ + decimal(index as nat) + " = (size_t*) right["@
            + decimal(slot as nat) + "];\n"@,
        RuleInitializer::ReuseLeft { index } => "    size_t* a"@ + decimal(index as nat) + " = left;\n"@,
        RuleInitializer::ReuseRight { index } => "    size_t* a"@ + decimal(index as nat) + " = right;\n"@,
    }
}

/// The C line of a slot write.
pub open spec fn set_slot_text(target: Local, slot: usize, value: Local) -> Seq<char> {
    "    "@ + local_text(target) + "["@ + decimal(slot as nat) + "] = (size_t) "@ + local_text(value) + ";\n"@
}

/// The C line of an equation push, with its description as a comment.
pub open spec fn push_text(left: Local, right: Local, description: Seq<char>) -> Seq<char> {
    "    push_equation("@ + local_text(left) + ", "@ + local_text(right) + "); // "@ + description + "\n"@
}

/// The C line of a rule instruction.
pub open spec fn rule_instr_text(i: RuleInstruction) -> Seq<char> {
    match i {
        RuleInstruction::SetSlot { target, slot, value } => set_slot_text(target, slot, value),
        RuleInstruction::PushEquation { left, right, description } => push_text(left, right, description@),
        RuleInstruction::FreeLeft => "    free(left);\n"@,
        RuleInstruction::FreeRight => "    free(right);\n"@,
    }
}

/// The C line of a net initializer.
pub open spec fn net_init_text(i: NetInitializer) -> Seq<char> {
    match i {
        NetInitializer::Name { index } => rule_init_text(RuleInitializer::Name { index }),
        NetInitializer::Agent { index, id } => rule_init_text(RuleInitializer::Agent { index, id }),
    }
}

/// The C line of a net instruction.
pub open spec fn net_instr_text(i: NetInstruction) -> Seq<char> {
    match i {
        NetInstruction::SetSlot { target, slot, value } => set_slot_text(target, slot, value),
        NetInstruction::PushEquation { left, right, description } => push_text(left, right, description@),
    }
}

/// The lines of rule initializers, in order.
pub open spec fn rule_inits_text(s: Seq<RuleInitializer>) -> Seq<char>
    decreases s.len(),
{
    if s.len() == 0 {
        seq![]
    } else {
        rule_inits_text(s.drop_last()) + rule_init_text(s.last())
    }
}

/// The lines of rule instructions, in order.
pub open spec fn rule_instrs_text(s: Seq<RuleInstruction>) -> Seq<char>
    decreases s.len(),
{
    if s.len() == 0 {
        seq![]
    } else {
        rule_instrs_text(s.drop_last()) + rule_instr_text(s.last())
    }
}

/// The lines of net initializers, in order.
pub open spec fn net_inits_text(s: Seq<NetInitializer>) -> Seq<char>
    decreases s.len(),
{
    if s.len() == 0 {
        seq![]
    } else {
        net_inits_text(s.drop_last()) + net_init_text(s.last())
    }
}

/// The lines of net instructions, in order.
pub open spec fn net_instrs_text(s: Seq<NetInstruction>) -> Seq<char>
    decreases s.len(),
{
    if s.len() == 0 {
        seq![]
    } else {
        net_instrs_text(s.drop_last()) + net_instr_text(s.last())
    }
}

/// The C function of a rule.
pub open spec fn rule_text(r: Rule) -> Seq<char> {
    "\n// "@ + r.description@ + "\nvoid rule_"@ + decimal(r.index as nat) + "(size_t* left, size_t* right) {\n"@
        + rule_inits_text(r.initializers@) + rule_instrs_text(r.instructions@) + "}\n"@
}

/// The stores of the first `k` outputs into the output array.
pub open spec fn outputs_text(s: Seq<Local>, k: int) -> Seq<char>
    decreases k,
{
    if k <= 0 || k > s.len() {
        seq![]
    } else {
        outputs_text(s, k - 1) + "    outputs["@ + decimal((k - 1) as nat) + "] = "@ + local_text(s[k - 1]) + ";\n"@
    }
}

/// The C function of a net: it builds the net and returns its interfaces.
pub open spec fn function_text(f: Function) -> Seq<char> {
    "\nsize_t** func_"@ + decimal(f.index as nat) + "(void) {\n"@ + net_inits_text(f.initializers@)
        + net_instrs_text(f.instructions@) + "    size_t** outputs = malloc(sizeof(size_t*) * ("@ + decimal(
        f.outputs@.len(),
    ) + " + 1));\n"@ + outputs_text(f.outputs@, f.outputs@.len() as int) + "    return outputs;\n}\n"@
}

/// The first `k` agent names as C string literals, separated by `, `.
pub open spec fn agent_names_text(s: Seq<AgentMeta>, k: int) -> Seq<char>
    decreases k,
{
    if k <= 0 || k > s.len() {
        seq![]
    } else if k == 1 {
        "\""@ + s[0].name@ + "\""@
    } else {
        agent_names_text(s, k - 1) + ", \""@ + s[k - 1].name@ + "\""@
    }
}

/// The first `k` arities, separated by `, `.
pub open spec fn arities_text(s: Seq<AgentMeta>, k: int) -> Seq<char>
    decreases k,
{
    if k <= 0 || k > s.len() {
        seq![]
    } else if k == 1 {
        decimal(s[0].arity as nat)
    } else {
        arities_text(s, k - 1) + ", "@ + decimal(s[k - 1].arity as nat)
    }
}

/// The agent table: count, names and arities.
pub open spec fn agents_text(s: Seq<AgentMeta>) -> Seq<char> {
    "#define AGENT_COUNT "@ + decimal(s.len()) + "\nconst char* AGENTS[] = { "@ + agent_names_text(s, s.len() as int)
        + " };\nconst size_t ARITY[] = { "@ + arities_text(s, s.len() as int) + " };\n"@
}

/// The dispatch entries of the first `k` rule map entries.
pub open spec fn rule_map_text(s: Seq<(AgentId, AgentId, usize)>, k: int) -> Seq<char>
    decreases k,
{
    if k <= 0 || k > s.len() {
        seq![]
    } else {
        rule_map_text(s, k - 1) + "    RULES["@ + decimal(s[k - 1].0.0 as nat) + "]["@ + decimal(s[k - 1].1.0 as nat)
            + "] = rule_"@ + decimal(s[k - 1].2 as nat) + ";\n"@
    }
}

/// The C functions of rules, in order.
pub open spec fn rules_text(s: Seq<Rule>) -> Seq<char>
    decreases s.len(),
{
    if s.len() == 0 {
        seq![]
    } else {
        rules_text(s.drop_last()) + rule_text(s.last())
    }
}

/// The C functions of nets, in order.
pub open spec fn functions_text(s: Seq<Function>) -> Seq<char>
    decreases s.len(),
{
    if s.len() == 0 {
        seq![]
    } else {
        functions_text(s.drop_last()) + function_text(s.last())
    }
}

/// The includes, switches and stack bound.
pub open spec fn header_text(o: Options) -> Seq<char> {
    "#include <stdio.h>\n#include <stdlib.h>\n"@ + (if o.timing {
        "#include <time.h>\n#define ZZ_TIMING\n"@
    } else {
        seq![]
    }) + (if o.trace {
        "#define ZZ_TRACE\n"@
    } else {
        seq![]
    }) + "#define MAX_STACK_SIZE "@ + decimal(o.stack_size as nat) + "\n"@
}

/// The entry point: it builds the entry net, reduces, prints and frees
/// each interface.
pub open spec fn main_text(entry: usize, outputs: nat) -> Seq<char> {
    "\nint main(void) {\n#ifdef ZZ_TIMING\n    clock_t start = clock();\n#endif\n    size_t** outputs = func_"@
        + decimal(entry as nat) + "();\n    run();\n    for (size_t i = 0; i < "@ + decimal(outputs)
        + "; i++) {\n        print_term(stdout, outputs[i], 1000);\n        printf(\"\\n\");\n        free_term(outputs[i]);\n    }\n    free(outputs);\n#ifdef ZZ_TIMING\n    fprintf(stderr, \"\\n[Reductions: %zu, CPU time: %f]\\n\", REDUCTIONS, (double) (clock() - start) / CLOCKS_PER_SEC);\n#endif\n    return 0;\n}\n"@
}

/// The whole translation unit.
pub open spec fn program_text(p: Program, o: Options) -> Seq<char> {
    header_text(o) + agents_text(p.agents@) + RUNTIME@ + rules_text(p.rules@) + "\nvoid init_rules(void) {\n"@
        + rule_map_text(p.rule_map@, p.rule_map@.len() as int) + "}\n"@ + functions_text(p.functions@) + main_text(
        p.entry_point,
        p.functions@[p.entry_point as int].outputs@.len(),
    )
}

fn lit(out: &mut String, s: &str)
    ensures
        final(out)@ == old(out)@ + s@,
{
    out.append(s);
}

fn emit_local(out: &mut String, l: Local)
    ensures
        final(out)@ == old(out)@ + local_text(l),
{
    match l {
        Local::Name(i) => {
            lit(out, "x");
            push_decimal(i, out);
        },
        Local::Agent(i) => {
            lit(out, "a");
            push_decimal(i, out);
        },
        Local::Slot(i) => {
            lit(out, "s");
            push_decimal(i, out);
        },
    }
    assert(out@ =~= old(out)@ + local_text(l));
}

fn emit_rule_init(out: &mut String, i: RuleInitializer)
    ensures
        final(out)@ == old(out)@ + rule_init_text(i),
{
    match i {
        RuleInitializer::Name { index } => {
            lit(out, "    size_t* x");
            push_decimal(index, out);
            lit(out, " = new_name();\n");
        },
        RuleInitializer::Agent { index, id } => {
            lit(out, "    size_t* a");
            push_decimal(index, out);
            lit(out, " = new_agent(");
            push_decimal(id.0, out);
            lit(out, ");\n");
        },
        RuleInitializer::SlotFromLeft { index, slot } => {
            lit(out, "    size_t* s");
            push_decimal(index, out);
            lit(out, " = (size_t*) left[");
            push_decimal(slot, out);
            lit(out, "];\n");
        },
        RuleInitializer::SlotFromRight { index, slot } => {
            lit(out, "    size_t* s");
            push_decimal(index, out);
            lit(out, " = (size_t*) right[");
            push_decimal(slot, out);
            lit(out, "];\n");
        },
        RuleInitializer::ReuseLeft { index } => {
            lit(out, "    size_t* a");
            push_decimal(index, out);
            lit(out, " = left;\n");
        },
        RuleInitializer::ReuseRight { index } => {
            lit(out, "    size_t* a");
            push_decimal(index, out);
            lit(out, " = right;\n");
        },
    }
    assert(out@ =~= old(out)@ + rule_init_text(i));
}

fn emit_set_slot(out: &mut String, target: Local, slot: usize, value: Local)
    ensures
        final(out)@ == old(out)@ + set_slot_text(target, slot, value),
{
    lit(out, "    ");
    emit_local(out, target);
    lit(out, "[");
    push_decimal(slot, out);
    lit(out, "] = (size_t) ");
    emit_local(out, value);
    lit(out, ";\n");
    assert(out@ =~= old(out)@ + set_slot_text(target, slot, value));
}

fn emit_push(out: &mut String, left: Local, right: Local, description: &String)
    ensures
        final(out)@ == old(out)@ + push_text(left, right, description@),
{
    lit(out, "    push_equation(");
    emit_local(out, left);
    lit(out, ", ");
    emit_local(out, right);
    lit(out, "); // ");
    out.append(description.as_str());
    lit(out, "\n");
    assert(out@ =~= old(out)@ + push_text(left, right, description@));
}

fn emit_rule(out: &mut String, r: &Rule)
    ensures
        final(out)@ == old(out)@ + rule_text(*r),
{
    lit(out, "\n// ");
    out.append(r.description.as_str());
    lit(out, "\nvoid rule_");
    push_decimal(r.index, out);
    lit(out, "(size_t* left, size_t* right) {\n");
    let ghost mid = out@;
    let mut k: usize = 0;
    while k < r.initializers.len()
        invariant
            k <= r.initializers@.len(),
            out@ == mid + rule_inits_text(r.initializers@.subrange(0, k as int)),
        decreases r.initializers@.len() - k,
    {
        proof {
            assert(r.initializers@.subrange(0, k + 1).drop_last() == r.initializers@.subrange(0, k as int));
        }
        emit_rule_init(out, r.initializers[k]);
        k += 1;
    }
    proof {
        assert(r.initializers@.subrange(0, r.initializers@.len() as int) == r.initializers@);
    }
    let ghost mid2 = out@;
    let mut k: usize = 0;
    while k < r.instructions.len()
        invariant
            k <= r.instructions@.len(),
            out@ == mid2 + rule_instrs_text(r.instructions@.subrange(0, k as int)),
        decreases r.instructions@.len() - k,
    {
        proof {
            assert(r.instructions@.subrange(0, k + 1).drop_last() == r.instructions@.subrange(0, k as int));
        }
        match &r.instructions[k] {
            RuleInstruction::SetSlot { target, slot, value } => emit_set_slot(out, *target, *slot, *value),
            RuleInstruction::PushEquation { left, right, description } => emit_push(out, *left, *right, description),
            RuleInstruction::FreeLeft => lit(out, "    free(left);\n"),
            RuleInstruction::FreeRight => lit(out, "    free(right);\n"),
        }
        proof {
            assert(out@ =~= mid2 + rule_instrs_text(r.instructions@.subrange(0, k + 1)));
        }
        k += 1;
    }
    proof {
        assert(r.instructions@.subrange(0, r.instructions@.len() as int) == r.instructions@);
    }
    lit(out, "}\n");
    assert(out@ =~= old(out)@ + rule_text(*r));
}

fn emit_function(out: &mut String, f: &Function)
    ensures
        final(out)@ == old(out)@ + function_text(*f),
{
    lit(out, "\nsize_t** func_");
    push_decimal(f.index, out);
    lit(out, "(void) {\n");
    let ghost mid = out@;
    let mut k: usize = 0;
    while k < f.initializers.len()
        invariant
            k <= f.initializers@.len(),
            out@ == mid + net_inits_text(f.initializers@.subrange(0, k as int)),
        decreases f.initializers@.len() - k,
    {
        proof {
            assert(f.initializers@.subrange(0, k + 1).drop_last() == f.initializers@.subrange(0, k as int));
        }
        match f.initializers[k] {
            NetInitializer::Name { index } => emit_rule_init(out, RuleInitializer::Name { index }),
            NetInitializer::Agent { index, id } => emit_rule_init(out, RuleInitializer::Agent { index, id }),
        }
        k += 1;
    }
    proof {
        assert(f.initializers@.subrange(0, f.initializers@.len() as int) == f.initializers@);
    }
    let ghost mid2 = out@;
    let mut k: usize = 0;
    while k < f.instructions.len()
        invariant
            k <= f.instructions@.len(),
            out@ == mid2 + net_instrs_text(f.instructions@.subrange(0, k as int)),
        decreases f.instructions@.len() - k,
    {
        proof {
            assert(f.instructions@.subrange(0, k + 1).drop_last() == f.instructions@.subrange(0, k as int));
        }
        match &f.instructions[k] {
            NetInstruction::SetSlot { target, slot, value } => emit_set_slot(out, *target, *slot, *value),
            NetInstruction::PushEquation { left, right, description } => emit_push(out, *left, *right, description),
        }
        k += 1;
    }
    proof {
        assert(f.instructions@.subrange(0, f.instructions@.len() as int) == f.instructions@);
    }
    lit(out, "    size_t** outputs = malloc(sizeof(size_t*) * (");
    push_decimal(f.outputs.len(), out);
    lit(out, " + 1));\n");
    let ghost mid3 = out@;
    let mut k: usize = 0;
    while k < f.outputs.len()
        invariant
            k <= f.outputs@.len(),
            out@ == mid3 + outputs_text(f.outputs@, k as int),
        decreases f.outputs@.len() - k,
    {
        lit(out, "    outputs[");
        push_decimal(k, out);
        lit(out, "] = ");
        emit_local(out, f.outputs[k]);
        lit(out, ";\n");
        proof {
            assert(out@ =~= mid3 + outputs_text(f.outputs@, k + 1));
        }
        k += 1;
    }
    lit(out, "    return outputs;\n}\n");
    assert(out@ =~= old(out)@ + function_text(*f));
}

fn emit_agents(out: &mut String, agents: &Vec<AgentMeta>)
    ensures
        final(out)@ == old(out)@ + agents_text(agents@),
{
    lit(out, "#define AGENT_COUNT ");
    push_decimal(agents.len(), out);
    lit(out, "\nconst char* AGENTS[] = { ");
    let ghost mid = out@;
    let mut k: usize = 0;
    while k < agents.len()
        invariant
            k <= agents@.len(),
            out@ == mid + agent_names_text(agents@, k as int),
        decreases agents@.len() - k,
    {
        if k == 0 {
            lit(out, "\"");
        } else {
            lit(out, ", \"");
        }
        out.append(agents[k].name.as_str());
        lit(out, "\"");
        proof {
            assert(out@ =~= mid + agent_names_text(agents@, k + 1));
        }
        k += 1;
    }
    lit(out, " };\nconst size_t ARITY[] = { ");
    let ghost mid2 = out@;
    let mut k: usize = 0;
    while k < agents.len()
        invariant
            k <= agents@.len(),
            out@ == mid2 + arities_text(agents@, k as int),
        decreases agents@.len() - k,
    {
        if k > 0 {
            lit(out, ", ");
        }
        push_decimal(agents[k].arity, out);
        proof {
            assert(out@ =~= mid2 + arities_text(agents@, k + 1));
        }
        k += 1;
    }
    lit(out, " };\n");
    assert(out@ =~= old(out)@ + agents_text(agents@));
}

/// Renders a program as C source: the header, the agent table, the
/// runtime, one function per rule, the dispatch table, one function per
/// net, and an entry point that runs the entry net and prints its
/// interfaces.
#[verifier::rlimit(50)]
pub fn emit_c(program: &Program, options: &Options) -> (r: String)
    requires
        program.entry_point < program.functions@.len(),
    ensures
        r@ == program_text(*program, *options),
{
    let mut out = String::new();
    lit(&mut out, "#include <stdio.h>\n#include <stdlib.h>\n");
    if options.timing {
        lit(&mut out, "#include <time.h>\n#define ZZ_TIMING\n");
    }
    if options.trace {
        lit(&mut out, "#define ZZ_TRACE\n");
    }
    lit(&mut out, "#define MAX_STACK_SIZE ");
    push_decimal(options.stack_size, &mut out);
    lit(&mut out, "\n");
    proof {
        assert(out@ =~= header_text(*options));
    }
    emit_agents(&mut out, &program.agents);
    lit(&mut out, RUNTIME);
    let ghost mid = out@;
    let mut k: usize = 0;
    while k < program.rules.len()
        invariant
            k <= program.rules@.len(),
            out@ == mid + rules_text(program.rules@.subrange(0, k as int)),
        decreases program.rules@.len() - k,
    {
        proof {
            assert(program.rules@.subrange(0, k + 1).drop_last() == program.rules@.subrange(0, k as int));
        }
        emit_rule(&mut out, &program.rules[k]);
        k += 1;
    }
    proof {
        assert(program.rules@.subrange(0, program.rules@.len() as int) == program.rules@);
    }
    lit(&mut out, "\nvoid init_rules(void) {\n");
    let ghost mid2 = out@;
    let mut k: usize = 0;
    while k < program.rule_map.len()
        invariant
            k <= program.rule_map@.len(),
            out@ == mid2 + rule_map_text(program.rule_map@, k as int),
        decreases program.rule_map@.len() - k,
    {
        let (a, b, i) = program.rule_map[k];
        lit(&mut out, "    RULES[");
        push_decimal(a.0, &mut out);
        lit(&mut out, "][");
        push_decimal(b.0, &mut out);
        lit(&mut out, "] = rule_");
        push_decimal(i, &mut out);
        lit(&mut out, ";\n");
        proof {
            assert(out@ =~= mid2 + rule_map_text(program.rule_map@, k + 1));
        }
        k += 1;
    }
    lit(&mut out, "}\n");
    let ghost mid3 = out@;
    let mut k: usize = 0;
    while k < program.functions.len()
        invariant
            k <= program.functions@.len(),
            out@ == mid3 + functions_text(program.functions@.subrange(0, k as int)),
        decreases program.functions@.len() - k,
    {
        proof {
            assert(program.functions@.subrange(0, k + 1).drop_last() == program.functions@.subrange(0, k as int));
        }
        emit_function(&mut out, &program.functions[k]);
        k += 1;
    }
    proof {
        assert(program.functions@.subrange(0, program.functions@.len() as int) == program.functions@);
    }
    let ghost before_main = out@;
    lit(&mut out, "\nint main(void) {\n#ifdef ZZ_TIMING\n    clock_t start = clock();\n#endif\n    size_t** outputs = func_");
    push_decimal(program.entry_point, &mut out);
    lit(&mut out, "();\n    run();\n    for (size_t i = 0; i < ");
    push_decimal(program.functions[program.entry_point].outputs.len(), &mut out);
    lit(&mut out, "; i++) {\n        print_term(stdout, outputs[i], 1000);\n        printf(\"\\n\");\n        free_term(outputs[i]);\n    }\n    free(outputs);\n#ifdef ZZ_TIMING\n    fprintf(stderr, \"\\n[Reductions: %zu, CPU time: %f]\\n\", REDUCTIONS, (double) (clock() - start) / CLOCKS_PER_SEC);\n#endif\n    return 0;\n}\n");
    proof {
        assert(out@ =~= before_main + main_text(program.entry_point, program.functions@[program.entry_point as int].outputs@.len()));
        assert(out@ =~= program_text(*program, *options));
    }
    out
}

} // verus!
