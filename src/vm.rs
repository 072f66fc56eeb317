//! The reduction engine: an arena of cells, a bounded equation stack, and
//! the interpreter of rule and net code.

use vstd::prelude::*;

use crate::ir::{
    net_code_closed, net_defines, net_init_arity, net_init_defines, net_slots_complete, rule_init_defines,
    net_slots_fit, AgentId, AgentMeta, Function, Local, NetInitializer, NetInstruction, Program,
    Rule, RuleInitializer, RuleInstruction,
};
use crate::options::Options;

verus! {

/// A cell of the heap. An agent's slots live in the slot store from `base`
/// on, one per unit of its arity.
#[derive(Clone, Copy, Debug, PartialEq, Eq, Structural)]
pub enum Cell {
    /// An agent of id `id`.
    Agent { id: usize, base: usize },
    /// An unbound name.
    Name { uid: usize },
    /// A bound name, forwarding to `target`.
    Indirection { target: usize },
    /// A released cell.
    Free,
}

/// Why reduction stops.
#[derive(Clone, Copy, Debug, PartialEq, Eq, Structural)]
pub enum RuntimeError {
    /// Two agents meet for which no rule exists.
    RuleNotFound { left: AgentId, right: AgentId },
    /// A push would exceed the equation stack bound.
    StackOverflow,
    /// A register is read before it is set.
    UninitializedLocal,
    /// A slot outside an agent's arity, or not yet set, is used.
    SlotNotFound,
    /// A cell is read that does not exist, was released, or has the wrong kind.
    InvalidRead,
    /// Reduction was stopped after the allowed number of steps.
    ReductionLimit,
}

/// The registers of one activation.
pub struct Frame {
    pub names: Vec<Option<usize>>,
    pub agents: Vec<Option<usize>>,
    pub slots: Vec<Option<usize>>,
}

/// The value of register `l` in a frame, if set.
pub open spec fn frame_get(f: Frame, l: Local) -> Option<usize> {
    let (v, i) = match l {
        Local::Name(i) => (f.names@, i),
        Local::Agent(i) => (f.agents@, i),
        Local::Slot(i) => (f.slots@, i),
    };
    if i < v.len() {
        v[i as int]
    } else {
        None
    }
}

fn set_register(v: &mut Vec<Option<usize>>, index: usize, value: usize)
    ensures
        final(v)@.len() >= old(v)@.len(),
        final(v)@.len() > index,
        final(v)@[index as int] == Some(value),
        forall|k: int| 0 <= k < final(v)@.len() && k != index ==> #[trigger] final(v)@[k] == if k < old(v)@.len() {
            old(v)@[k]
        } else {
            None
        },
{
    while v.len() <= index
        invariant
            v@.len() >= old(v)@.len(),
            forall|k: int| 0 <= k < v@.len() ==> #[trigger] v@[k] == if k < old(v)@.len() {
                old(v)@[k]
            } else {
                None
            },
        decreases index + 1 - v@.len(),
    {
        v.push(None);
    }
    v.set(index, Some(value));
}

impl Frame {
    /// A frame with no register set.
    pub fn new() -> (r: Frame)
        ensures
            forall|l: Local| frame_get(r, l) is None,
    {
        Frame { names: Vec::new(), agents: Vec::new(), slots: Vec::new() }
    }

    /// The value of a register; an unset one is an error.
    pub fn get(&self, l: Local) -> (r: Result<usize, RuntimeError>)
        ensures
            match frame_get(*self, l) {
                Some(c) => r == Ok::<usize, RuntimeError>(c),
                None => r == Err::<usize, RuntimeError>(RuntimeError::UninitializedLocal),
            },
    {
        let (v, i) = match l {
            Local::Name(i) => (&self.names, i),
            Local::Agent(i) => (&self.agents, i),
            Local::Slot(i) => (&self.slots, i),
        };
        if i < v.len() {
            match v[i] {
                Some(c) => Ok(c),
                None => Err(RuntimeError::UninitializedLocal),
            }
        } else {
            Err(RuntimeError::UninitializedLocal)
        }
    }

    /// Sets a register; the others keep their values.
    pub fn set(&mut self, l: Local, value: usize)
        ensures
            frame_get(*final(self), l) == Some(value),
            forall|m: Local| m != l ==> frame_get(*final(self), m) == frame_get(*old(self), m),
    {
        match l {
            Local::Name(i) => set_register(&mut self.names, i, value),
            Local::Agent(i) => set_register(&mut self.agents, i, value),
            Local::Slot(i) => set_register(&mut self.slots, i, value),
        }
    }
}

/// The virtual machine.
pub struct VM {
    /// The agent table.
    pub agents: Vec<AgentMeta>,
    /// The rules, by rule id.
    pub rules: Vec<Rule>,
    /// For each rule, its left agent, right agent and rule id.
    pub rule_map: Vec<(AgentId, AgentId, usize)>,
    /// The constructor of the entry net.
    pub main: Function,
    /// The heap of cells.
    pub heap: Vec<Cell>,
    /// The slot store of agent cells.
    pub slots: Vec<Option<usize>>,
    /// Pending equations; the last is the next to reduce.
    pub stack: Vec<(usize, usize)>,
    /// The bound on pending equations.
    pub max_stack_size: usize,
    /// The identifier of the last name allocated.
    pub name_counter: usize,
    /// The cells of the entry net's interfaces.
    pub outputs: Vec<usize>,
}

/// The heap `b` comes from `a` by releasing cells and appending new ones:
/// every cell of `a` is kept or released.
pub open spec fn heap_evolves(a: Seq<Cell>, b: Seq<Cell>) -> bool {
    b.len() >= a.len() && forall|c: int| 0 <= c < a.len() ==> #[trigger] b[c] == a[c] || b[c] is Free
}

proof fn lemma_heap_evolves_trans(a: Seq<Cell>, b: Seq<Cell>, c: Seq<Cell>)
    requires
        heap_evolves(a, b),
        heap_evolves(b, c),
    ensures
        heap_evolves(a, c),
{
    assert forall|i: int| 0 <= i < a.len() implies #[trigger] c[i] == a[i] || c[i] is Free by {
        assert(b[i] == a[i] || b[i] is Free);
        assert(c[i] == b[i] || c[i] is Free);
    }
}

/// How many equations a sequence of net instructions pushes.
pub open spec fn count_pushes(s: Seq<NetInstruction>) -> nat
    decreases s.len(),
{
    if s.len() == 0 {
        0
    } else {
        count_pushes(s.drop_last()) + if s.last() is PushEquation {
            1nat
        } else {
            0nat
        }
    }
}

/// How many equations a sequence of rule instructions pushes.
pub open spec fn count_rule_pushes(s: Seq<RuleInstruction>) -> nat
    decreases s.len(),
{
    if s.len() == 0 {
        0
    } else {
        count_rule_pushes(s.drop_last()) + if s.last() is PushEquation {
            1nat
        } else {
            0nat
        }
    }
}

/// What one reduction step does: `new` is the machine after `old` took
/// one step with result `r`.
#[verifier::opaque]
pub open spec fn step_post(old: VM, new: VM, r: Result<bool, RuntimeError>) -> bool {
    &&& (new.same_code(old))
    &&& (r == Ok::<bool, RuntimeError>(false) <==> old.stack@.len() == 0)
    &&& (old.stack@.len() > 0 && r is Ok ==> {
                let (l, x) = old.stack@.last();
                !(new.heap@[l as int] is Name && new.heap@[x as int] is Name)
            })
    &&& (old.stack@.len() == 0 ==> r == Ok::<bool, RuntimeError>(false) && new.heap == old.heap
                && new.stack@ == old.stack@ && vm_unchanged(old, new))
    &&& (old.stack@.len() > 0 ==> {
                let (l, x) = old.stack@.last();
                let h = old.heap@;
                let rest = old.stack@.drop_last();
                if l >= h.len() || x >= h.len() {
                    r == Err::<bool, RuntimeError>(RuntimeError::InvalidRead)
                } else if h[l as int] is Indirection {
                    &&& new.heap@ == h.update(l as int, Cell::Free)
                    &&& rest.len() < old.max_stack_size ==> r == Ok::<bool, RuntimeError>(true)
                        && new.stack@ == rest.push((h[l as int]->Indirection_target, x))
                    &&& rest.len() >= old.max_stack_size ==> r == Err::<bool, RuntimeError>(RuntimeError::StackOverflow)
                } else if h[x as int] is Indirection {
                    &&& new.heap@ == h.update(x as int, Cell::Free)
                    &&& rest.len() < old.max_stack_size ==> r == Ok::<bool, RuntimeError>(true)
                        && new.stack@ == rest.push((l, h[x as int]->Indirection_target))
                    &&& rest.len() >= old.max_stack_size ==> r == Err::<bool, RuntimeError>(RuntimeError::StackOverflow)
                } else if h[l as int] is Agent && h[x as int] is Agent {
                    interaction_post(old, new, r)
                } else if h[l as int] is Name {
                    &&& r == Ok::<bool, RuntimeError>(true)
                    &&& new.heap@ == h.update(l as int, Cell::Indirection { target: x })
                    &&& new.stack@ == rest
                } else if h[x as int] is Name {
                    &&& r == Ok::<bool, RuntimeError>(true)
                    &&& new.heap@ == h.update(x as int, Cell::Indirection { target: l })
                    &&& new.stack@ == rest
                } else {
                    r == Err::<bool, RuntimeError>(RuntimeError::InvalidRead)
                }
            })
}

/// What a rule's result makes of the step's result: success is a step
/// taken; a missing rule cannot come from rule code.
pub open spec fn rule_outcome(rr: Result<(), RuntimeError>) -> Result<bool, RuntimeError> {
    match rr {
        Ok(_) => Ok(true),
        Err(RuntimeError::RuleNotFound { .. }) => Err(RuntimeError::InvalidRead),
        Err(e) => Err(e),
    }
}

/// The interaction case of a step: the top equation of `old` joins two
/// agents. Without a rule for their ids in canonical order, the step fails
/// with `RuleNotFound`; with one, the new state is that rule run on them.
pub open spec fn interaction_post(old: VM, new: VM, r: Result<bool, RuntimeError>) -> bool {
    let (l, x) = old.stack@.last();
    let a = old.heap@[l as int]->Agent_id;
    let b = old.heap@[x as int]->Agent_id;
    let lo = if a <= b { a } else { b };
    let hi = if a <= b { b } else { a };
    &&& (!has_rule(old.rule_map@, old.rules@.len(), lo, hi) <==> r
        == Err::<bool, RuntimeError>(RuntimeError::RuleNotFound { left: AgentId(lo), right: AgentId(hi) }))
    &&& (found_rule(old.rule_map@, old.rules@.len(), lo, hi) is None ==> r == Err::<bool, RuntimeError>(
        RuntimeError::RuleNotFound { left: AgentId(lo), right: AgentId(hi) },
    ))
    &&& (found_rule(old.rule_map@, old.rules@.len(), lo, hi) is Some ==> exists|i: usize, mid: VM, fe: Frame, rr: Result<(), RuntimeError>|
        #[trigger] interaction_ran(old, mid, new, fe, i, rr) && found_rule(old.rule_map@, old.rules@.len(), lo, hi) == Some(i)
            && r == rule_outcome(rr))
}

/// The top equation of `old` joins two agents, and `new` is rule `i` run
/// on them from `mid`, which is `old` with that equation popped: the agent
/// with the smaller id, or the left one if the ids are equal, is the
/// rule's left argument.
pub open spec fn interaction_ran(old: VM, mid: VM, new: VM, fe: Frame, i: usize, rr: Result<(), RuntimeError>) -> bool {
    let (l, x) = old.stack@.last();
    let a = old.heap@[l as int]->Agent_id;
    let b = old.heap@[x as int]->Agent_id;
    let lc = if a <= b { l } else { x };
    let rc = if a <= b { x } else { l };
    &&& vm_with(old, mid, old.heap@, old.slots@, old.stack@.drop_last(), old.name_counter)
    &&& code_ran(mid, new, fe, old.rules@[i as int].initializers@, old.rules@[i as int].instructions@, lc, rc, rr)
}

/// A run of machine states, each the result of one successful reduction
/// of the one before.
pub open spec fn is_run(states: Seq<VM>) -> bool {
    states.len() >= 1 && forall|i: int|
        0 <= i < states.len() - 1 ==> step_post(#[trigger] states[i], states[i + 1], Ok(true))
}

/// The entry net's code is well formed for this machine's agent table:
/// every register it uses is initialized, every slot it writes fits, and
/// every agent it allocates is known.
pub open spec fn main_ready(vm: VM) -> bool {
    &&& net_code_closed(vm.main.initializers@, vm.main.instructions@, vm.main.outputs@)
    &&& net_slots_fit(vm.main.initializers@, vm.main.instructions@, vm.agents@)
    &&& net_slots_complete(vm.main.initializers@, vm.main.instructions@, vm.agents@)
}

/// Cell `c`, the value of agent register `l`, is an agent with room for
/// its slots, allocated by one of the first `k` initializers that define `l`.
pub open spec fn agent_cell_ok(vm: VM, c: usize, l: Local, inits: Seq<NetInitializer>, k: int) -> bool {
    &&& vm.heap@[c as int] is Agent
    &&& vm.heap@[c as int]->Agent_id < vm.agents@.len()
    &&& vm.heap@[c as int]->Agent_base + vm.agents@[vm.heap@[c as int]->Agent_id as int].arity <= vm.slots@.len()
    &&& exists|q: int|
        0 <= q < k && net_init_defines(#[trigger] inits[q]) == l && inits[q] is Agent && inits[q]->Agent_id.0
            == vm.heap@[c as int]->Agent_id
}

/// Every register the first `k` initializers define holds a live cell,
/// an agent one for an agent register.
pub open spec fn frame_holds(vm: VM, f: Frame, inits: Seq<NetInitializer>, k: int) -> bool {
    forall|q: int|
        0 <= q < k ==> {
            let l = net_init_defines(#[trigger] inits[q]);
            &&& frame_get(f, l) is Some
            &&& frame_get(f, l)->Some_0 < vm.heap@.len()
            &&& (l is Agent ==> agent_cell_ok(vm, frame_get(f, l)->Some_0, l, inits, k))
        }
}

proof fn lemma_frame_holds_same(a: VM, b: VM, f: Frame, inits: Seq<NetInitializer>, k: int)
    requires
        frame_holds(a, f, inits, k),
        a.heap@ == b.heap@,
        a.agents@ == b.agents@,
        a.slots@.len() == b.slots@.len(),
    ensures
        frame_holds(b, f, inits, k),
{
    assert forall|q: int| 0 <= q < k implies {
        let l = net_init_defines(#[trigger] inits[q]);
        &&& frame_get(f, l) is Some
        &&& frame_get(f, l)->Some_0 < b.heap@.len()
        &&& (l is Agent ==> agent_cell_ok(b, frame_get(f, l)->Some_0, l, inits, k))
    } by {
        let l = net_init_defines(inits[q]);
        if l is Agent {
            assert(agent_cell_ok(a, frame_get(f, l)->Some_0, l, inits, k));
        }
    }
}

proof fn lemma_count_pushes_prefix(s: Seq<NetInstruction>, k: int, j: int)
    requires
        0 <= k <= j <= s.len(),
    ensures
        count_pushes(s.subrange(0, k)) <= count_pushes(s.subrange(0, j)),
    decreases j - k,
{
    if k < j {
        lemma_count_pushes_prefix(s, k, j - 1);
        assert(s.subrange(0, j).drop_last() == s.subrange(0, j - 1));
    }
}

/// The rule initializer that does what a net initializer does.
fn net_init_to_rule(i: NetInitializer) -> (r: RuleInitializer)
    ensures
        r == net_init_as_rule(i),
{
    match i {
        NetInitializer::Name { index } => RuleInitializer::Name { index },
        NetInitializer::Agent { index, id } => RuleInitializer::Agent { index, id },
    }
}

/// The register an initializer sets.
fn rule_init_local(init: RuleInitializer) -> (r: Local)
    ensures
        r == rule_init_defines(init),
{
    match init {
        RuleInitializer::Name { index } => Local::Name(index),
        RuleInitializer::Agent { index, .. } => Local::Agent(index),
        RuleInitializer::SlotFromLeft { index, .. } => Local::Slot(index),
        RuleInitializer::SlotFromRight { index, .. } => Local::Slot(index),
        RuleInitializer::ReuseLeft { index } => Local::Agent(index),
        RuleInitializer::ReuseRight { index } => Local::Agent(index),
    }
}

/// Where slot `slot` of cell `cell` lives in the slot store, or why it
/// cannot be used: a missing or non-agent cell is an invalid read, a slot
/// outside the agent's arity is not found.
pub open spec fn slot_lookup(vm: VM, cell: usize, slot: usize) -> Result<usize, RuntimeError> {
    if cell >= vm.heap@.len() {
        Err(RuntimeError::InvalidRead)
    } else {
        match vm.heap@[cell as int] {
            Cell::Agent { id, base } => if id >= vm.agents@.len() || slot < 1 || slot > vm.agents@[id as int].arity
                || base >= vm.slots@.len() || slot - 1 >= vm.slots@.len() - base {
                Err(RuntimeError::SlotNotFound)
            } else {
                Ok((base + (slot - 1)) as usize)
            },
            _ => Err(RuntimeError::InvalidRead),
        }
    }
}

/// The value of slot `slot` of cell `cell`; an unset slot is not found.
pub open spec fn read_result(vm: VM, cell: usize, slot: usize) -> Result<usize, RuntimeError> {
    match slot_lookup(vm, cell, slot) {
        Ok(k) => match vm.slots@[k as int] {
            Some(v) => Ok(v),
            None => Err(RuntimeError::SlotNotFound),
        },
        Err(e) => Err(e),
    }
}

/// The value of a register; an unset one is an uninitialized local.
pub open spec fn frame_read(f: Frame, l: Local) -> Result<usize, RuntimeError> {
    match frame_get(f, l) {
        Some(c) => Ok(c),
        None => Err(RuntimeError::UninitializedLocal),
    }
}

/// `new` is `old` with the given heap, slot store, stack and name counter.
pub open spec fn vm_with(old: VM, new: VM, heap: Seq<Cell>, slots: Seq<Option<usize>>, stack: Seq<(usize, usize)>, counter: usize) -> bool {
    &&& new.same_code(old)
    &&& new.heap@ == heap
    &&& new.slots@ == slots
    &&& new.stack@ == stack
    &&& new.name_counter == counter
}

/// `new` holds exactly what `old` holds.
pub open spec fn vm_unchanged(old: VM, new: VM) -> bool {
    vm_with(old, new, old.heap@, old.slots@, old.stack@, old.name_counter)
}

/// `f2` is `f` with register `l` set to `v`.
pub open spec fn frame_post(f: Frame, f2: Frame, l: Local, v: usize) -> bool {
    frame_get(f2, l) == Some(v) && forall|m: Local| m != l ==> frame_get(f2, m) == frame_get(f, m)
}

/// `f2` holds what `f` holds.
pub open spec fn frame_same(f: Frame, f2: Frame) -> bool {
    forall|m: Local| frame_get(f2, m) == frame_get(f, m)
}

/// The cell a rule initializer puts in its register, or why it fails: a
/// fresh name (unless the name counter is exhausted), a fresh agent (of a
/// known id), a slot of an argument, or an argument itself.
pub open spec fn init_value(vm: VM, init: RuleInitializer, left: usize, right: usize) -> Result<usize, RuntimeError> {
    match init {
        RuleInitializer::Name { .. } => if vm.name_counter == usize::MAX {
            Err(RuntimeError::InvalidRead)
        } else {
            Ok(vm.heap@.len() as usize)
        },
        RuleInitializer::Agent { id, .. } => if id.0 >= vm.agents@.len() {
            Err(RuntimeError::InvalidRead)
        } else {
            Ok(vm.heap@.len() as usize)
        },
        RuleInitializer::SlotFromLeft { slot, .. } => read_result(vm, left, slot),
        RuleInitializer::SlotFromRight { slot, .. } => read_result(vm, right, slot),
        RuleInitializer::ReuseLeft { .. } => Ok(left),
        RuleInitializer::ReuseRight { .. } => Ok(right),
    }
}

/// What a rule initializer does to the machine: a name cell with the next
/// identifier, or an agent cell whose slots are appended unset, is pushed
/// on the heap; the other initializers change nothing. A failing one
/// changes nothing.
pub open spec fn init_post(old: VM, new: VM, init: RuleInitializer, left: usize, right: usize) -> bool {
    if init_value(old, init, left, right) is Err {
        vm_unchanged(old, new)
    } else {
        match init {
            RuleInitializer::Name { .. } => vm_with(
                old,
                new,
                old.heap@.push(Cell::Name { uid: (old.name_counter + 1) as usize }),
                old.slots@,
                old.stack@,
                (old.name_counter + 1) as usize,
            ),
            RuleInitializer::Agent { id, .. } => vm_with(
                old,
                new,
                old.heap@.push(Cell::Agent { id: id.0, base: old.slots@.len() as usize }),
                old.slots@ + Seq::new(old.agents@[id.0 as int].arity as nat, |i: int| None::<usize>),
                old.stack@,
                old.name_counter,
            ),
            _ => vm_unchanged(old, new),
        }
    }
}

/// The result of one rule instruction, given the registers `f`: a slot
/// write needs an agent register, both registers set and a slot within the
/// target's arity; a push needs both registers set and room on the stack;
/// a release needs the argument to exist.
pub open spec fn instr_result(vm: VM, f: Frame, i: RuleInstruction, left: usize, right: usize) -> Result<(), RuntimeError> {
    match i {
        RuleInstruction::SetSlot { target, slot, value } => if !(target is Agent) {
            Err(RuntimeError::InvalidRead)
        } else {
            match frame_read(f, value) {
                Err(e) => Err(e),
                Ok(_) => match frame_read(f, target) {
                    Err(e) => Err(e),
                    Ok(t) => match slot_lookup(vm, t, slot) {
                        Err(e) => Err(e),
                        Ok(_) => Ok(()),
                    },
                },
            }
        },
        RuleInstruction::PushEquation { left: a, right: b, .. } => match frame_read(f, a) {
            Err(e) => Err(e),
            Ok(_) => match frame_read(f, b) {
                Err(e) => Err(e),
                Ok(_) => if vm.stack@.len() >= vm.max_stack_size {
                    Err(RuntimeError::StackOverflow)
                } else {
                    Ok(())
                },
            },
        },
        RuleInstruction::FreeLeft => if left >= vm.heap@.len() {
            Err(RuntimeError::InvalidRead)
        } else {
            Ok(())
        },
        RuleInstruction::FreeRight => if right >= vm.heap@.len() {
            Err(RuntimeError::InvalidRead)
        } else {
            Ok(())
        },
    }
}

/// What a rule instruction does: a slot write stores the value register's
/// cell in the target's slot, a push appends the pair of cells, a release
/// frees the argument. A failing instruction changes nothing.
pub open spec fn instr_post(old: VM, new: VM, f: Frame, i: RuleInstruction, left: usize, right: usize) -> bool {
    if instr_result(old, f, i, left, right) is Err {
        vm_unchanged(old, new)
    } else {
        match i {
            RuleInstruction::SetSlot { target, slot, value } => vm_with(
                old,
                new,
                old.heap@,
                old.slots@.update(
                    slot_lookup(old, frame_read(f, target)->Ok_0, slot)->Ok_0 as int,
                    Some(frame_read(f, value)->Ok_0),
                ),
                old.stack@,
                old.name_counter,
            ),
            RuleInstruction::PushEquation { left: a, right: b, .. } => vm_with(
                old,
                new,
                old.heap@,
                old.slots@,
                old.stack@.push((frame_read(f, a)->Ok_0, frame_read(f, b)->Ok_0)),
                old.name_counter,
            ),
            RuleInstruction::FreeLeft => vm_with(
                old,
                new,
                old.heap@.update(left as int, Cell::Free),
                old.slots@,
                old.stack@,
                old.name_counter,
            ),
            RuleInstruction::FreeRight => vm_with(
                old,
                new,
                old.heap@.update(right as int, Cell::Free),
                old.slots@,
                old.stack@,
                old.name_counter,
            ),
        }
    }
}

/// The result of step `q` of code made of initializers then instructions.
pub open spec fn op_result(vm: VM, f: Frame, inits: Seq<RuleInitializer>, instrs: Seq<RuleInstruction>, q: int, left: usize, right: usize) -> Result<(), RuntimeError> {
    if q < inits.len() {
        match init_value(vm, inits[q], left, right) {
            Ok(_) => Ok(()),
            Err(e) => Err(e),
        }
    } else {
        instr_result(vm, f, instrs[q - inits.len()], left, right)
    }
}

/// What step `q` does to the machine and the registers.
pub open spec fn op_post(vm: VM, vm2: VM, f: Frame, f2: Frame, inits: Seq<RuleInitializer>, instrs: Seq<RuleInstruction>, q: int, left: usize, right: usize) -> bool {
    if q < inits.len() {
        &&& init_post(vm, vm2, inits[q], left, right)
        &&& frame_post(f, f2, rule_init_defines(inits[q]), init_value(vm, inits[q], left, right)->Ok_0)
    } else {
        instr_post(vm, vm2, f, instrs[q - inits.len()], left, right) && frame_same(f, f2)
    }
}

/// The first `k` steps of the code succeeded, taking the machines `vs` and
/// registers `fs` from one to the next.
pub open spec fn code_trace(vs: Seq<VM>, fs: Seq<Frame>, inits: Seq<RuleInitializer>, instrs: Seq<RuleInstruction>, left: usize, right: usize, k: int) -> bool {
    &&& 0 <= k <= inits.len() + instrs.len()
    &&& vs.len() == k + 1
    &&& fs.len() == k + 1
    &&& forall|q: int| 0 <= q < k ==> #[trigger] op_result(vs[q], fs[q], inits, instrs, q, left, right) is Ok && op_post(
        vs[q],
        vs[q + 1],
        fs[q],
        fs[q + 1],
        inits,
        instrs,
        q,
        left,
        right,
    )
}

/// Running the code on arguments `left` and `right`, starting with no
/// register set, took `old` to `new` with registers `fe` and result `r`:
/// every step up to the first failure ran, and on failure `r` is that
/// step's error.
pub open spec fn code_ran(old: VM, new: VM, fe: Frame, inits: Seq<RuleInitializer>, instrs: Seq<RuleInstruction>, left: usize, right: usize, r: Result<(), RuntimeError>) -> bool {
    exists|vs: Seq<VM>, fs: Seq<Frame>, k: int|
        #[trigger] code_trace(vs, fs, inits, instrs, left, right, k) && vs[0] == old && (forall|l: Local|
            frame_get(fs[0], l) is None) && vs[k] == new && fs[k] == fe && (r is Ok ==> k == inits.len()
            + instrs.len()) && (r is Err ==> k < inits.len() + instrs.len() && op_result(
            vs[k],
            fs[k],
            inits,
            instrs,
            k,
            left,
            right,
        ) == r)
}

/// A net initializer as the rule initializer that does the same.
pub open spec fn net_init_as_rule(i: NetInitializer) -> RuleInitializer {
    match i {
        NetInitializer::Name { index } => RuleInitializer::Name { index },
        NetInitializer::Agent { index, id } => RuleInitializer::Agent { index, id },
    }
}

/// A net instruction as the rule instruction that does the same.
pub open spec fn net_instr_as_rule(i: NetInstruction) -> RuleInstruction {
    match i {
        NetInstruction::SetSlot { target, slot, value } => RuleInstruction::SetSlot { target, slot, value },
        NetInstruction::PushEquation { left, right, description } => RuleInstruction::PushEquation { left, right, description },
    }
}

/// A machine as `VM::new` makes it for a program: its code, and nothing
/// allocated or pending yet.
pub open spec fn fresh(vm: VM, program: Program, options: Options) -> bool {
    &&& vm.agents@ == program.agents@
    &&& vm.rules@ == program.rules@
    &&& vm.rule_map@ == program.rule_map@
    &&& vm.main == program.functions@[program.entry_point as int]
    &&& vm.max_stack_size == options.stack_size
    &&& vm.heap@.len() == 0
    &&& vm.slots@.len() == 0
    &&& vm.stack@.len() == 0
    &&& vm.name_counter == 0
    &&& vm.outputs@.len() == 0
}

/// The rule initializers doing what the net initializers do.
pub open spec fn net_inits_as_rule(s: Seq<NetInitializer>) -> Seq<RuleInitializer> {
    Seq::new(s.len(), |i: int| net_init_as_rule(s[i]))
}

/// The rule instructions doing what the net instructions do.
pub open spec fn net_instrs_as_rule(s: Seq<NetInstruction>) -> Seq<RuleInstruction> {
    Seq::new(s.len(), |i: int| net_instr_as_rule(s[i]))
}

/// The cells the registers `ls` hold.
pub open spec fn frame_values(f: Frame, ls: Seq<Local>) -> Seq<usize> {
    Seq::new(ls.len(), |i: int| frame_get(f, ls[i])->Some_0)
}

/// Building the entry net took `old` to `new` with result `r`: its code
/// ran from no register set, and then the interface cells were recorded,
/// unless an interface register is unset.
pub open spec fn main_ran(old: VM, new: VM, r: Result<(), RuntimeError>) -> bool {
    let inits = net_inits_as_rule(old.main.initializers@);
    let instrs = net_instrs_as_rule(old.main.instructions@);
    exists|mid: VM, fe: Frame, rc: Result<(), RuntimeError>|
        #[trigger] code_ran(old, mid, fe, inits, instrs, 0, 0, rc) && (rc is Err ==> r == rc && new == mid) && (rc is Ok
            ==> if forall|k: int| 0 <= k < old.main.outputs@.len() ==> #[trigger] frame_get(fe, old.main.outputs@[k]) is Some {
            r is Ok && new.agents == mid.agents && new.rules == mid.rules && new.rule_map == mid.rule_map
                && new.main == mid.main && new.max_stack_size == mid.max_stack_size && new.heap == mid.heap
                && new.slots == mid.slots && new.stack == mid.stack && new.name_counter == mid.name_counter
                && new.outputs@ == frame_values(fe, old.main.outputs@)
        } else {
            r == Err::<(), RuntimeError>(RuntimeError::UninitializedLocal)
        })
}

/// The rule id of the first rule map entry for `a` and `b` that names an
/// existing rule.
pub open spec fn found_rule(rule_map: Seq<(AgentId, AgentId, usize)>, n_rules: nat, a: usize, b: usize) -> Option<usize> {
    if exists|k: int| 0 <= k < rule_map.len() && #[trigger] rule_entry_hit(rule_map, n_rules, a, b, k) && forall|j: int| 0 <= j < k ==> !rule_entry_hit(rule_map, n_rules, a, b, j) {
        let k = choose|k: int| 0 <= k < rule_map.len() && #[trigger] rule_entry_hit(rule_map, n_rules, a, b, k) && forall|j: int| 0 <= j < k ==> !rule_entry_hit(rule_map, n_rules, a, b, j);
        Some(rule_map[k].2)
    } else {
        None
    }
}

/// Rule map entry `k` pairs `a` with `b` and names an existing rule.
pub open spec fn rule_entry_hit(rule_map: Seq<(AgentId, AgentId, usize)>, n_rules: nat, a: usize, b: usize, k: int) -> bool {
    rule_map[k].0.0 == a && rule_map[k].1.0 == b && rule_map[k].2 < n_rules
}

/// The interaction case of a reduction step: the top equation joins two
/// agents that have a rule, and the new state is that rule run on them.
proof fn lemma_step_interaction(old: VM, new: VM, res: Result<bool, RuntimeError>, i: usize, mid: VM, fe: Frame, rr: Result<(), RuntimeError>)
    requires
        old.stack@.len() > 0,
        ({
            let (l, x) = old.stack@.last();
            let h = old.heap@;
            let a = h[l as int]->Agent_id;
            let b = h[x as int]->Agent_id;
            let lo = if a <= b { a } else { b };
            let hi = if a <= b { b } else { a };
            &&& l < h.len() && x < h.len()
            &&& h[l as int] is Agent && h[x as int] is Agent
            &&& found_rule(old.rule_map@, old.rules@.len(), lo, hi) == Some(i)
            &&& has_rule(old.rule_map@, old.rules@.len(), lo, hi)
            &&& !(new.heap@[l as int] is Name && new.heap@[x as int] is Name)
        }),
        interaction_ran(old, mid, new, fe, i, rr),
        new.same_code(old),
        res == rule_outcome(rr),
    ensures
        step_post(old, new, res),
{
    let (l, x) = old.stack@.last();
    let a = old.heap@[l as int]->Agent_id;
    let b = old.heap@[x as int]->Agent_id;
    let lo = if a <= b { a } else { b };
    let hi = if a <= b { b } else { a };
    assert(!(res is Err && res->Err_0 is RuleNotFound));
    assert(res != Err::<bool, RuntimeError>(RuntimeError::RuleNotFound { left: AgentId(lo), right: AgentId(hi) }));
    assert(interaction_ran(old, mid, new, fe, i, rr) && res == rule_outcome(rr));
    assert(exists|m: VM, f: Frame, q: Result<(), RuntimeError>| #[trigger] interaction_ran(old, m, new, f, i, q) && res == rule_outcome(q));
    assert(!has_rule(old.rule_map@, old.rules@.len(), lo, hi) <==> res
        == Err::<bool, RuntimeError>(RuntimeError::RuleNotFound { left: AgentId(lo), right: AgentId(hi) }));
    assert(found_rule(old.rule_map@, old.rules@.len(), lo, hi) is Some);
    assert(found_rule(old.rule_map@, old.rules@.len(), lo, hi)->Some_0 == i);
    assert(interaction_ran(old, mid, new, fe, i, rr) && found_rule(old.rule_map@, old.rules@.len(), lo, hi) == Some(i)
        && res == rule_outcome(rr));
    assert(interaction_post(old, new, res));
    reveal(step_post);
}

/// Some rule map entry pairs `a` with `b` and names an existing rule.
pub open spec fn has_rule(rule_map: Seq<(AgentId, AgentId, usize)>, n_rules: nat, a: usize, b: usize) -> bool {
    exists|k: int| 0 <= k < rule_map.len() && #[trigger] rule_map[k].0.0 == a && rule_map[k].1.0 == b
        && rule_map[k].2 < n_rules
}

impl VM {
    /// Two machines run the same program under the same stack bound, with
    /// the same interface cells.
    pub open spec fn same_code(&self, other: VM) -> bool {
        &&& self.agents == other.agents
        &&& self.rules == other.rules
        &&& self.rule_map == other.rule_map
        &&& self.main == other.main
        &&& self.max_stack_size == other.max_stack_size
        &&& self.outputs == other.outputs
    }

    /// A machine for a program: its entry net's constructor, its rules and
    /// agents, an empty heap and stack bounded by `options.stack_size`.
    pub fn new(program: Program, options: &Options) -> (r: VM)
        requires
            program.entry_point < program.functions@.len(),
        ensures
            r.agents@ == program.agents@,
            r.rules@ == program.rules@,
            r.rule_map@ == program.rule_map@,
            r.main == program.functions@[program.entry_point as int],
            r.heap@.len() == 0,
            r.stack@.len() == 0,
            r.max_stack_size == options.stack_size,
            r.outputs@.len() == 0,
            r.name_counter == 0,
            r.slots@.len() == 0,
    {
        let Program { agents, rules, rule_map, mut functions, function_meta: _, entry_point } = program;
        let main = functions.remove(entry_point);
        VM {
            agents,
            rules,
            rule_map,
            main,
            heap: Vec::new(),
            slots: Vec::new(),
            stack: Vec::new(),
            max_stack_size: options.stack_size,
            name_counter: 0,
            outputs: Vec::new(),
        }
    }

    /// Allocates an agent cell of `id` with all slots unset.
    pub fn new_agent(&mut self, id: AgentId) -> (r: Result<usize, RuntimeError>)
        ensures
            final(self).same_code(*old(self)),
            final(self).stack == old(self).stack,
            id.0 < old(self).agents@.len() <==> r is Ok,
            final(self).name_counter == old(self).name_counter,
            final(self).outputs == old(self).outputs,
            r is Err ==> r == Err::<usize, RuntimeError>(RuntimeError::InvalidRead) && *final(self) == *old(self),
            heap_evolves(old(self).heap@, final(self).heap@),
            r is Ok ==> {
                &&& r->Ok_0 == old(self).heap@.len()
                &&& final(self).heap@ == old(self).heap@.push(Cell::Agent { id: id.0, base: old(self).slots@.len() as usize })
                &&& final(self).slots@.len() == old(self).slots@.len() + old(self).agents@[id.0 as int].arity
                &&& forall|k: int| 0 <= k < final(self).slots@.len() ==> #[trigger] final(self).slots@[k] == if k < old(self).slots@.len() {
                    old(self).slots@[k]
                } else {
                    None
                }
            },
    {
        if id.0 >= self.agents.len() {
            return Err(RuntimeError::InvalidRead);
        }
        let arity = self.agents[id.0].arity;
        let base = self.slots.len();
        let mut i: usize = 0;
        while i < arity
            invariant
                i <= arity,
                self.slots@.len() == base + i,
                forall|k: int| 0 <= k < self.slots@.len() ==> #[trigger] self.slots@[k] == if k < base {
                    old(self).slots@[k]
                } else {
                    None
                },
                base == old(self).slots@.len(),
                self.same_code(*old(self)),
                self.stack == old(self).stack,
                self.heap == old(self).heap,
                id.0 < self.agents@.len(),
                arity == self.agents@[id.0 as int].arity,
                self.name_counter == old(self).name_counter,
            decreases arity - i,
        {
            self.slots.push(None);
            i += 1;
        }
        let cell = self.heap.len();
        self.heap.push(Cell::Agent { id: id.0, base });
        Ok(cell)
    }

    /// Allocates an unbound name cell with a fresh identifier.
    pub fn new_name(&mut self) -> (r: Result<usize, RuntimeError>)
        ensures
            final(self).same_code(*old(self)),
            final(self).stack == old(self).stack,
            final(self).slots == old(self).slots,
            r is Ok ==> r->Ok_0 == old(self).heap@.len() && final(self).heap@ == old(self).heap@.push(
                Cell::Name { uid: final(self).name_counter },
            ) && final(self).name_counter == old(self).name_counter + 1,
            r is Err ==> old(self).name_counter == usize::MAX && *final(self) == *old(self),
            r is Err ==> r == Err::<usize, RuntimeError>(RuntimeError::InvalidRead),
            heap_evolves(old(self).heap@, final(self).heap@),
    {
        if self.name_counter == usize::MAX {
            return Err(RuntimeError::InvalidRead);
        }
        self.name_counter = self.name_counter + 1;
        let cell = self.heap.len();
        self.heap.push(Cell::Name { uid: self.name_counter });
        Ok(cell)
    }

    /// Pushes an equation, unless the stack is full.
    pub fn push_equation(&mut self, left: usize, right: usize) -> (r: Result<(), RuntimeError>)
        ensures
            final(self).same_code(*old(self)),
            final(self).heap == old(self).heap,
            final(self).slots == old(self).slots,
            final(self).name_counter == old(self).name_counter,
            old(self).stack@.len() < old(self).max_stack_size <==> r is Ok,
            r is Ok ==> final(self).stack@ == old(self).stack@.push((left, right)),
            r is Err ==> r == Err::<(), RuntimeError>(RuntimeError::StackOverflow) && final(self).stack == old(self).stack,
    {
        if self.stack.len() >= self.max_stack_size {
            return Err(RuntimeError::StackOverflow);
        }
        self.stack.push((left, right));
        Ok(())
    }

    /// Takes the most recent equation.
    pub fn pop_equation(&mut self) -> (r: Option<(usize, usize)>)
        ensures
            final(self).same_code(*old(self)),
            final(self).heap == old(self).heap,
            final(self).slots == old(self).slots,
            final(self).name_counter == old(self).name_counter,
            old(self).stack@.len() == 0 ==> r is None && final(self).stack@ == old(self).stack@,
            old(self).stack@.len() > 0 ==> r == Some(old(self).stack@.last()) && final(self).stack@ == old(self).stack@.drop_last(),
    {
        self.stack.pop()
    }

    /// Where 1-based slot `slot` of agent cell `cell` lives in the slot
    /// store, if the cell is an agent with that slot.
    pub open spec fn slot_at(&self, cell: usize, slot: usize) -> Option<int> {
        if cell < self.heap@.len() && self.heap@[cell as int] is Agent {
            let id = self.heap@[cell as int]->Agent_id;
            let base = self.heap@[cell as int]->Agent_base;
            if id < self.agents@.len() && 1 <= slot <= self.agents@[id as int].arity && base + slot - 1
                < self.slots@.len() {
                Some(base + slot - 1)
            } else {
                None
            }
        } else {
            None
        }
    }

    /// The position in the slot store of 1-based slot `slot` of agent cell `cell`.
    pub fn slot_index(&self, cell: usize, slot: usize) -> (r: Result<usize, RuntimeError>)
        ensures
            r is Ok <==> self.slot_at(cell, slot) is Some,
            r is Ok ==> r->Ok_0 == self.slot_at(cell, slot)->Some_0,
            r == slot_lookup(*self, cell, slot),
    {
        if cell >= self.heap.len() {
            return Err(RuntimeError::InvalidRead);
        }
        match self.heap[cell] {
            Cell::Agent { id, base } => {
                if id >= self.agents.len() || slot < 1 || slot > self.agents[id].arity {
                    return Err(RuntimeError::SlotNotFound);
                }
                if base >= self.slots.len() || slot - 1 >= self.slots.len() - base {
                    return Err(RuntimeError::SlotNotFound);
                }
                Ok(base + (slot - 1))
            },
            _ => Err(RuntimeError::InvalidRead),
        }
    }

    /// Reads a set slot of an agent cell.
    pub fn read_slot(&self, cell: usize, slot: usize) -> (r: Result<usize, RuntimeError>)
        ensures
            match self.slot_at(cell, slot) {
                Some(k) => match self.slots@[k] {
                    Some(v) => r == Ok::<usize, RuntimeError>(v),
                    None => r == Err::<usize, RuntimeError>(RuntimeError::SlotNotFound),
                },
                None => r is Err,
            },
            r == read_result(*self, cell, slot),
    {
        let k = self.slot_index(cell, slot)?;
        match self.slots[k] {
            Some(v) => Ok(v),
            None => Err(RuntimeError::SlotNotFound),
        }
    }

    /// Writes a slot of an agent cell.
    pub fn write_slot(&mut self, cell: usize, slot: usize, value: usize) -> (r: Result<(), RuntimeError>)
        ensures
            final(self).same_code(*old(self)),
            final(self).heap == old(self).heap,
            final(self).stack == old(self).stack,
            old(self).slot_at(cell, slot) is Some <==> r is Ok,
            final(self).name_counter == old(self).name_counter,
            final(self).outputs == old(self).outputs,
            r is Ok ==> final(self).slots@ == old(self).slots@.update(old(self).slot_at(cell, slot)->Some_0, Some(value)),
            r is Err ==> final(self).slots == old(self).slots,
            r == match slot_lookup(*old(self), cell, slot) {
                Ok(_) => Ok::<(), RuntimeError>(()),
                Err(e) => Err(e),
            },
            r is Ok ==> final(self).slots@ == old(self).slots@.update(slot_lookup(*old(self), cell, slot)->Ok_0 as int, Some(value)),
            r is Err ==> *final(self) == *old(self),
    {
        let k = match self.slot_index(cell, slot) {
            Ok(k) => k,
            Err(e) => return Err(e),
        };
        self.slots.set(k, Some(value));
        Ok(())
    }

    /// Releases a cell.
    pub fn free(&mut self, cell: usize) -> (r: Result<(), RuntimeError>)
        ensures
            final(self).same_code(*old(self)),
            final(self).stack == old(self).stack,
            final(self).slots == old(self).slots,
            cell < old(self).heap@.len() <==> r is Ok,
            r is Ok ==> final(self).heap@ == old(self).heap@.update(cell as int, Cell::Free),
            heap_evolves(old(self).heap@, final(self).heap@),
            final(self).name_counter == old(self).name_counter,
            r is Err ==> r == Err::<(), RuntimeError>(RuntimeError::InvalidRead) && *final(self) == *old(self),
    {
        if cell >= self.heap.len() {
            return Err(RuntimeError::InvalidRead);
        }
        self.heap.set(cell, Cell::Free);
        Ok(())
    }
}

impl VM {
    /// The id of the rule for agents `a` and `b`, in this order.
    pub fn find_rule(&self, a: usize, b: usize) -> (r: Option<usize>)
        ensures
            r is Some ==> r->Some_0 < self.rules@.len() && exists|k: int| 0 <= k < self.rule_map@.len()
                && #[trigger] self.rule_map@[k] == (AgentId(a), AgentId(b), r->Some_0),
            r is None <==> !has_rule(self.rule_map@, self.rules@.len(), a, b),
            r == found_rule(self.rule_map@, self.rules@.len(), a, b),
    {
        let mut k: usize = 0;
        while k < self.rule_map.len()
            invariant
                k <= self.rule_map@.len(),
                forall|j: int| 0 <= j < k ==> !(#[trigger] self.rule_map@[j].0.0 == a && self.rule_map@[j].1.0 == b
                    && self.rule_map@[j].2 < self.rules@.len()),
            decreases self.rule_map@.len() - k,
        {
            let (x, y, i) = self.rule_map[k];
            if x.0 == a && y.0 == b && i < self.rules.len() {
                assert(self.rule_map@[k as int] == (AgentId(a), AgentId(b), i));
                proof {
                    let n = self.rules@.len();
                    assert(rule_entry_hit(self.rule_map@, n, a, b, k as int));
                    assert forall|j: int| 0 <= j < k implies !rule_entry_hit(self.rule_map@, n, a, b, j) by {
                        assert(!(self.rule_map@[j].0.0 == a && self.rule_map@[j].1.0 == b && self.rule_map@[j].2 < n));
                    }
                    let c = choose|c: int| 0 <= c < self.rule_map@.len() && #[trigger] rule_entry_hit(self.rule_map@, n, a, b, c)
                        && forall|j: int| 0 <= j < c ==> !rule_entry_hit(self.rule_map@, n, a, b, j);
                    if c < k {
                        assert(!rule_entry_hit(self.rule_map@, n, a, b, c));
                    } else if c > k {
                        assert(!rule_entry_hit(self.rule_map@, n, a, b, k as int));
                    }
                }
                return Some(i);
            }
            k += 1;
        }
        proof {
            let n = self.rules@.len();
            assert forall|c: int| 0 <= c < self.rule_map@.len() implies !#[trigger] rule_entry_hit(self.rule_map@, n, a, b, c) by {
                assert(!(self.rule_map@[c].0.0 == a && self.rule_map@[c].1.0 == b && self.rule_map@[c].2 < n));
            }
        }
        None
    }

    /// Runs one initializer of a rule whose arguments are `left` and
    /// `right`, and returns the cell it puts in its register.
    fn rule_initializer(&mut self, frame: &mut Frame, init: RuleInitializer, left: usize, right: usize) -> (r: Result<usize, RuntimeError>)
        ensures
            final(self).same_code(*old(self)),
            heap_evolves(old(self).heap@, final(self).heap@),
            final(self).stack == old(self).stack,
            r == init_value(*old(self), init, left, right),
            init_post(*old(self), *final(self), init, left, right),
            r is Ok ==> frame_post(*old(frame), *final(frame), rule_init_defines(init), r->Ok_0),
            r is Err ==> *final(self) == *old(self),
    {
        let c = match init {
            RuleInitializer::Name { index } => self.new_name()?,
            RuleInitializer::Agent { index, id } => self.new_agent(id)?,
            RuleInitializer::SlotFromLeft { index, slot } => self.read_slot(left, slot)?,
            RuleInitializer::SlotFromRight { index, slot } => self.read_slot(right, slot)?,
            RuleInitializer::ReuseLeft { index } => left,
            RuleInitializer::ReuseRight { index } => right,
        };
        proof {
            if let RuleInitializer::Agent { id, .. } = init {
                assert(self.slots@ =~= old(self).slots@ + Seq::new(old(self).agents@[id.0 as int].arity as nat, |i: int| None::<usize>));
            }
        }
        frame.set(rule_init_local(init), c);
        Ok(c)
    }

    /// Installs the value of register `value` at slot `slot` of the agent in
    /// register `target`.
    fn set_slot(&mut self, frame: &Frame, target: Local, slot: usize, value: Local) -> (r: Result<(), RuntimeError>)
        ensures
            final(self).same_code(*old(self)),
            heap_evolves(old(self).heap@, final(self).heap@),
            final(self).stack == old(self).stack,
            final(self).heap == old(self).heap,
            final(self).slots@.len() == old(self).slots@.len(),
            final(self).name_counter == old(self).name_counter,
            target is Agent && frame_get(*frame, value) is Some && frame_get(*frame, target) is Some && old(self).slot_at(
                frame_get(*frame, target)->Some_0,
                slot,
            ) is Some ==> r is Ok,
            r == instr_result(*old(self), *frame, RuleInstruction::SetSlot { target, slot, value }, 0, 0),
            instr_post(*old(self), *final(self), *frame, RuleInstruction::SetSlot { target, slot, value }, 0, 0),
            r is Err ==> *final(self) == *old(self),
    {
        if let Local::Agent(_) = target {
        } else {
            return Err(RuntimeError::InvalidRead);
        }
        let v = match frame.get(value) {
            Ok(v) => v,
            Err(e) => return Err(e),
        };
        let t = match frame.get(target) {
            Ok(t) => t,
            Err(e) => return Err(e),
        };
        match self.write_slot(t, slot, v) {
            Ok(()) => Ok(()),
            Err(e) => Err(e),
        }
    }

    /// Pushes the equation between the values of two registers.
    fn push_locals(&mut self, frame: &Frame, left: Local, right: Local, Ghost(d): Ghost<String>) -> (r: Result<(), RuntimeError>)
        ensures
            r == instr_result(*old(self), *frame, RuleInstruction::PushEquation { left, right, description: d }, 0, 0),
            instr_post(*old(self), *final(self), *frame, RuleInstruction::PushEquation { left, right, description: d }, 0, 0),
            r is Err ==> *final(self) == *old(self),
            final(self).same_code(*old(self)),
            heap_evolves(old(self).heap@, final(self).heap@),
            r is Ok ==> final(self).stack@.len() == old(self).stack@.len() + 1 && old(self).stack@.len() < old(self).max_stack_size,
            r is Err ==> final(self).stack == old(self).stack,
            final(self).heap == old(self).heap,
            final(self).slots == old(self).slots,
            final(self).name_counter == old(self).name_counter,
            frame_get(*frame, left) is Some && frame_get(*frame, right) is Some ==> (r is Ok <==> old(self).stack@.len()
                < old(self).max_stack_size) && (r is Err ==> r == Err::<(), RuntimeError>(RuntimeError::StackOverflow)),
    {
        let l = match frame.get(left) {
            Ok(l) => l,
            Err(e) => return Err(e),
        };
        let rv = match frame.get(right) {
            Ok(c) => c,
            Err(e) => return Err(e),
        };
        match self.push_equation(l, rv) {
            Ok(()) => Ok(()),
            Err(e) => Err(e),
        }
    }

    /// Runs rule `rule` on the argument cells `left` and `right`: its
    /// initializers, then its instructions, in order.
    #[verifier::rlimit(50)]
    pub fn execute(&mut self, rule: usize, left: usize, right: usize) -> (r: Result<(), RuntimeError>)
        requires
            rule < old(self).rules@.len(),
        ensures
            final(self).same_code(*old(self)),
            heap_evolves(old(self).heap@, final(self).heap@),
            r is Ok ==> final(self).stack@.len() == old(self).stack@.len() + count_rule_pushes(
                old(self).rules@[rule as int].instructions@,
            ),
            exists|fe: Frame|
                code_ran(
                    *old(self),
                    *final(self),
                    fe,
                    old(self).rules@[rule as int].initializers@,
                    old(self).rules@[rule as int].instructions@,
                    left,
                    right,
                    r,
                ),
    {
        let ghost inits = old(self).rules@[rule as int].initializers@;
        let ghost instrs = old(self).rules@[rule as int].instructions@;
        let mut frame = Frame::new();
        let ghost mut vs: Seq<VM> = seq![*self];
        let ghost mut fs: Seq<Frame> = seq![frame];
        let ghost f0 = frame;
        let n = self.rules[rule].initializers.len();
        let mut k: usize = 0;
        while k < n
            invariant
                k <= n,
                rule < self.rules@.len(),
                n == self.rules@[rule as int].initializers@.len(),
                self.same_code(*old(self)),
                heap_evolves(old(self).heap@, self.heap@),
                self.stack == old(self).stack,
                inits == self.rules@[rule as int].initializers@,
                instrs == self.rules@[rule as int].instructions@,
                code_trace(vs, fs, inits, instrs, left, right, k as int),
                vs[0] == *old(self),
                fs[0] == f0,
                forall|l: Local| frame_get(f0, l) is None,
                vs[k as int] == *self,
                fs[k as int] == frame,
            decreases n - k,
        {
            let init = self.rules[rule].initializers[k];
            let ghost h = self.heap@;
            let ghost before = *self;
            let ghost fb = frame;
            let res = self.rule_initializer(&mut frame, init, left, right);
            proof {
                assert(init == inits[k as int]);
            }
            if let Err(e) = res {
                proof {
                    assert(op_result(vs[k as int], fs[k as int], inits, instrs, k as int, left, right) == Err::<(), RuntimeError>(e));
                    assert(code_trace(vs, fs, inits, instrs, left, right, k as int));
                    assert(code_ran(*old(self), *self, fb, inits, instrs, left, right, Err::<(), RuntimeError>(e)));
                }
                return Err(e);
            }
            proof {
                lemma_heap_evolves_trans(old(self).heap@, h, self.heap@);
                let vs2 = vs.push(*self);
                let fs2 = fs.push(frame);
                assert forall|q: int| 0 <= q < k + 1 implies #[trigger] op_result(vs2[q], fs2[q], inits, instrs, q, left, right) is Ok && op_post(
                    vs2[q], vs2[q + 1], fs2[q], fs2[q + 1], inits, instrs, q, left, right) by {
                    if q < k {
                        assert(vs2[q] == vs[q] && vs2[q + 1] == vs[q + 1] && fs2[q] == fs[q] && fs2[q + 1] == fs[q + 1]);
                        assert(op_result(vs[q], fs[q], inits, instrs, q, left, right) is Ok);
                    }
                }
                vs = vs2;
                fs = fs2;
            }
            k += 1;
        }
        let ghost ni = n as int;
        let n = self.rules[rule].instructions.len();
        let mut k: usize = 0;
        while k < n
            invariant
                k <= n,
                rule < self.rules@.len(),
                n == self.rules@[rule as int].instructions@.len(),
                self.same_code(*old(self)),
                heap_evolves(old(self).heap@, self.heap@),
                self.stack@.len() == old(self).stack@.len() + count_rule_pushes(
                    self.rules@[rule as int].instructions@.subrange(0, k as int),
                ),
                inits == self.rules@[rule as int].initializers@,
                instrs == self.rules@[rule as int].instructions@,
                ni == inits.len(),
                code_trace(vs, fs, inits, instrs, left, right, ni + k),
                vs[0] == *old(self),
                fs[0] == f0,
                forall|l: Local| frame_get(f0, l) is None,
                vs[ni + k] == *self,
                fs[ni + k] == frame,
            decreases n - k,
        {
            proof {
                assert(self.rules@[rule as int].instructions@.subrange(0, k + 1).drop_last()
                    == self.rules@[rule as int].instructions@.subrange(0, k as int));
            }
            let ghost instr = instrs[k as int];
            let (kind, a, slot, b) = match &self.rules[rule].instructions[k] {
                RuleInstruction::SetSlot { target, slot, value } => (0u8, *target, *slot, *value),
                RuleInstruction::PushEquation { left, right, .. } => (1u8, *left, 0, *right),
                RuleInstruction::FreeLeft => (2u8, Local::Name(0), 0, Local::Name(0)),
                RuleInstruction::FreeRight => (3u8, Local::Name(0), 0, Local::Name(0)),
            };
            let ghost h = self.heap@;
            let ghost before = *self;
            let res = if kind == 0 {
                self.set_slot(&frame, a, slot, b)
            } else if kind == 1 {
                self.push_locals(&frame, a, b, Ghost(instr->PushEquation_description))
            } else if kind == 2 {
                self.free(left)
            } else {
                self.free(right)
            };
            proof {
                assert(instr_result(before, frame, instr, left, right) is Ok <==> res is Ok);
                assert(instr_post(before, *self, frame, instr, left, right));
            }
            if let Err(e) = res {
                proof {
                    assert(instr_result(before, frame, instr, left, right) == Err::<(), RuntimeError>(e));
                    assert(op_result(vs[ni + k], fs[ni + k], inits, instrs, ni + k, left, right) == Err::<(), RuntimeError>(e));
                    assert(*self == before);
                    assert(code_ran(*old(self), *self, frame, inits, instrs, left, right, Err::<(), RuntimeError>(e)));
                }
                return Err(e);
            }
            proof {
                lemma_heap_evolves_trans(old(self).heap@, h, self.heap@);
                let vs2 = vs.push(*self);
                let fs2 = fs.push(frame);
                assert forall|q: int| 0 <= q < ni + k + 1 implies #[trigger] op_result(vs2[q], fs2[q], inits, instrs, q, left, right) is Ok && op_post(
                    vs2[q], vs2[q + 1], fs2[q], fs2[q + 1], inits, instrs, q, left, right) by {
                    if q < ni + k {
                        assert(vs2[q] == vs[q] && vs2[q + 1] == vs[q + 1] && fs2[q] == fs[q] && fs2[q + 1] == fs[q + 1]);
                        assert(op_result(vs[q], fs[q], inits, instrs, q, left, right) is Ok);
                    }
                }
                vs = vs2;
                fs = fs2;
                if kind == 1 {
                    assert(self.stack@.len() == before.stack@.len() + 1);
                }
            }
            k += 1;
        }
        proof {
            assert(self.rules@[rule as int].instructions@.subrange(0, n as int) == self.rules@[rule as int].instructions@);
            assert(code_ran(*old(self), *self, frame, inits, instrs, left, right, Ok(())));
        }
        Ok(())
    }

    /// Runs the entry net's constructor and records the cells of its
    /// interfaces.
    #[verifier::rlimit(50)]
    pub fn execute_main(&mut self) -> (r: Result<(), RuntimeError>)
        ensures
            final(self).agents == old(self).agents,
            final(self).rules == old(self).rules,
            final(self).rule_map == old(self).rule_map,
            final(self).main == old(self).main,
            final(self).max_stack_size == old(self).max_stack_size,
            r is Ok ==> final(self).outputs@.len() == old(self).main.outputs@.len(),
            r is Ok ==> final(self).stack@.len() == old(self).stack@.len() + count_pushes(old(self).main.instructions@),
            old(self).stack@.len() <= old(self).max_stack_size ==> final(self).stack@.len() <= old(self).max_stack_size,
            old(self).max_stack_size == 0 && old(self).stack@.len() == 0 && count_pushes(old(self).main.instructions@) > 0
                ==> r is Err,
            main_ready(*old(self)) && old(self).name_counter + old(self).main.initializers@.len() <= usize::MAX ==> (r is Ok
                || r == Err::<(), RuntimeError>(RuntimeError::StackOverflow)),
            main_ready(*old(self)) && old(self).name_counter + old(self).main.initializers@.len() <= usize::MAX
                && old(self).stack@.len() + count_pushes(old(self).main.instructions@) <= old(self).max_stack_size ==> r is Ok,
            main_ready(*old(self)) && old(self).name_counter + old(self).main.initializers@.len() <= usize::MAX
                && old(self).max_stack_size == 0 && old(self).stack@.len() == 0 && count_pushes(old(self).main.instructions@) > 0
                ==> r == Err::<(), RuntimeError>(RuntimeError::StackOverflow),
            main_ran(*old(self), *final(self), r),
    {
        let ghost rinits = net_inits_as_rule(old(self).main.initializers@);
        let ghost rinstrs = net_instrs_as_rule(old(self).main.instructions@);
        let ghost ready = main_ready(*old(self)) && old(self).name_counter + old(self).main.initializers@.len() <= usize::MAX;
        let ghost fits = old(self).stack@.len() + count_pushes(old(self).main.instructions@) <= old(self).max_stack_size;
        let ghost inits = old(self).main.initializers@;
        let mut frame = Frame::new();
        let ghost f00 = frame;
        let ghost mut vs: Seq<VM> = seq![*self];
        let ghost mut fs: Seq<Frame> = seq![frame];
        let n = self.main.initializers.len();
        let mut k: usize = 0;
        while k < n
            invariant
                k <= n,
                n == self.main.initializers@.len(),
                self.same_code(*old(self)),
                self.stack == old(self).stack,
                inits == self.main.initializers@,
                ready == (main_ready(*old(self)) && old(self).name_counter + old(self).main.initializers@.len() <= usize::MAX),
                ready ==> frame_holds(*self, frame, inits, k as int),
                ready ==> self.name_counter <= old(self).name_counter + k,
                code_trace(vs, fs, rinits, rinstrs, 0, 0, k as int),
                vs[0] == *old(self),
                fs[0] == f00,
                forall|l: Local| frame_get(f00, l) is None,
                vs[k as int] == *self,
                fs[k as int] == frame,
                rinits == net_inits_as_rule(old(self).main.initializers@),
                rinstrs == net_instrs_as_rule(old(self).main.instructions@),
                self.main == old(self).main,
            decreases n - k,
        {
            let ghost before = *self;
            let ghost f0 = frame;
            let init = self.main.initializers[k];
            proof {
                if ready {
                    assert(net_slots_complete(inits, old(self).main.instructions@, old(self).agents@));
                    if init is Agent {
                        assert(inits[k as int] is Agent);
                    }
                }
            }
            let ri = net_init_to_rule(init);
            let _hl = self.heap.len();
            let ghost fb = frame;
            let res = self.rule_initializer(&mut frame, ri, 0, 0);
            proof {
                assert(ri == rinits[k as int]);
            }
            let c = match res {
                Ok(c) => c,
                Err(e) => {
                    proof {
                        assert(op_result(vs[k as int], fs[k as int], rinits, rinstrs, k as int, 0, 0) == Err::<(), RuntimeError>(e));
                        assert(code_ran(*old(self), *self, fb, rinits, rinstrs, 0, 0, Err::<(), RuntimeError>(e)));
                        assert(main_ran(*old(self), *self, Err::<(), RuntimeError>(e)));
                    }
                    return Err(e);
                },
            };
            proof {
                if ready {
                    let lk = net_init_defines(inits[k as int]);
                    assert(c == before.heap@.len());
                    assert(self.heap@.len() == before.heap@.len() + 1);
                    assert forall|q: int| 0 <= q < k + 1 implies {
                        let l = net_init_defines(#[trigger] inits[q]);
                        &&& frame_get(frame, l) is Some
                        &&& frame_get(frame, l)->Some_0 < self.heap@.len()
                        &&& (l is Agent ==> agent_cell_ok(*self, frame_get(frame, l)->Some_0, l, inits, k + 1))
                    } by {
                        let l = net_init_defines(inits[q]);
                        if l == lk {
                            if l is Agent {
                                assert(inits[k as int] is Agent);
                                assert(net_init_defines(inits[k as int]) == l);
                            }
                        } else {
                            let c2 = frame_get(f0, l)->Some_0;
                            assert(frame_get(frame, l) == frame_get(f0, l));
                            assert(self.heap@[c2 as int] == before.heap@[c2 as int]);
                            if l is Agent {
                                assert(agent_cell_ok(before, c2, l, inits, k as int));
                                let q2 = choose|q2: int|
                                    0 <= q2 < k && net_init_defines(#[trigger] inits[q2]) == l && inits[q2] is Agent
                                        && inits[q2]->Agent_id.0 == before.heap@[c2 as int]->Agent_id;
                                assert(0 <= q2 < k + 1);
                            }
                        }
                    }
                }
            }
            proof {
                let vs2 = vs.push(*self);
                let fs2 = fs.push(frame);
                assert forall|q: int| 0 <= q < k + 1 implies #[trigger] op_result(vs2[q], fs2[q], rinits, rinstrs, q, 0, 0) is Ok && op_post(
                    vs2[q], vs2[q + 1], fs2[q], fs2[q + 1], rinits, rinstrs, q, 0, 0) by {
                    if q < k {
                        assert(vs2[q] == vs[q] && vs2[q + 1] == vs[q + 1] && fs2[q] == fs[q] && fs2[q + 1] == fs[q + 1]);
                        assert(op_result(vs[q], fs[q], rinits, rinstrs, q, 0, 0) is Ok);
                    }
                }
                vs = vs2;
                fs = fs2;
            }
            k += 1;
        }
        let ghost ni = n as int;
        let n = self.main.instructions.len();
        let mut k: usize = 0;
        while k < n
            invariant
                k <= n,
                n == self.main.instructions@.len(),
                self.same_code(*old(self)),
                self.stack@.len() == old(self).stack@.len() + count_pushes(self.main.instructions@.subrange(0, k as int)),
                old(self).stack@.len() <= old(self).max_stack_size ==> self.stack@.len() <= old(self).max_stack_size,
                inits == self.main.initializers@,
                ready == (main_ready(*old(self)) && old(self).name_counter + old(self).main.initializers@.len() <= usize::MAX),
                fits == (old(self).stack@.len() + count_pushes(old(self).main.instructions@) <= old(self).max_stack_size),
                ready ==> frame_holds(*self, frame, inits, inits.len() as int),
                ni == rinits.len(),
                code_trace(vs, fs, rinits, rinstrs, 0, 0, ni + k),
                vs[0] == *old(self),
                fs[0] == f00,
                forall|l: Local| frame_get(f00, l) is None,
                vs[ni + k] == *self,
                fs[ni + k] == frame,
                rinits == net_inits_as_rule(old(self).main.initializers@),
                rinstrs == net_instrs_as_rule(old(self).main.instructions@),
                self.main == old(self).main,
            decreases n - k,
        {
            proof {
                assert(self.main.instructions@.subrange(0, k + 1).drop_last() == self.main.instructions@.subrange(0, k as int));
                lemma_count_pushes_prefix(self.main.instructions@, k + 1, n as int);
                assert(self.main.instructions@.subrange(0, n as int) == self.main.instructions@);
            }
            let ghost before = *self;
            let (set, a, slot, b) = match &self.main.instructions[k] {
                NetInstruction::SetSlot { target, slot, value } => (true, *target, *slot, *value),
                NetInstruction::PushEquation { left, right, .. } => (false, *left, 0, *right),
            };
            proof {
                if ready {
                    let ins = self.main.instructions@;
                    assert(net_code_closed(inits, ins, self.main.outputs@));
                    assert(net_slots_fit(inits, ins, self.agents@));
                    match ins[k as int] {
                        NetInstruction::SetSlot { target, slot, value } => {
                            assert(net_defines(inits, target));
                            assert(net_defines(inits, value));
                            let q = choose|q: int| 0 <= q < inits.len() && net_init_defines(#[trigger] inits[q]) == target;
                            let q1 = choose|q1: int| 0 <= q1 < inits.len() && net_init_defines(#[trigger] inits[q1]) == value;
                            assert(frame_get(frame, value) is Some);
                            let c = frame_get(frame, target)->Some_0;
                            assert(agent_cell_ok(*self, c, target, inits, inits.len() as int));
                            let q2 = choose|q2: int|
                                0 <= q2 < inits.len() && net_init_defines(#[trigger] inits[q2]) == target && inits[q2] is Agent
                                    && inits[q2]->Agent_id.0 == self.heap@[c as int]->Agent_id;
                            assert(slot <= net_init_arity(inits[q2], self.agents@));
                            assert(self.slot_at(c, slot) is Some);
                        },
                        NetInstruction::PushEquation { left, right, .. } => {
                            assert(net_defines(inits, left));
                            assert(net_defines(inits, right));
                            let q = choose|q: int| 0 <= q < inits.len() && net_init_defines(#[trigger] inits[q]) == left;
                            let q1 = choose|q1: int| 0 <= q1 < inits.len() && net_init_defines(#[trigger] inits[q1]) == right;
                            assert(frame_get(frame, left) is Some && frame_get(frame, right) is Some);
                        },
                    }
                }
            }
            let ghost instr = rinstrs[k as int];
            let ghost vb = *self;
            let res = if set {
                self.set_slot(&frame, a, slot, b)
            } else {
                self.push_locals(&frame, a, b, Ghost(self.main.instructions@[k as int]->PushEquation_description))
            };
            proof {
                assert(instr == net_instr_as_rule(self.main.instructions@[k as int]));
                assert(instr_result(vb, frame, instr, 0, 0) is Ok <==> res is Ok);
                assert(instr_post(vb, *self, frame, instr, 0, 0));
            }
            if let Err(e) = res {
                proof {
                    assert(instr_result(vb, frame, instr, 0, 0) == Err::<(), RuntimeError>(e));
                    assert(op_result(vs[ni + k], fs[ni + k], rinits, rinstrs, ni + k, 0, 0) == Err::<(), RuntimeError>(e));
                    assert(code_ran(*old(self), *self, frame, rinits, rinstrs, 0, 0, Err::<(), RuntimeError>(e)));
                    assert(main_ran(*old(self), *self, Err::<(), RuntimeError>(e)));
                }
                return Err(e);
            }
            proof {
                let vs2 = vs.push(*self);
                let fs2 = fs.push(frame);
                assert forall|q: int| 0 <= q < ni + k + 1 implies #[trigger] op_result(vs2[q], fs2[q], rinits, rinstrs, q, 0, 0) is Ok && op_post(
                    vs2[q], vs2[q + 1], fs2[q], fs2[q + 1], rinits, rinstrs, q, 0, 0) by {
                    if q < ni + k {
                        assert(vs2[q] == vs[q] && vs2[q + 1] == vs[q + 1] && fs2[q] == fs[q] && fs2[q + 1] == fs[q + 1]);
                        assert(op_result(vs[q], fs[q], rinits, rinstrs, q, 0, 0) is Ok);
                    }
                }
                vs = vs2;
                fs = fs2;
            }
            proof {
                if ready {
                    lemma_frame_holds_same(before, *self, frame, inits, inits.len() as int);
                }
            }
            k += 1;
        }
        proof {
            assert(self.main.instructions@.subrange(0, n as int) == self.main.instructions@);
        }
        let ghost mid = *self;
        proof {
            assert(code_ran(*old(self), mid, frame, rinits, rinstrs, 0, 0, Ok(())));
        }
        let n = self.main.outputs.len();
        let mut outputs: Vec<usize> = Vec::new();
        let mut k: usize = 0;
        while k < n
            invariant
                k <= n,
                n == self.main.outputs@.len(),
                outputs@.len() == k,
                self.same_code(*old(self)),
                self.stack@.len() == old(self).stack@.len() + count_pushes(old(self).main.instructions@),
                old(self).stack@.len() <= old(self).max_stack_size ==> self.stack@.len() <= old(self).max_stack_size,
                inits == self.main.initializers@,
                ready == (main_ready(*old(self)) && old(self).name_counter + old(self).main.initializers@.len() <= usize::MAX),
                ready ==> frame_holds(*self, frame, inits, inits.len() as int),
                *self == mid,
                code_ran(*old(self), mid, frame, rinits, rinstrs, 0, 0, Ok(())),
                rinits == net_inits_as_rule(old(self).main.initializers@),
                rinstrs == net_instrs_as_rule(old(self).main.instructions@),
                forall|j: int| 0 <= j < k ==> frame_get(frame, self.main.outputs@[j]) == Some(#[trigger] outputs@[j]),
                self.main == old(self).main,
            decreases n - k,
        {
            proof {
                if ready {
                    assert(net_code_closed(inits, self.main.instructions@, self.main.outputs@));
                    assert(net_defines(inits, self.main.outputs@[k as int]));
                    let q = choose|q: int| 0 <= q < inits.len() && net_init_defines(#[trigger] inits[q]) == self.main.outputs@[k as int];
                }
            }
            let c = match frame.get(self.main.outputs[k]) {
                Ok(c) => c,
                Err(e) => {
                    proof {
                        assert(frame_get(frame, old(self).main.outputs@[k as int]) is None);
                        assert(e == RuntimeError::UninitializedLocal);
                        assert(code_ran(*old(self), mid, frame, net_inits_as_rule(old(self).main.initializers@),
                            net_instrs_as_rule(old(self).main.instructions@), 0, 0, Ok(())));
                        assert(!(forall|j: int| 0 <= j < old(self).main.outputs@.len() ==> #[trigger] frame_get(frame, old(self).main.outputs@[j]) is Some));
                        assert(main_ran(*old(self), *self, Err::<(), RuntimeError>(e)));
                    }
                    return Err(e);
                },
            };
            outputs.push(c);
            k += 1;
        }
        self.outputs = outputs;
        proof {
            assert(self.outputs@ =~= frame_values(frame, old(self).main.outputs@));
            assert(code_ran(*old(self), mid, frame, net_inits_as_rule(old(self).main.initializers@),
                net_instrs_as_rule(old(self).main.instructions@), 0, 0, Ok(())));
            assert forall|j: int| 0 <= j < old(self).main.outputs@.len() implies #[trigger] frame_get(frame, old(self).main.outputs@[j]) is Some by {
                assert(frame_get(frame, self.main.outputs@[j]) == Some(outputs@[j]));
            }
            assert(main_ran(*old(self), *self, Ok(())));
        }
        Ok(())
    }

    /// One reduction: pops the latest equation and dispatches on its cells.
    /// An indirection on either side (left first) is released and its
    /// target re-equated; two agents fire their rule, in canonical order;
    /// otherwise an unbound name (left first) is bound to the other side.
    /// Returns `false` when no equation is pending.
    #[verifier::rlimit(100)]
    pub fn step(&mut self) -> (r: Result<bool, RuntimeError>)
        ensures
            step_post(*old(self), *final(self), r),
            final(self).same_code(*old(self)),
            r == Ok::<bool, RuntimeError>(false) <==> old(self).stack@.len() == 0,
            r == Ok::<bool, RuntimeError>(false) ==> final(self).stack@ == old(self).stack@,
    {
        proof {
            reveal(step_post);
        }
        let (l, x) = match self.pop_equation() {
            None => return Ok(false),
            Some(e) => e,
        };
        if l >= self.heap.len() || x >= self.heap.len() {
            return Err(RuntimeError::InvalidRead);
        }
        let cl = self.heap[l];
        let cx = self.heap[x];
        if let Cell::Indirection { target } = cl {
            self.heap.set(l, Cell::Free);
            self.push_equation(target, x)?;
            return Ok(true);
        }
        if let Cell::Indirection { target } = cx {
            self.heap.set(x, Cell::Free);
            self.push_equation(l, target)?;
            return Ok(true);
        }
        match (cl, cx) {
            (Cell::Agent { id: a, .. }, Cell::Agent { id: b, .. }) => {
                let (lo, hi, lc, rc) = if a <= b { (a, b, l, x) } else { (b, a, x, l) };
                match self.find_rule(lo, hi) {
                    None => Err(RuntimeError::RuleNotFound { left: AgentId(lo), right: AgentId(hi) }),
                    Some(i) => {
                        let ghost h = self.heap@;
                        let ghost mid = *self;
                        let r = self.execute(i, lc, rc);
                        proof {
                            assert(self.heap@[l as int] == h[l as int] || self.heap@[l as int] is Free);
                            assert(self.heap@[x as int] == h[x as int] || self.heap@[x as int] is Free);
                            let fe = choose|fe: Frame| code_ran(mid, *self, fe, mid.rules@[i as int].initializers@,
                                mid.rules@[i as int].instructions@, lc, rc, r);
                            assert(vm_with(*old(self), mid, old(self).heap@, old(self).slots@, old(self).stack@.drop_last(), old(self).name_counter));
                            assert(code_ran(mid, *self, fe, old(self).rules@[i as int].initializers@,
                                old(self).rules@[i as int].instructions@, lc, rc, r));
                        }
                        let res = match r {
                            Ok(()) => Ok(true),
                            // Rule code reports no missing rule; that error
                            // belongs to the dispatch above.
                            Err(RuntimeError::RuleNotFound { .. }) => Err(RuntimeError::InvalidRead),
                            Err(e) => Err(e),
                        };
                        proof {
                            assert(!(self.heap@[l as int] is Name && self.heap@[x as int] is Name));
                            let fe = choose|fe: Frame| code_ran(mid, *self, fe, mid.rules@[i as int].initializers@,
                                mid.rules@[i as int].instructions@, lc, rc, r);
                            let rr = r;
                            assert(res == match rr {
                                Ok(_) => Ok::<bool, RuntimeError>(true),
                                Err(RuntimeError::RuleNotFound { .. }) => Err(RuntimeError::InvalidRead),
                                Err(e) => Err(e),
                            });
                            assert(interaction_ran(*old(self), mid, *self, fe, i, r));
                            assert(found_rule(old(self).rule_map@, old(self).rules@.len(), lo, hi) == Some(i));
                            assert(has_rule(old(self).rule_map@, old(self).rules@.len(), lo, hi));
                            assert(res == rule_outcome(r));
                            lemma_step_interaction(*old(self), *self, res, i, mid, fe, r);
                        }
                        res
                    },
                }
            },
            (Cell::Name { .. }, _) => {
                self.heap.set(l, Cell::Indirection { target: x });
                Ok(true)
            },
            (_, Cell::Name { .. }) => {
                self.heap.set(x, Cell::Indirection { target: l });
                Ok(true)
            },
            _ => Err(RuntimeError::InvalidRead),
        }
    }

    /// Reduces until no equation is pending, or `max_reductions` reductions
    /// were made; returns how many were made.
    pub fn run(&mut self, max_reductions: u64) -> (r: Result<u64, RuntimeError>)
        ensures
            final(self).same_code(*old(self)),
            r is Ok ==> r->Ok_0 <= max_reductions,
            r is Ok && r->Ok_0 < max_reductions ==> final(self).stack@.len() == 0,
            old(self).stack@.len() == 0 && max_reductions > 0 ==> r == Ok::<u64, RuntimeError>(0),
            r is Ok ==> exists|states: Seq<VM>|
                #[trigger] is_run(states) && states.len() == r->Ok_0 + 1 && states[0] == *old(self) && (r->Ok_0
                    < max_reductions ==> step_post(states.last(), *final(self), Ok(false))) && (r->Ok_0
                    == max_reductions ==> states.last() == *final(self)),
            r is Err ==> exists|states: Seq<VM>|
                #[trigger] is_run(states) && states[0] == *old(self) && step_post(
                    states.last(),
                    *final(self),
                    Err(r->Err_0),
                ),
    {
        let mut n: u64 = 0;
        let ghost mut states = seq![*self];
        while n < max_reductions
            invariant
                n <= max_reductions,
                self.same_code(*old(self)),
                is_run(states),
                states.len() == n + 1,
                states[0] == *old(self),
                states.last() == *self,
                old(self).stack@.len() == 0 ==> n == 0,
            decreases max_reductions - n,
        {
            let res = self.step();
            match res {
                Err(e) => {
                    assert(is_run(states) && states[0] == *old(self) && step_post(states.last(), *self, Err(e)));
                    return Err(e);
                },
                Ok(more) => {
                    if !more {
                        assert(is_run(states) && states.len() == n + 1 && states[0] == *old(self) && step_post(
                            states.last(),
                            *self,
                            Ok(false),
                        ));
                        return Ok(n);
                    }
                    proof {
                        let s2 = states.push(*self);
                        assert forall|i: int| 0 <= i < s2.len() - 1 implies step_post(#[trigger] s2[i], s2[i + 1], Ok(true)) by {
                            if i < states.len() - 1 {
                                assert(s2[i] == states[i] && s2[i + 1] == states[i + 1]);
                            }
                        }
                        states = s2;
                    }
                },
            }
            n += 1;
        }
        assert(is_run(states) && states.len() == n + 1 && states[0] == *old(self) && states.last() == *self);
        Ok(n)
    }
}

} // verus!
