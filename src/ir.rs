//! The intermediate representation: agents, rules and net constructors as
//! straight-line code over a small register file.

use vstd::prelude::*;

verus! {

/// A dense identifier of an agent symbol; `$`, the indirection marker, is 0.
#[derive(Clone, Copy, Debug, PartialEq, Eq, Structural)]
pub struct AgentId(pub usize);

/// A register of a rule or a net constructor.
#[derive(Clone, Copy, Debug, PartialEq, Eq, Structural)]
pub enum Local {
    /// A fresh unbound name.
    Name(usize),
    /// A fresh agent cell.
    Agent(usize),
    /// A value imported from a slot of a rule's argument.
    Slot(usize),
}

/// An initializer of a rule, run once before its instructions.
#[derive(Clone, Copy, Debug, PartialEq, Eq, Structural)]
pub enum RuleInitializer {
    /// Allocates a fresh name into `Name(index)`.
    Name { index: usize },
    /// Allocates a fresh agent of `id` into `Agent(index)`.
    Agent { index: usize, id: AgentId },
    /// Reads 1-based slot `slot` of the left argument into `Slot(index)`.
    SlotFromLeft { index: usize, slot: usize },
    /// Reads 1-based slot `slot` of the right argument into `Slot(index)`.
    SlotFromRight { index: usize, slot: usize },
    /// Takes the left argument cell itself as `Agent(index)`.
    ReuseLeft { index: usize },
    /// Takes the right argument cell itself as `Agent(index)`.
    ReuseRight { index: usize },
}

/// An initializer of a net constructor.
#[derive(Clone, Copy, Debug, PartialEq, Eq, Structural)]
pub enum NetInitializer {
    /// Allocates a fresh name into `Name(index)`.
    Name { index: usize },
    /// Allocates a fresh agent of `id` into `Agent(index)`.
    Agent { index: usize, id: AgentId },
}

/// An instruction of a rule.
pub enum RuleInstruction {
    /// Installs `value` at 1-based slot `slot` of the agent `target`.
    SetSlot { target: Local, slot: usize, value: Local },
    /// Pushes the equation `left = right`.
    PushEquation { left: Local, right: Local, description: String },
    /// Releases the left argument cell.
    FreeLeft,
    /// Releases the right argument cell.
    FreeRight,
}

/// An instruction of a net constructor.
pub enum NetInstruction {
    /// Installs `value` at 1-based slot `slot` of the agent `target`.
    SetSlot { target: Local, slot: usize, value: Local },
    /// Pushes the equation `left = right`.
    PushEquation { left: Local, right: Local, description: String },
}

/// The symbol and arity of an agent.
pub struct AgentMeta {
    pub name: String,
    pub arity: usize,
}

impl AgentMeta {
    /// Metadata for the agent `name` of arity `arity`.
    pub fn new(name: String, arity: usize) -> (r: AgentMeta)
        ensures
            r.name == name,
            r.arity == arity,
    {
        AgentMeta { name, arity }
    }
}

/// A rule: code run when its two agents meet.
pub struct Rule {
    pub index: usize,
    pub description: String,
    pub initializers: Vec<RuleInitializer>,
    pub instructions: Vec<RuleInstruction>,
}

/// A net constructor: code that builds a net and returns its interfaces.
pub struct Function {
    pub index: usize,
    pub initializers: Vec<NetInitializer>,
    pub instructions: Vec<NetInstruction>,
    pub outputs: Vec<Local>,
}

/// The name and interface count of a net constructor.
pub struct FunctionMeta {
    pub name: String,
    pub output_count: usize,
}

/// A whole program.
pub struct Program {
    /// Agents, indexed by `AgentId`.
    pub agents: Vec<AgentMeta>,
    /// Rules, indexed by rule id.
    pub rules: Vec<Rule>,
    /// For each rule, its left agent, right agent and rule id.
    pub rule_map: Vec<(AgentId, AgentId, usize)>,
    /// Net constructors, one per net.
    pub functions: Vec<Function>,
    pub function_meta: Vec<FunctionMeta>,
    /// The index of the constructor of `Main`.
    pub entry_point: usize,
}

/// The register an initializer of a rule defines.
pub open spec fn rule_init_defines(i: RuleInitializer) -> Local {
    match i {
        RuleInitializer::Name { index } => Local::Name(index),
        RuleInitializer::Agent { index, .. } => Local::Agent(index),
        RuleInitializer::SlotFromLeft { index, .. } => Local::Slot(index),
        RuleInitializer::SlotFromRight { index, .. } => Local::Slot(index),
        RuleInitializer::ReuseLeft { index } => Local::Agent(index),
        RuleInitializer::ReuseRight { index } => Local::Agent(index),
    }
}

/// The register an initializer of a net defines.
pub open spec fn net_init_defines(i: NetInitializer) -> Local {
    match i {
        NetInitializer::Name { index } => Local::Name(index),
        NetInitializer::Agent { index, .. } => Local::Agent(index),
    }
}

/// Some initializer of a rule defines `l`.
pub open spec fn rule_defines(inits: Seq<RuleInitializer>, l: Local) -> bool {
    exists|k: int| 0 <= k < inits.len() && rule_init_defines(#[trigger] inits[k]) == l
}

/// Some initializer of a net defines `l`.
pub open spec fn net_defines(inits: Seq<NetInitializer>, l: Local) -> bool {
    exists|k: int| 0 <= k < inits.len() && net_init_defines(#[trigger] inits[k]) == l
}

/// Every register a rule's instruction reads or writes is defined by an
/// initializer, and every slot written is 1-based.
pub open spec fn rule_code_closed(inits: Seq<RuleInitializer>, instrs: Seq<RuleInstruction>) -> bool {
    forall|k: int|
        0 <= k < instrs.len() ==> match #[trigger] instrs[k] {
            RuleInstruction::SetSlot { target, slot, value } => target is Agent && slot >= 1
                && rule_defines(inits, target) && rule_defines(inits, value),
            RuleInstruction::PushEquation { left, right, .. } => rule_defines(inits, left)
                && rule_defines(inits, right),
            _ => true,
        }
}

/// Every register a net's instruction or output uses is defined by an
/// initializer, and every slot written is 1-based.
pub open spec fn net_code_closed(
    inits: Seq<NetInitializer>,
    instrs: Seq<NetInstruction>,
    outputs: Seq<Local>,
) -> bool {
    &&& forall|k: int|
        0 <= k < instrs.len() ==> match #[trigger] instrs[k] {
            NetInstruction::SetSlot { target, slot, value } => target is Agent && slot >= 1
                && net_defines(inits, target) && net_defines(inits, value),
            NetInstruction::PushEquation { left, right, .. } => net_defines(inits, left)
                && net_defines(inits, right),
        }
    &&& forall|k: int| 0 <= k < outputs.len() ==> net_defines(inits, #[trigger] outputs[k])
}

/// The arity of the agent an initializer provides, given the ids of the
/// rule's left and right arguments; 0 for an initializer of another kind
/// or an unknown id.
pub open spec fn rule_init_arity(i: RuleInitializer, agents: Seq<AgentMeta>, left: AgentId, right: AgentId) -> nat {
    let id = match i {
        RuleInitializer::Agent { id, .. } => id.0 as int,
        RuleInitializer::ReuseLeft { .. } => left.0 as int,
        RuleInitializer::ReuseRight { .. } => right.0 as int,
        _ => -1,
    };
    if 0 <= id < agents.len() {
        agents[id].arity as nat
    } else {
        0
    }
}

/// The arity of the agent a net initializer provides; 0 for a name.
pub open spec fn net_init_arity(i: NetInitializer, agents: Seq<AgentMeta>) -> nat {
    match i {
        NetInitializer::Agent { id, .. } => if id.0 < agents.len() {
            agents[id.0 as int].arity as nat
        } else {
            0
        },
        _ => 0,
    }
}

/// Every slot a rule writes lies within the arity of each agent that
/// initializes the target register.
pub open spec fn rule_slots_fit(
    inits: Seq<RuleInitializer>,
    instrs: Seq<RuleInstruction>,
    agents: Seq<AgentMeta>,
    left: AgentId,
    right: AgentId,
) -> bool {
    forall|k: int, j: int|
        0 <= k < instrs.len() && 0 <= j < inits.len() ==> match #[trigger] instrs[k] {
            RuleInstruction::SetSlot { target, slot, .. } => rule_init_defines(#[trigger] inits[j]) == target
                ==> slot <= rule_init_arity(inits[j], agents, left, right),
            _ => true,
        }
}

/// Every slot a net writes lies within the arity of each agent that
/// initializes the target register.
pub open spec fn net_slots_fit(inits: Seq<NetInitializer>, instrs: Seq<NetInstruction>, agents: Seq<AgentMeta>) -> bool {
    forall|k: int, j: int|
        0 <= k < instrs.len() && 0 <= j < inits.len() ==> match #[trigger] instrs[k] {
            NetInstruction::SetSlot { target, slot, .. } => net_init_defines(#[trigger] inits[j]) == target
                ==> slot <= net_init_arity(inits[j], agents),
            _ => true,
        }
}

/// Some net instruction writes slot `s` of agent register `j`.
pub open spec fn net_writes_slot(instrs: Seq<NetInstruction>, j: usize, s: int) -> bool {
    exists|k: int|
        0 <= k < instrs.len() && (#[trigger] instrs[k]) is SetSlot && instrs[k]->SetSlot_target == Local::Agent(j)
            && instrs[k]->SetSlot_slot == s
}

/// Some rule instruction writes slot `s` of agent register `j`.
pub open spec fn rule_writes_slot(instrs: Seq<RuleInstruction>, j: usize, s: int) -> bool {
    exists|k: int|
        0 <= k < instrs.len() && (#[trigger] instrs[k]) is SetSlot && instrs[k]->SetSlot_target == Local::Agent(j)
            && instrs[k]->SetSlot_slot == s
}

/// Every slot from 1 to `arity` of agent register `j` is written.
pub open spec fn net_agent_filled(instrs: Seq<NetInstruction>, j: usize, arity: nat) -> bool {
    forall|s: int| 1 <= s <= arity ==> #[trigger] net_writes_slot(instrs, j, s)
}

/// Every slot from 1 to `arity` of agent register `j` is written.
pub open spec fn rule_agent_filled(instrs: Seq<RuleInstruction>, j: usize, arity: nat) -> bool {
    forall|s: int| 1 <= s <= arity ==> #[trigger] rule_writes_slot(instrs, j, s)
}

/// Every agent a net allocates has each of its slots written.
pub open spec fn net_slots_complete(inits: Seq<NetInitializer>, instrs: Seq<NetInstruction>, agents: Seq<AgentMeta>) -> bool {
    forall|k: int|
        0 <= k < inits.len() && (#[trigger] inits[k]) is Agent ==> inits[k]->Agent_id.0 < agents.len()
            && net_agent_filled(instrs, inits[k]->Agent_index, net_init_arity(inits[k], agents))
}

/// Every agent register a rule initializes, freshly or by reuse, has each
/// of its slots written.
pub open spec fn rule_slots_complete(
    inits: Seq<RuleInitializer>,
    instrs: Seq<RuleInstruction>,
    agents: Seq<AgentMeta>,
    left: AgentId,
    right: AgentId,
) -> bool {
    forall|k: int|
        0 <= k < inits.len() && (#[trigger] rule_init_defines(inits[k])) is Agent ==> (inits[k] is Agent
            ==> inits[k]->Agent_id.0 < agents.len()) && rule_agent_filled(
            instrs,
            rule_init_defines(inits[k])->Agent_0,
            rule_init_arity(inits[k], agents, left, right),
        )
}

/// Each rule map entry is in canonical order and names the rule at its own
/// position, whose index field agrees.
pub open spec fn rule_map_canonical(p: Program) -> bool {
    &&& p.rule_map@.len() == p.rules@.len()
    &&& forall|i: int|
        0 <= i < p.rule_map@.len() ==> {
            let e = #[trigger] p.rule_map@[i];
            &&& e.0.0 <= e.1.0
            &&& e.2 == i
            &&& p.rules@[i].index == i
        }
}

} // verus!
