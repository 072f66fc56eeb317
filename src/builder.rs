//! Lowering of checked modules to the IR.

use vstd::prelude::*;

use crate::ast;
use crate::ir::{
    rule_code_closed, net_code_closed, rule_defines, net_defines, rule_init_defines,
    net_init_defines, rule_map_canonical, rule_slots_fit, net_slots_fit, rule_init_arity,
    net_init_arity, net_writes_slot, net_agent_filled, net_slots_complete, rule_slots_complete,
    rule_writes_slot, rule_agent_filled, AgentId, AgentMeta, Function, FunctionMeta, Local, NetInitializer,
    NetInstruction, Program, Rule, RuleInitializer, RuleInstruction,
};
use crate::text::{render_equation, render_rule};

verus! {

/// Why lowering fails.
pub enum BuildError {
    /// An agent symbol is used with two arities.
    AgentArityConflict { name: String, expected: usize, given: usize },
    /// Two nets are called `Main`.
    DuplicateMain,
    /// No net is called `Main`.
    NoEntryPoint,
}

/// The identifier of the indirection marker.
pub open spec fn indirection_ident() -> Seq<char> {
    seq!['$']
}

/// The position of the agent named `name`, if any.
pub open spec fn agent_index(agents: Seq<AgentMeta>, name: Seq<char>) -> Option<int> {
    if exists|i: int| 0 <= i < agents.len() && #[trigger] agents[i].name@ == name {
        Some(choose|i: int| 0 <= i < agents.len() && #[trigger] agents[i].name@ == name)
    } else {
        None
    }
}

/// An agent table: `$` of arity 1 first, and no symbol twice.
pub open spec fn agents_wf(agents: Seq<AgentMeta>) -> bool {
    &&& agents.len() >= 1
    &&& agents[0].name@ == indirection_ident()
    &&& agents[0].arity == 1
    &&& forall|i: int, j: int| 0 <= i < j < agents.len() ==> agents[i].name@ != agents[j].name@
}

/// The table holds `name` with arity `arity`.
pub open spec fn in_table(agents: Seq<AgentMeta>, name: Seq<char>, arity: nat) -> bool {
    exists|i: int| 0 <= i < agents.len() && #[trigger] agents[i].name@ == name && agents[i].arity == arity
}

/// Every agent of a term, nested ones included, is in the table with its
/// own number of arguments as arity.
pub open spec fn term_in_table(t: ast::Term, agents: Seq<AgentMeta>) -> bool
    decreases t,
{
    match t {
        ast::Term::Name(_) => true,
        ast::Term::Agent(a) => in_table(agents, a.name@, a.body@.len()) && forall|k: int|
            0 <= k < a.body@.len() ==> term_in_table(#[trigger] a.body@[k], agents),
    }
}

/// Some agent of the term, nested ones included, is `name` with `arity`
/// arguments.
pub open spec fn term_declares(t: ast::Term, name: Seq<char>, arity: nat) -> bool
    decreases t,
{
    match t {
        ast::Term::Name(_) => false,
        ast::Term::Agent(a) => (a.name@ == name && a.body@.len() == arity) || exists|k: int|
            0 <= k < a.body@.len() && term_declares(#[trigger] a.body@[k], name, arity),
    }
}

/// Every agent of both sides of an equation is in the table.
pub open spec fn equation_in_table(e: ast::Equation, agents: Seq<AgentMeta>) -> bool {
    term_in_table(e.left, agents) && term_in_table(e.right, agents)
}

/// Both heads and every agent of the body are in the table.
pub open spec fn rule_in_table(r: ast::Rule, agents: Seq<AgentMeta>) -> bool {
    &&& in_table(agents, r.left.agent@, r.left.body@.len())
    &&& in_table(agents, r.right.agent@, r.right.body@.len())
    &&& forall|k: int| 0 <= k < r.equations@.len() ==> equation_in_table(#[trigger] r.equations@[k], agents)
}

/// Every agent of the net's equations and interfaces is in the table.
pub open spec fn net_in_table(n: ast::Net, agents: Seq<AgentMeta>) -> bool {
    &&& forall|k: int| 0 <= k < n.equations@.len() ==> equation_in_table(#[trigger] n.equations@[k], agents)
    &&& forall|k: int| 0 <= k < n.interfaces@.len() ==> term_in_table(#[trigger] n.interfaces@[k], agents)
}

/// Every agent of the module is in the table with the arity it is used with.
pub open spec fn module_in_table(m: ast::Module, agents: Seq<AgentMeta>) -> bool {
    &&& forall|k: int| 0 <= k < m.rules@.len() ==> rule_in_table(#[trigger] m.rules@[k], agents)
    &&& forall|k: int| 0 <= k < m.nets@.len() ==> net_in_table(#[trigger] m.nets@[k], agents)
}

/// Some rule head or some agent of a rule body or net uses `name` with
/// `arity` arguments.
pub open spec fn module_declares(m: ast::Module, name: Seq<char>, arity: nat) -> bool {
    ||| exists|k: int| 0 <= k < m.rules@.len() && {
        let r = #[trigger] m.rules@[k];
        ||| (r.left.agent@ == name && r.left.body@.len() == arity)
        ||| (r.right.agent@ == name && r.right.body@.len() == arity)
        ||| exists|j: int| 0 <= j < r.equations@.len() && (term_declares(#[trigger] r.equations@[j].left, name, arity)
            || term_declares(r.equations@[j].right, name, arity))
    }
    ||| exists|k: int| 0 <= k < m.nets@.len() && {
        let n = #[trigger] m.nets@[k];
        ||| exists|j: int| 0 <= j < n.equations@.len() && (term_declares(#[trigger] n.equations@[j].left, name, arity)
            || term_declares(n.equations@[j].right, name, arity))
        ||| exists|j: int| 0 <= j < n.interfaces@.len() && term_declares(#[trigger] n.interfaces@[j], name, arity)
    }
}

/// An entry stays in a table that only grows at its end.
pub proof fn lemma_in_table_grow(a: Seq<AgentMeta>, b: Seq<AgentMeta>, name: Seq<char>, arity: nat)
    requires
        in_table(a, name, arity),
        b.len() >= a.len(),
        b.subrange(0, a.len() as int) == a,
    ensures
        in_table(b, name, arity),
{
    let i = choose|i: int| 0 <= i < a.len() && #[trigger] a[i].name@ == name && a[i].arity == arity;
    assert(b.subrange(0, a.len() as int)[i] == b[i]);
}

/// A term's agents stay in a table that only grows at its end.
pub proof fn lemma_term_in_table_grow(t: ast::Term, a: Seq<AgentMeta>, b: Seq<AgentMeta>)
    requires
        term_in_table(t, a),
        b.len() >= a.len(),
        b.subrange(0, a.len() as int) == a,
    ensures
        term_in_table(t, b),
    decreases t,
{
    match t {
        ast::Term::Name(_) => {},
        ast::Term::Agent(ag) => {
            lemma_in_table_grow(a, b, ag.name@, ag.body@.len());
            assert forall|k: int| 0 <= k < ag.body@.len() implies term_in_table(#[trigger] ag.body@[k], b) by {
                assert(decreases_to!(t => t->Agent_0));
                assert(decreases_to!(ag => ag.body));
                assert(decreases_to!(ag.body => ag.body@[k]));
                lemma_term_in_table_grow(ag.body@[k], a, b);
            }
        },
    }
}

/// A use of an agent in a term whose agents are all in the table has the
/// table's arity.
pub proof fn lemma_term_declares_in_table(t: ast::Term, agents: Seq<AgentMeta>, name: Seq<char>, arity: nat)
    requires
        term_in_table(t, agents),
        term_declares(t, name, arity),
    ensures
        in_table(agents, name, arity),
    decreases t,
{
    match t {
        ast::Term::Name(_) => {},
        ast::Term::Agent(ag) => {
            if !(ag.name@ == name && ag.body@.len() == arity) {
                let k = choose|k: int| 0 <= k < ag.body@.len() && term_declares(#[trigger] ag.body@[k], name, arity);
                assert(decreases_to!(t => t->Agent_0));
                assert(decreases_to!(ag => ag.body));
                assert(decreases_to!(ag.body => ag.body@[k]));
                lemma_term_declares_in_table(ag.body@[k], agents, name, arity);
            }
        },
    }
}

/// In a table without repeated symbols, a symbol has one arity.
pub proof fn lemma_table_arity_unique(agents: Seq<AgentMeta>, name: Seq<char>, a1: nat, a2: nat)
    requires
        agents_wf(agents),
        in_table(agents, name, a1),
        in_table(agents, name, a2),
    ensures
        a1 == a2,
{
    let i = choose|i: int| 0 <= i < agents.len() && #[trigger] agents[i].name@ == name && agents[i].arity == a1;
    let j = choose|j: int| 0 <= j < agents.len() && #[trigger] agents[j].name@ == name && agents[j].arity == a2;
    if i < j {
        assert(agents[i].name@ != agents[j].name@);
    } else if j < i {
        assert(agents[j].name@ != agents[i].name@);
    }
}

proof fn lemma_rule_in_table_grow(r: ast::Rule, a: Seq<AgentMeta>, b: Seq<AgentMeta>)
    requires
        rule_in_table(r, a),
        b.len() >= a.len(),
        b.subrange(0, a.len() as int) == a,
    ensures
        rule_in_table(r, b),
{
    lemma_in_table_grow(a, b, r.left.agent@, r.left.body@.len());
    lemma_in_table_grow(a, b, r.right.agent@, r.right.body@.len());
    assert forall|k: int| 0 <= k < r.equations@.len() implies equation_in_table(#[trigger] r.equations@[k], b) by {
        lemma_term_in_table_grow(r.equations@[k].left, a, b);
        lemma_term_in_table_grow(r.equations@[k].right, a, b);
    }
}

proof fn lemma_net_in_table_grow(n: ast::Net, a: Seq<AgentMeta>, b: Seq<AgentMeta>)
    requires
        net_in_table(n, a),
        b.len() >= a.len(),
        b.subrange(0, a.len() as int) == a,
    ensures
        net_in_table(n, b),
{
    assert forall|k: int| 0 <= k < n.equations@.len() implies equation_in_table(#[trigger] n.equations@[k], b) by {
        lemma_term_in_table_grow(n.equations@[k].left, a, b);
        lemma_term_in_table_grow(n.equations@[k].right, a, b);
    }
    assert forall|k: int| 0 <= k < n.interfaces@.len() implies term_in_table(#[trigger] n.interfaces@[k], b) by {
        lemma_term_in_table_grow(n.interfaces@[k], a, b);
    }
}

/// Two uses of one agent symbol in a module that was lowered into a
/// program have the same arity; a module where they differ fails to build
/// with an arity conflict instead.
pub proof fn lemma_arities_agree(m: ast::Module, agents: Seq<AgentMeta>, name: Seq<char>, a1: nat, a2: nat)
    requires
        agents_wf(agents),
        module_in_table(m, agents),
        module_declares(m, name, a1),
        module_declares(m, name, a2),
    ensures
        a1 == a2,
{
    lemma_module_declares_in_table(m, agents, name, a1);
    lemma_module_declares_in_table(m, agents, name, a2);
    lemma_table_arity_unique(agents, name, a1, a2);
}

proof fn lemma_module_declares_in_table(m: ast::Module, agents: Seq<AgentMeta>, name: Seq<char>, a: nat)
    requires
        module_in_table(m, agents),
        module_declares(m, name, a),
    ensures
        in_table(agents, name, a),
{
    if exists|k: int| 0 <= k < m.rules@.len() && {
        let r = #[trigger] m.rules@[k];
        ||| (r.left.agent@ == name && r.left.body@.len() == a)
        ||| (r.right.agent@ == name && r.right.body@.len() == a)
        ||| exists|j: int| 0 <= j < r.equations@.len() && (term_declares(#[trigger] r.equations@[j].left, name, a)
            || term_declares(r.equations@[j].right, name, a))
    } {
        let k = choose|k: int| 0 <= k < m.rules@.len() && {
            let r = #[trigger] m.rules@[k];
            ||| (r.left.agent@ == name && r.left.body@.len() == a)
            ||| (r.right.agent@ == name && r.right.body@.len() == a)
            ||| exists|j: int| 0 <= j < r.equations@.len() && (term_declares(#[trigger] r.equations@[j].left, name, a)
                || term_declares(r.equations@[j].right, name, a))
        };
        let r = m.rules@[k];
        assert(rule_in_table(r, agents));
        if !(r.left.agent@ == name && r.left.body@.len() == a) && !(r.right.agent@ == name && r.right.body@.len() == a) {
            let j = choose|j: int| 0 <= j < r.equations@.len() && (term_declares(#[trigger] r.equations@[j].left, name, a)
                || term_declares(r.equations@[j].right, name, a));
            assert(equation_in_table(r.equations@[j], agents));
            if term_declares(r.equations@[j].left, name, a) {
                lemma_term_declares_in_table(r.equations@[j].left, agents, name, a);
            } else {
                lemma_term_declares_in_table(r.equations@[j].right, agents, name, a);
            }
        }
    } else {
        let k = choose|k: int| 0 <= k < m.nets@.len() && {
            let n = #[trigger] m.nets@[k];
            ||| exists|j: int| 0 <= j < n.equations@.len() && (term_declares(#[trigger] n.equations@[j].left, name, a)
                || term_declares(n.equations@[j].right, name, a))
            ||| exists|j: int| 0 <= j < n.interfaces@.len() && term_declares(#[trigger] n.interfaces@[j], name, a)
        };
        let n = m.nets@[k];
        assert(net_in_table(n, agents));
        if exists|j: int| 0 <= j < n.equations@.len() && (term_declares(#[trigger] n.equations@[j].left, name, a)
            || term_declares(n.equations@[j].right, name, a)) {
            let j = choose|j: int| 0 <= j < n.equations@.len() && (term_declares(#[trigger] n.equations@[j].left, name, a)
                || term_declares(n.equations@[j].right, name, a));
            assert(equation_in_table(n.equations@[j], agents));
            if term_declares(n.equations@[j].left, name, a) {
                lemma_term_declares_in_table(n.equations@[j].left, agents, name, a);
            } else {
                lemma_term_declares_in_table(n.equations@[j].right, agents, name, a);
            }
        } else {
            let j = choose|j: int| 0 <= j < n.interfaces@.len() && term_declares(#[trigger] n.interfaces@[j], name, a);
            lemma_term_declares_in_table(n.interfaces@[j], agents, name, a);
        }
    }
}

proof fn lemma_init_arity_grow(i: RuleInitializer, a: Seq<AgentMeta>, b: Seq<AgentMeta>, l: AgentId, r: AgentId)
    requires
        b.len() >= a.len(),
        b.subrange(0, a.len() as int) == a,
    ensures
        rule_init_arity(i, a, l, r) > 0 ==> rule_init_arity(i, b, l, r) == rule_init_arity(i, a, l, r),
{
    let id = match i {
        RuleInitializer::Agent { id, .. } => id.0 as int,
        RuleInitializer::ReuseLeft { .. } => l.0 as int,
        RuleInitializer::ReuseRight { .. } => r.0 as int,
        _ => -1,
    };
    if 0 <= id < a.len() {
        assert(b.subrange(0, a.len() as int)[id] == b[id]);
    }
}

proof fn lemma_net_init_arity_grow(i: NetInitializer, a: Seq<AgentMeta>, b: Seq<AgentMeta>)
    requires
        b.len() >= a.len(),
        b.subrange(0, a.len() as int) == a,
    ensures
        net_init_arity(i, a) > 0 ==> net_init_arity(i, b) == net_init_arity(i, a),
{
    match i {
        NetInitializer::Agent { id, .. } => {
            if id.0 < a.len() {
                assert(b.subrange(0, a.len() as int)[id.0 as int] == b[id.0 as int]);
            }
        },
        _ => {},
    }
}

/// Slot writes stay when instructions are appended.
proof fn lemma_filled_grow(a: Seq<NetInstruction>, b: Seq<NetInstruction>, j: usize, arity: nat)
    requires
        net_agent_filled(a, j, arity),
        b.len() >= a.len(),
        b.subrange(0, a.len() as int) == a,
    ensures
        net_agent_filled(b, j, arity),
{
    assert forall|s: int| 1 <= s <= arity implies #[trigger] net_writes_slot(b, j, s) by {
        assert(net_writes_slot(a, j, s));
        let k = choose|k: int|
            0 <= k < a.len() && (#[trigger] a[k]) is SetSlot && a[k]->SetSlot_target == Local::Agent(j)
                && a[k]->SetSlot_slot == s;
        assert(b.subrange(0, a.len() as int)[k] == b[k]);
    }
}

/// A set of uses of agent symbols that gives each symbol one arity, and a
/// table that agrees with it on every symbol both hold.
pub open spec fn agrees(agents: Seq<AgentMeta>, allowed: Set<(Seq<char>, nat)>) -> bool {
    &&& forall|n: Seq<char>, a1: nat, a2: nat|
        #[trigger] allowed.contains((n, a1)) && #[trigger] allowed.contains((n, a2)) ==> a1 == a2
    &&& forall|i: int, a: nat|
        0 <= i < agents.len() && #[trigger] allowed.contains((agents[i].name@, a)) ==> agents[i].arity == a
}

/// Every use of an agent in the term is in `allowed`.
pub open spec fn term_uses_in(t: ast::Term, allowed: Set<(Seq<char>, nat)>) -> bool {
    forall|n: Seq<char>, a: nat| #[trigger] term_declares(t, n, a) ==> allowed.contains((n, a))
}

/// The uses of agents in a rule: both heads and every agent of the body.
pub open spec fn rule_declares(r: ast::Rule, name: Seq<char>, arity: nat) -> bool {
    ||| (r.left.agent@ == name && r.left.body@.len() == arity)
    ||| (r.right.agent@ == name && r.right.body@.len() == arity)
    ||| exists|j: int| 0 <= j < r.equations@.len() && (term_declares(#[trigger] r.equations@[j].left, name, arity)
        || term_declares(r.equations@[j].right, name, arity))
}

/// The uses of agents in a net: every agent of its equations and interfaces.
pub open spec fn net_declares(n: ast::Net, name: Seq<char>, arity: nat) -> bool {
    ||| exists|j: int| 0 <= j < n.equations@.len() && (term_declares(#[trigger] n.equations@[j].left, name, arity)
        || term_declares(n.equations@[j].right, name, arity))
    ||| exists|j: int| 0 <= j < n.interfaces@.len() && term_declares(#[trigger] n.interfaces@[j], name, arity)
}

/// The table agrees with the rule's uses of agents, and they agree among
/// themselves: lowering the rule meets no arity conflict.
pub open spec fn rule_fits(agents: Seq<AgentMeta>, r: ast::Rule) -> bool {
    agrees(agents, Set::new(|p: (Seq<char>, nat)| rule_declares(r, p.0, p.1)))
}

/// The table agrees with the net's uses of agents, and they agree among
/// themselves.
pub open spec fn net_fits(agents: Seq<AgentMeta>, n: ast::Net) -> bool {
    agrees(agents, Set::new(|p: (Seq<char>, nat)| net_declares(n, p.0, p.1)))
}

/// The table agrees with the module's uses of agents, and they agree among
/// themselves.
pub open spec fn module_fits(agents: Seq<AgentMeta>, m: ast::Module) -> bool {
    agrees(agents, Set::new(|p: (Seq<char>, nat)| module_declares(m, p.0, p.1)))
}

/// A table that grows by entries drawn from `allowed` keeps agreeing.
pub proof fn lemma_agrees_extend(a: Seq<AgentMeta>, b: Seq<AgentMeta>, allowed: Set<(Seq<char>, nat)>)
    requires
        agrees(a, allowed),
        b.len() >= a.len(),
        b.subrange(0, a.len() as int) == a,
        forall|k: int| a.len() <= k < b.len() ==> allowed.contains(((#[trigger] b[k]).name@, b[k].arity as nat)),
    ensures
        agrees(b, allowed),
{
    assert forall|i: int, x: nat|
        0 <= i < b.len() && #[trigger] allowed.contains((b[i].name@, x)) implies b[i].arity == x by {
        if i < a.len() {
            assert(b.subrange(0, a.len() as int)[i] == b[i]);
        } else {
            assert(allowed.contains((b[i].name@, b[i].arity as nat)));
        }
    }
}

/// Agreement with a set carries to any smaller set.
pub proof fn lemma_agrees_sub(agents: Seq<AgentMeta>, big: Set<(Seq<char>, nat)>, small: Set<(Seq<char>, nat)>)
    requires
        agrees(agents, big),
        small.subset_of(big),
    ensures
        agrees(agents, small),
{
    assert forall|n: Seq<char>, a1: nat, a2: nat|
        #[trigger] small.contains((n, a1)) && #[trigger] small.contains((n, a2)) implies a1 == a2 by {
        assert(big.contains((n, a1)) && big.contains((n, a2)));
    }
    assert forall|i: int, a: nat|
        0 <= i < agents.len() && #[trigger] small.contains((agents[i].name@, a)) implies agents[i].arity == a by {
        assert(big.contains((agents[i].name@, a)));
    }
}

/// The descriptions of the equations a net body pushes, in order.
pub open spec fn push_texts(s: Seq<NetInstruction>) -> Seq<Seq<char>>
    decreases s.len(),
{
    if s.len() == 0 {
        seq![]
    } else {
        match s.last() {
            NetInstruction::PushEquation { description, .. } => push_texts(s.drop_last()).push(description@),
            _ => push_texts(s.drop_last()),
        }
    }
}

/// The descriptions of the equations a rule body pushes, in order.
pub open spec fn rule_push_texts(s: Seq<RuleInstruction>) -> Seq<Seq<char>>
    decreases s.len(),
{
    if s.len() == 0 {
        seq![]
    } else {
        match s.last() {
            RuleInstruction::PushEquation { description, .. } => rule_push_texts(s.drop_last()).push(description@),
            _ => rule_push_texts(s.drop_last()),
        }
    }
}

/// The slot imports of canonical heads `l` and `r`: the left head's names
/// read slots 1, 2, ... of the left argument into the first slot
/// registers, then the right head's names those of the right argument.
pub open spec fn imports_heads(inits: Seq<RuleInitializer>, l: ast::RuleTerm, r: ast::RuleTerm) -> bool {
    &&& inits.len() >= l.body@.len() + r.body@.len()
    &&& forall|k: int| 0 <= k < l.body@.len() ==> #[trigger] inits[k] == RuleInitializer::SlotFromLeft {
        index: k as usize,
        slot: (k + 1) as usize,
    }
    &&& forall|k: int| 0 <= k < r.body@.len() ==> #[trigger] inits[l.body@.len() + k] == RuleInitializer::SlotFromRight {
        index: (l.body@.len() + k) as usize,
        slot: (k + 1) as usize,
    }
}

/// The first `nn` initializers allocate names 0, 1, ..., the rest agents
/// 0, 1, ... in order.
pub open spec fn names_then_agents(inits: Seq<NetInitializer>, nn: int) -> bool {
    0 <= nn <= inits.len() && forall|k: int|
        0 <= k < inits.len() ==> net_init_defines(#[trigger] inits[k]) == if k < nn {
            Local::Name(k as usize)
        } else {
            Local::Agent((k - nn) as usize)
        }
}

/// At most one net is called `Main`.
pub open spec fn main_at_most_once(nets: Seq<ast::Net>) -> bool {
    forall|i: int, j: int|
        0 <= i < nets.len() && 0 <= j < nets.len() && (#[trigger] nets[i]).name@ == crate::check::main_ident()
            && (#[trigger] nets[j]).name@ == crate::check::main_ident() ==> i == j
}

/// Every agent symbol of the module is used with one arity, and `$` only
/// with arity 1.
pub open spec fn module_arities_agree(m: ast::Module) -> bool {
    &&& forall|n: Seq<char>, a1: nat, a2: nat|
        #[trigger] module_declares(m, n, a1) && #[trigger] module_declares(m, n, a2) ==> a1 == a2
    &&& forall|a: nat| #[trigger] module_declares(m, indirection_ident(), a) ==> a == 1
}

/// Rule map entry `e` pairs the table's agents named by the two heads of
/// rule `r`, in either order.
pub open spec fn entry_matches(e: (AgentId, AgentId, usize), agents: Seq<AgentMeta>, r: ast::Rule) -> bool {
    &&& e.0.0 < agents.len()
    &&& e.1.0 < agents.len()
    &&& ((agents[e.0.0 as int].name@ == r.left.agent@ && agents[e.1.0 as int].name@ == r.right.agent@) || (
    agents[e.0.0 as int].name@ == r.right.agent@ && agents[e.1.0 as int].name@ == r.left.agent@))
}

/// No two rule map entries have the same pair of agents.
pub open spec fn rule_keys_unique(m: Seq<(AgentId, AgentId, usize)>) -> bool {
    forall|i: int, j: int|
        0 <= i < j < m.len() ==> !((#[trigger] m[i]).0 == (#[trigger] m[j]).0 && m[i].1 == m[j].1)
}

/// The uses of agents in an equation.
pub open spec fn equation_declares(e: ast::Equation, name: Seq<char>, arity: nat) -> bool {
    term_declares(e.left, name, arity) || term_declares(e.right, name, arity)
}

/// The interner of agent symbols.
pub struct GlobalBuilder {
    pub agents: Vec<AgentMeta>,
}

impl GlobalBuilder {
    /// The table is well formed.
    pub open spec fn wf(&self) -> bool {
        agents_wf(self.agents@)
    }

    /// A table that holds only `$`.
    pub fn new() -> (r: GlobalBuilder)
        ensures
            r.wf(),
            r.agents@.len() == 1,
    {
        let name = String::from_str("$");
        proof {
            reveal_strlit("$");
            assert(name@ =~= indirection_ident());
        }
        let mut agents = Vec::new();
        agents.push(AgentMeta::new(name, 1));
        GlobalBuilder { agents }
    }

    /// The id of `name` with arity `arity`, interning it on first sight. A
    /// symbol seen before with another arity is an arity conflict.
    pub fn add_or_get_agent(&mut self, name: &String, arity: usize) -> (r: Result<AgentId, BuildError>)
        requires
            old(self).wf(),
        ensures
            final(self).wf(),
            final(self).agents@.len() >= old(self).agents@.len(),
            final(self).agents@.subrange(0, old(self).agents@.len() as int) == old(self).agents@,
            r is Ok ==> r->Ok_0.0 < final(self).agents@.len() && final(self).agents@[r->Ok_0.0 as int].arity == arity
                && final(self).agents@[r->Ok_0.0 as int].name@ == name@,
            match agent_index(old(self).agents@, name@) {
                Some(i) => final(self).agents@ == old(self).agents@ && if old(self).agents@[i].arity == arity {
                    r == Ok::<AgentId, BuildError>(AgentId(i as usize))
                } else {
                    r is Err && r->Err_0 is AgentArityConflict
                },
                None => r == Ok::<AgentId, BuildError>(AgentId(old(self).agents@.len() as usize))
                    && final(self).agents@.len() == old(self).agents@.len() + 1
                    && final(self).agents@.drop_last() == old(self).agents@
                    && final(self).agents@.last().name@ == name@
                    && final(self).agents@.last().arity == arity,
            },
    {
        let mut i: usize = 0;
        while i < self.agents.len()
            invariant
                i <= self.agents@.len(),
                self.agents@ == old(self).agents@,
                self.wf(),
                forall|k: int| 0 <= k < i ==> #[trigger] self.agents@[k].name@ != name@,
            decreases self.agents@.len() - i,
        {
            if self.agents[i].name == *name {
                proof {
                    assert(self.agents@[i as int].name@ == name@);
                    let c = choose|c: int| 0 <= c < self.agents@.len() && #[trigger] self.agents@[c].name@ == name@;
                    if c < i {
                        assert(self.agents@[c].name@ != self.agents@[i as int].name@);
                    } else if c > i {
                        assert(self.agents@[i as int].name@ != self.agents@[c].name@);
                    }
                    assert(self.agents@.subrange(0, old(self).agents@.len() as int) =~= old(self).agents@);
                }
                let expected = self.agents[i].arity;
                if expected == arity {
                    return Ok(AgentId(i));
                } else {
                    return Err(BuildError::AgentArityConflict { name: name.clone(), expected, given: arity });
                }
            }
            i += 1;
        }
        let id = self.agents.len();
        self.agents.push(AgentMeta::new(name.clone(), arity));
        proof {
            assert(self.agents@.drop_last() =~= old(self).agents@);
            assert(self.agents@.subrange(0, old(self).agents@.len() as int) =~= old(self).agents@);
        }
        Ok(AgentId(id))
    }

    /// The interned agents, indexed by id.
    pub fn build(self) -> (r: Vec<AgentMeta>)
        ensures
            r@ == self.agents@,
    {
        self.agents
    }
}

enum ArgSlot {
    Left(usize),
    Right(usize),
}

/// The register file and code of a rule body or a net under construction.
struct BodyBuilder {
    arguments: Vec<(String, ArgSlot)>,
    names: Vec<String>,
    terms: Vec<AgentId>,
    instructions: Vec<NetInstruction>,
}

/// The first head argument bound to `name`, if any.
spec fn first_argument(args: Seq<(String, ArgSlot)>, name: Seq<char>) -> Option<int> {
    if exists|i: int| 0 <= i < args.len() && #[trigger] args[i].0@ == name && forall|k: int| 0 <= k < i ==> args[k].0@ != name {
        Some(choose|i: int| 0 <= i < args.len() && #[trigger] args[i].0@ == name && forall|k: int| 0 <= k < i ==> args[k].0@ != name)
    } else {
        None
    }
}

/// The first interned name equal to `name`, if any.
spec fn first_name(names: Seq<String>, name: Seq<char>) -> Option<int> {
    if exists|i: int| 0 <= i < names.len() && #[trigger] names[i]@ == name && forall|k: int| 0 <= k < i ==> names[k]@ != name {
        Some(choose|i: int| 0 <= i < names.len() && #[trigger] names[i]@ == name && forall|k: int| 0 <= k < i ==> names[k]@ != name)
    } else {
        None
    }
}

/// `l` names a register that exists in a body with these counts.
pub open spec fn in_range(l: Local, n_slots: nat, n_names: nat, n_agents: nat) -> bool {
    match l {
        Local::Slot(i) => i < n_slots,
        Local::Name(i) => i < n_names,
        Local::Agent(i) => i < n_agents,
    }
}

impl BodyBuilder {
    spec fn local_ok(&self, l: Local) -> bool {
        in_range(l, self.arguments@.len(), self.names@.len(), self.terms@.len())
    }

    /// Every agent register has a known id, every register used exists, and
    /// every slot written lies within the arity of its target.
    spec fn closed(&self, agents: Seq<AgentMeta>) -> bool {
        &&& forall|i: int| 0 <= i < self.terms@.len() ==> (#[trigger] self.terms@[i]).0 < agents.len()
        &&& forall|k: int|
            0 <= k < self.instructions@.len() ==> match #[trigger] self.instructions@[k] {
                NetInstruction::SetSlot { target, slot, value } => {
                    &&& target is Agent
                    &&& self.local_ok(target)
                    &&& 1 <= slot <= agents[self.terms@[target->Agent_0 as int].0 as int].arity
                    &&& self.local_ok(value)
                },
                NetInstruction::PushEquation { left, right, .. } => self.local_ok(left)
                    && self.local_ok(right),
            }
    }

    spec fn grows_from(&self, old: &BodyBuilder) -> bool {
        &&& self.arguments@ == old.arguments@
        &&& self.names@.len() >= old.names@.len()
        &&& self.terms@.len() >= old.terms@.len()
        &&& self.terms@.subrange(0, old.terms@.len() as int) == old.terms@
        &&& self.instructions@.len() >= old.instructions@.len()
        &&& self.instructions@.subrange(0, old.instructions@.len() as int) == old.instructions@
    }

    fn new() -> (r: BodyBuilder)
        ensures
            r.arguments@.len() == 0,
            r.names@.len() == 0,
            r.terms@.len() == 0,
            r.instructions@.len() == 0,
    {
        BodyBuilder { arguments: Vec::new(), names: Vec::new(), terms: Vec::new(), instructions: Vec::new() }
    }

    /// The register of a name: the argument slot it was bound to, else the
    /// name register interned for it.
    fn add_or_get_name(&mut self, name: &String) -> (r: Local)
        ensures
            final(self).arguments@ == old(self).arguments@,
            final(self).terms@ == old(self).terms@,
            final(self).instructions@ == old(self).instructions@,
            final(self).names@.len() >= old(self).names@.len(),
            final(self).local_ok(r),
            match first_argument(old(self).arguments@, name@) {
                Some(i) => r == Local::Slot(i as usize) && final(self).names@ == old(self).names@,
                None => match first_name(old(self).names@, name@) {
                    Some(j) => r == Local::Name(j as usize) && final(self).names@ == old(self).names@,
                    None => r == Local::Name(old(self).names@.len() as usize) && final(self).names@
                        == old(self).names@.push(*name),
                },
            },
    {
        let mut i: usize = 0;
        while i < self.arguments.len()
            invariant
                i <= self.arguments@.len(),
                forall|k: int| 0 <= k < i ==> self.arguments@[k].0@ != name@,
            decreases self.arguments@.len() - i,
        {
            if self.arguments[i].0 == *name {
                proof {
                    assert(self.arguments@[i as int].0@ == name@);
                    let c = choose|c: int| 0 <= c < self.arguments@.len() && #[trigger] self.arguments@[c].0@ == name@
                        && forall|k: int| 0 <= k < c ==> self.arguments@[k].0@ != name@;
                    if c < i {
                    } else if c > i {
                        assert(self.arguments@[i as int].0@ != name@);
                    }
                }
                return Local::Slot(i);
            }
            i += 1;
        }
        let mut i: usize = 0;
        while i < self.names.len()
            invariant
                i <= self.names@.len(),
                forall|k: int| 0 <= k < self.arguments@.len() ==> self.arguments@[k].0@ != name@,
                forall|k: int| 0 <= k < i ==> self.names@[k]@ != name@,
            decreases self.names@.len() - i,
        {
            if self.names[i] == *name {
                proof {
                    assert(self.names@[i as int]@ == name@);
                    let c = choose|c: int| 0 <= c < self.names@.len() && #[trigger] self.names@[c]@ == name@
                        && forall|k: int| 0 <= k < c ==> self.names@[k]@ != name@;
                    if c < i {
                    } else if c > i {
                        assert(self.names@[i as int]@ != name@);
                    }
                }
                return Local::Name(i);
            }
            i += 1;
        }
        let id = self.names.len();
        self.names.push(name.clone());
        Local::Name(id)
    }

    /// Lowers a term: a name to its register; an agent to a fresh agent
    /// register whose slots receive its lowered arguments, in order.
    #[verifier::rlimit(50)]
    fn term(&mut self, global: &mut GlobalBuilder, term: &ast::Term, Ghost(allowed): Ghost<Set<(Seq<char>, nat)>>) -> (r: Result<Local, BuildError>)
        requires
            old(global).wf(),
            old(self).closed(old(global).agents@),
        ensures
            r is Err ==> r->Err_0 is AgentArityConflict,
            forall|k: int|
                old(global).agents@.len() <= k < final(global).agents@.len() ==> term_declares(
                    *term,
                    (#[trigger] final(global).agents@[k]).name@,
                    final(global).agents@[k].arity as nat,
                ),
            agrees(old(global).agents@, allowed) && term_uses_in(*term, allowed) ==> r is Ok,
            r is Ok ==> push_texts(final(self).instructions@) == push_texts(old(self).instructions@),
            r is Ok && *term is Agent && term->Agent_0.body@.len() == 0 ==> r->Ok_0 == Local::Agent(old(self).terms@.len() as usize)
                && final(self).instructions@ == old(self).instructions@ && final(self).terms@.len() == old(self).terms@.len() + 1
                && final(self).terms@.last().0 < final(global).agents@.len()
                && final(global).agents@[final(self).terms@.last().0 as int].name@ == term->Agent_0.name@
                && final(global).agents@[final(self).terms@.last().0 as int].arity == 0,
            *term is Name && first_argument(old(self).arguments@, term->Name_0.ident()) is Some ==> r == Ok::<Local, BuildError>(
                Local::Slot(first_argument(old(self).arguments@, term->Name_0.ident())->Some_0 as usize)),
            final(global).wf(),
            final(global).agents@.len() >= old(global).agents@.len(),
            final(global).agents@.subrange(0, old(global).agents@.len() as int) == old(global).agents@,
            r is Ok ==> final(self).closed(final(global).agents@),
            r is Ok ==> final(self).grows_from(old(self)),
            r is Ok ==> final(self).local_ok(r->Ok_0),
            r is Ok ==> term_in_table(*term, final(global).agents@),
            r is Ok ==> forall|j: int|
                old(self).terms@.len() <= j < final(self).terms@.len() ==> net_agent_filled(
                    final(self).instructions@,
                    j as usize,
                    final(global).agents@[(#[trigger] final(self).terms@[j]).0 as int].arity as nat,
                ),
        decreases term,
    {
        match term {
            ast::Term::Name(name) => {
                let r = self.add_or_get_name(name.as_name());
                proof {
                    assert(self.terms@.subrange(0, old(self).terms@.len() as int) =~= old(self).terms@);
                    assert(self.instructions@.subrange(0, old(self).instructions@.len() as int) =~= old(self).instructions@);
                    assert(global.agents@.subrange(0, old(global).agents@.len() as int) =~= old(global).agents@);
                }
                Ok(r)
            },
            ast::Term::Agent(agent) => {
                let n = agent.body.len();
                let ghost pre = agrees(old(global).agents@, allowed) && term_uses_in(*term, allowed);
                proof {
                    assert(term_declares(*term, agent.name@, n as nat));
                    if pre {
                        assert(allowed.contains((agent.name@, n as nat)));
                        if agent_index(global.agents@, agent.name@) is Some {
                            let c = agent_index(global.agents@, agent.name@)->Some_0;
                            assert(global.agents@[c].name@ == agent.name@);
                            assert(global.agents@[c].arity == n);
                        }
                    }
                }
                let id = global.add_or_get_agent(&agent.name, n)?;
                let ghost agents1 = global.agents@;
                proof {
                    assert forall|k: int| old(global).agents@.len() <= k < agents1.len() implies term_declares(
                        *term,
                        (#[trigger] agents1[k]).name@,
                        agents1[k].arity as nat,
                    ) by {}
                    if pre {
                        lemma_agrees_extend(old(global).agents@, agents1, allowed);
                    }
                }
                proof {
                    self.lemma_closed_grow(old(global).agents@, agents1);
                }
                let index = self.terms.len();
                self.terms.push(id);
                let target = Local::Agent(index);
                proof {
                    assert(self.instructions@.subrange(0, old(self).instructions@.len() as int) =~= old(self).instructions@);
                    assert(in_table(agents1, agent.name@, n as nat)) by {
                        assert(agents1[id.0 as int].name@ == agent.name@);
                    }
                    assert(self.terms@.subrange(0, old(self).terms@.len() as int) =~= old(self).terms@);
                    assert(agents1[id.0 as int].arity == n);
                    assert forall|k: int| 0 <= k < self.instructions@.len() implies match #[trigger] self.instructions@[k] {
                        NetInstruction::SetSlot { target, slot, value } => {
                            &&& target is Agent
                            &&& self.local_ok(target)
                            &&& 1 <= slot <= agents1[self.terms@[target->Agent_0 as int].0 as int].arity
                            &&& self.local_ok(value)
                        },
                        NetInstruction::PushEquation { left, right, .. } => self.local_ok(left)
                            && self.local_ok(right),
                    } by {
                        match self.instructions@[k] {
                            NetInstruction::SetSlot { target, .. } => {
                                assert(self.terms@[target->Agent_0 as int] == old(self).terms@[target->Agent_0 as int]);
                            },
                            _ => {},
                        }
                    }
                }
                let mut i: usize = 0;
                while i < n
                    invariant
                        i <= n,
                        n == agent.body@.len(),
                        *term == ast::Term::Agent(*agent),
                        global.wf(),
                        global.agents@.len() >= agents1.len(),
                        global.agents@.subrange(0, agents1.len() as int) == agents1,
                        agents1.len() >= old(global).agents@.len(),
                        agents1.subrange(0, old(global).agents@.len() as int) == old(global).agents@,
                        id.0 < agents1.len(),
                        agents1[id.0 as int].arity == n,
                        self.closed(global.agents@),
                        self.grows_from(old(self)),
                        index < self.terms@.len(),
                        self.terms@[index as int] == id,
                        target == Local::Agent(index),
                        in_table(global.agents@, agent.name@, n as nat),
                        forall|k: int| 0 <= k < i ==> term_in_table(#[trigger] agent.body@[k], global.agents@),
                        index == old(self).terms@.len(),
                        forall|j: int|
                            index < j < self.terms@.len() ==> net_agent_filled(
                                self.instructions@,
                                j as usize,
                                global.agents@[(#[trigger] self.terms@[j]).0 as int].arity as nat,
                            ),
                        forall|q: int| 1 <= q <= i ==> #[trigger] net_writes_slot(self.instructions@, index, q),
                        forall|k: int|
                            old(global).agents@.len() <= k < global.agents@.len() ==> term_declares(
                                *term,
                                (#[trigger] global.agents@[k]).name@,
                                global.agents@[k].arity as nat,
                            ),
                        pre == (agrees(old(global).agents@, allowed) && term_uses_in(*term, allowed)),
                        pre ==> agrees(global.agents@, allowed),
                        push_texts(self.instructions@) == push_texts(old(self).instructions@),
                        i == 0 ==> self.instructions@ == old(self).instructions@ && self.terms@.len() == index + 1
                            && global.agents@ == agents1,
                    decreases n - i,
                {
                    proof {
                        assert(term->Agent_0 == *agent);
                        assert(decreases_to!(*term => term->Agent_0));
                        assert(decreases_to!(*agent => agent.body));
                        assert(decreases_to!(agent.body => agent.body@[i as int]));
                    }
                    let ghost before = *self;
                    let ghost agents_before = global.agents@;
                    proof {
                        if pre {
                            assert forall|nn: Seq<char>, aa: nat| #[trigger] term_declares(agent.body@[i as int], nn, aa) implies allowed.contains((nn, aa)) by {
                                assert(term_declares(*term, nn, aa));
                            }
                        }
                    }
                    let rv = self.term(global, &agent.body[i], Ghost(allowed));
                    proof {
                        assert forall|k: int| old(global).agents@.len() <= k < global.agents@.len() implies term_declares(
                            *term,
                            (#[trigger] global.agents@[k]).name@,
                            global.agents@[k].arity as nat,
                        ) by {
                            if k < agents_before.len() {
                                assert(global.agents@.subrange(0, agents_before.len() as int)[k] == global.agents@[k]);
                            } else {
                                assert(term_declares(agent.body@[i as int], global.agents@[k].name@, global.agents@[k].arity as nat));
                            }
                        }
                    }
                    let value = match rv {
                        Ok(v) => v,
                        Err(e) => return Err(e),
                    };
                    proof {
                        assert forall|k: int| old(global).agents@.len() <= k < global.agents@.len() implies term_declares(
                            *term,
                            (#[trigger] global.agents@[k]).name@,
                            global.agents@[k].arity as nat,
                        ) by {
                            if k < agents_before.len() {
                                assert(global.agents@.subrange(0, agents_before.len() as int)[k] == global.agents@[k]);
                            } else {
                                assert(term_declares(agent.body@[i as int], global.agents@[k].name@, global.agents@[k].arity as nat));
                            }
                        }
                        if pre {
                            assert forall|k: int| agents_before.len() <= k < global.agents@.len() implies allowed.contains(
                                ((#[trigger] global.agents@[k]).name@, global.agents@[k].arity as nat)) by {
                                assert(term_declares(agent.body@[i as int], global.agents@[k].name@, global.agents@[k].arity as nat));
                                assert(term_declares(*term, global.agents@[k].name@, global.agents@[k].arity as nat));
                            }
                            lemma_agrees_extend(agents_before, global.agents@, allowed);
                        }
                    }
                    let ghost mid = *self;
                    proof {
                        assert(before.terms@.subrange(0, old(self).terms@.len() as int) == old(self).terms@);
                        assert(self.terms@.subrange(0, before.terms@.len() as int) == before.terms@);
                        assert(self.terms@[index as int] == self.terms@.subrange(0, before.terms@.len() as int)[index as int]);
                        assert(self.terms@.subrange(0, old(self).terms@.len() as int) =~= old(self).terms@);
                        assert(global.agents@.subrange(0, agents_before.len() as int) == agents_before);
                        assert(global.agents@.subrange(0, agents1.len() as int) =~= agents1);
                        assert(global.agents@[id.0 as int] == global.agents@.subrange(0, agents1.len() as int)[id.0 as int]);
                        lemma_in_table_grow(agents_before, global.agents@, agent.name@, n as nat);
                        assert forall|k: int| 0 <= k < i + 1 implies term_in_table(#[trigger] agent.body@[k], global.agents@) by {
                            if k < i {
                                lemma_term_in_table_grow(agent.body@[k], agents_before, global.agents@);
                            }
                        }
                    }
                    self.instructions.push(NetInstruction::SetSlot { target, slot: i + 1, value });
                    proof {
                        assert(self.instructions@.drop_last() == mid.instructions@);
                        assert(before.instructions@.subrange(0, old(self).instructions@.len() as int) == old(self).instructions@);
                        assert(mid.instructions@.subrange(0, before.instructions@.len() as int) == before.instructions@);
                        assert(self.instructions@.subrange(0, old(self).instructions@.len() as int) =~= old(self).instructions@) by {
                            assert forall|q: int| 0 <= q < old(self).instructions@.len() implies self.instructions@[q] == old(self).instructions@[q] by {
                                assert(mid.instructions@.subrange(0, before.instructions@.len() as int)[q] == mid.instructions@[q]);
                                assert(before.instructions@.subrange(0, old(self).instructions@.len() as int)[q] == before.instructions@[q]);
                            }
                        }
                        assert(self.instructions@.subrange(0, before.instructions@.len() as int) =~= before.instructions@) by {
                            assert forall|q: int| 0 <= q < before.instructions@.len() implies self.instructions@[q] == before.instructions@[q] by {
                                assert(mid.instructions@.subrange(0, before.instructions@.len() as int)[q] == mid.instructions@[q]);
                            }
                        }
                        assert(self.instructions@.subrange(0, mid.instructions@.len() as int) =~= mid.instructions@);
                        let last = self.instructions@.len() - 1;
                        assert(self.instructions@[last] is SetSlot);
                        assert(net_writes_slot(self.instructions@, index, i + 1));
                        assert forall|q: int| 1 <= q <= i + 1 implies #[trigger] net_writes_slot(self.instructions@, index, q) by {
                            if q <= i {
                                assert(net_writes_slot(before.instructions@, index, q));
                                let w = choose|w: int|
                                    0 <= w < before.instructions@.len() && (#[trigger] before.instructions@[w]) is SetSlot
                                        && before.instructions@[w]->SetSlot_target == Local::Agent(index)
                                        && before.instructions@[w]->SetSlot_slot == q;
                                assert(self.instructions@.subrange(0, before.instructions@.len() as int)[w] == self.instructions@[w]);
                            }
                        }
                        assert forall|j: int|
                            index < j < self.terms@.len() implies net_agent_filled(
                                self.instructions@,
                                j as usize,
                                global.agents@[(#[trigger] self.terms@[j]).0 as int].arity as nat,
                            ) by {
                            if j < before.terms@.len() {
                                assert(self.terms@[j] == before.terms@[j]);
                                assert(before.terms@[j].0 < agents_before.len());
                                assert(global.agents@[before.terms@[j].0 as int] == agents_before[before.terms@[j].0 as int]) by {
                                    assert(global.agents@.subrange(0, agents_before.len() as int)[before.terms@[j].0 as int]
                                        == global.agents@[before.terms@[j].0 as int]);
                                }
                                lemma_filled_grow(before.instructions@, self.instructions@, j as usize,
                                    agents_before[before.terms@[j].0 as int].arity as nat);
                            } else {
                                lemma_filled_grow(mid.instructions@, self.instructions@, j as usize,
                                    global.agents@[self.terms@[j].0 as int].arity as nat);
                            }
                        }
                        assert forall|k: int| 0 <= k < self.instructions@.len() implies match #[trigger] self.instructions@[k] {
                            NetInstruction::SetSlot { target, slot, value } => {
                                &&& target is Agent
                                &&& self.local_ok(target)
                                &&& 1 <= slot <= global.agents@[self.terms@[target->Agent_0 as int].0 as int].arity
                                &&& self.local_ok(value)
                            },
                            NetInstruction::PushEquation { left, right, .. } => self.local_ok(left)
                                && self.local_ok(right),
                        } by {
                            if k < self.instructions@.len() - 1 {
                                assert(self.instructions@[k] == mid.instructions@[k]);
                            }
                        }
                    }
                    i += 1;
                }
                proof {
                    assert(global.agents@.subrange(0, old(global).agents@.len() as int) =~= old(global).agents@) by {
                        assert(global.agents@.subrange(0, agents1.len() as int) == agents1);
                    }
                }
                Ok(target)
            },
        }
    }

    /// Lowers both sides of an equation, then pushes it.
    #[verifier::rlimit(50)]
    fn equation(&mut self, global: &mut GlobalBuilder, equation: &ast::Equation, Ghost(allowed): Ghost<Set<(Seq<char>, nat)>>) -> (r: Result<(), BuildError>)
        requires
            old(global).wf(),
            old(self).closed(old(global).agents@),
        ensures
            r is Err ==> r->Err_0 is AgentArityConflict,
            forall|k: int|
                old(global).agents@.len() <= k < final(global).agents@.len() ==> equation_declares(
                    *equation,
                    (#[trigger] final(global).agents@[k]).name@,
                    final(global).agents@[k].arity as nat,
                ),
            agrees(old(global).agents@, allowed) && term_uses_in(equation.left, allowed) && term_uses_in(equation.right, allowed) ==> r is Ok,
            r is Ok ==> push_texts(final(self).instructions@) == push_texts(old(self).instructions@).push(crate::text::equation_text(*equation)),
            final(global).wf(),
            final(global).agents@.len() >= old(global).agents@.len(),
            final(global).agents@.subrange(0, old(global).agents@.len() as int) == old(global).agents@,
            r is Ok ==> final(self).closed(final(global).agents@),
            r is Ok ==> final(self).grows_from(old(self)),
            r is Ok ==> equation_in_table(*equation, final(global).agents@),
            r is Ok ==> forall|j: int|
                old(self).terms@.len() <= j < final(self).terms@.len() ==> net_agent_filled(
                    final(self).instructions@,
                    j as usize,
                    final(global).agents@[(#[trigger] final(self).terms@[j]).0 as int].arity as nat,
                ),
    {
        let description = render_equation(equation);
        let ghost a0 = global.agents@;
        let lr = self.term(global, &equation.left, Ghost(allowed));
        let ghost s1 = *self;
        let ghost a1 = global.agents@;
        let left = match lr {
            Ok(v) => v,
            Err(e) => return Err(e),
        };
        proof {
            if agrees(a0, allowed) && term_uses_in(equation.left, allowed) && term_uses_in(equation.right, allowed) {
                lemma_agrees_extend(a0, a1, allowed);
            }
        }
        let rr = self.term(global, &equation.right, Ghost(allowed));
        let ghost s2 = *self;
        proof {
            assert forall|k: int| a0.len() <= k < global.agents@.len() implies equation_declares(
                *equation,
                (#[trigger] global.agents@[k]).name@,
                global.agents@[k].arity as nat,
            ) by {
                if k < a1.len() {
                    assert(global.agents@.subrange(0, a1.len() as int)[k] == global.agents@[k]);
                    assert(term_declares(equation.left, a1[k].name@, a1[k].arity as nat));
                }
            }
        }
        let right = match rr {
            Ok(v) => v,
            Err(e) => return Err(e),
        };
        proof {
            assert(global.agents@.subrange(0, a1.len() as int) == a1);
            assert(global.agents@.subrange(0, a0.len() as int) =~= a0);
            assert(s2.terms@.subrange(0, s1.terms@.len() as int) == s1.terms@);
            assert(s2.terms@.subrange(0, old(self).terms@.len() as int) =~= old(self).terms@);
            lemma_term_in_table_grow(equation.left, a1, global.agents@);
        }
        self.instructions.push(NetInstruction::PushEquation { left, right, description });
        proof {
            assert(self.instructions@.drop_last() == s2.instructions@);
            assert(s1.instructions@.subrange(0, old(self).instructions@.len() as int) == old(self).instructions@);
            assert(s2.instructions@.subrange(0, s1.instructions@.len() as int) == s1.instructions@);
            assert(self.instructions@.subrange(0, old(self).instructions@.len() as int) =~= old(self).instructions@) by {
                assert forall|q: int| 0 <= q < old(self).instructions@.len() implies self.instructions@[q] == old(self).instructions@[q] by {
                    assert(s2.instructions@.subrange(0, s1.instructions@.len() as int)[q] == s2.instructions@[q]);
                    assert(s1.instructions@.subrange(0, old(self).instructions@.len() as int)[q] == s1.instructions@[q]);
                }
            }
            assert(self.instructions@.subrange(0, s2.instructions@.len() as int) =~= s2.instructions@);
            assert(self.instructions@.subrange(0, s1.instructions@.len() as int) =~= s1.instructions@) by {
                assert forall|q: int| 0 <= q < s1.instructions@.len() implies self.instructions@[q] == s1.instructions@[q] by {
                    assert(s2.instructions@.subrange(0, s1.instructions@.len() as int)[q] == s2.instructions@[q]);
                }
            }
            assert forall|j: int|
                old(self).terms@.len() <= j < self.terms@.len() implies net_agent_filled(
                    self.instructions@,
                    j as usize,
                    global.agents@[(#[trigger] self.terms@[j]).0 as int].arity as nat,
                ) by {
                if j < s1.terms@.len() {
                    assert(s2.terms@.subrange(0, s1.terms@.len() as int)[j] == s2.terms@[j]);
                    assert(s1.terms@[j].0 < a1.len());
                    assert(global.agents@.subrange(0, a1.len() as int)[s1.terms@[j].0 as int] == global.agents@[s1.terms@[j].0 as int]);
                    lemma_filled_grow(s1.instructions@, self.instructions@, j as usize, a1[s1.terms@[j].0 as int].arity as nat);
                } else {
                    lemma_filled_grow(s2.instructions@, self.instructions@, j as usize, global.agents@[self.terms@[j].0 as int].arity as nat);
                }
            }
            assert forall|k: int| 0 <= k < self.instructions@.len() implies match #[trigger] self.instructions@[k] {
                NetInstruction::SetSlot { target, slot, value } => {
                    &&& target is Agent
                    &&& self.local_ok(target)
                    &&& 1 <= slot <= global.agents@[self.terms@[target->Agent_0 as int].0 as int].arity
                    &&& self.local_ok(value)
                },
                NetInstruction::PushEquation { left, right, .. } => self.local_ok(left)
                    && self.local_ok(right),
            } by {
                if k < self.instructions@.len() - 1 {
                    assert(self.instructions@[k] == s2.instructions@[k]);
                }
            }
        }
        Ok(())
    }

    /// The initializers of a body: argument slots, then names, then agents,
    /// each kind numbered from 0 in order.
    fn initializers(&self) -> (r: Vec<RuleInitializer>)
        requires
            forall|i: int| 0 <= i < self.arguments@.len() ==> match (#[trigger] self.arguments@[i]).1 {
                ArgSlot::Left(s) => s >= 1,
                ArgSlot::Right(s) => s >= 1,
            },
        ensures
            forall|k: int| 0 <= k < self.arguments@.len() ==> #[trigger] r@[k] == match self.arguments@[k].1 {
                ArgSlot::Left(sl) => RuleInitializer::SlotFromLeft { index: k as usize, slot: sl },
                ArgSlot::Right(sl) => RuleInitializer::SlotFromRight { index: k as usize, slot: sl },
            },
            r@.len() == self.arguments@.len() + self.names@.len() + self.terms@.len(),
            forall|l: Local| #[trigger] self.local_ok(l) ==> rule_defines(r@, l),
            forall|k: int| 0 <= k < r@.len() ==> match #[trigger] r@[k] {
                RuleInitializer::Agent { id, index } => index < self.terms@.len() && id == self.terms@[index as int],
                RuleInitializer::SlotFromLeft { slot, .. } => slot >= 1,
                RuleInitializer::SlotFromRight { slot, .. } => slot >= 1,
                RuleInitializer::Name { .. } => true,
                _ => false,
            },
    {
        let ns = self.arguments.len();
        let nn = self.names.len();
        let na = self.terms.len();
        let mut r: Vec<RuleInitializer> = Vec::new();
        let mut i: usize = 0;
        while i < ns
            invariant
                i <= ns == self.arguments@.len(),
                r@.len() == i,
                forall|k: int| 0 <= k < i ==> #[trigger] r@[k] == match self.arguments@[k].1 {
                    ArgSlot::Left(sl) => RuleInitializer::SlotFromLeft { index: k as usize, slot: sl },
                    ArgSlot::Right(sl) => RuleInitializer::SlotFromRight { index: k as usize, slot: sl },
                },
                forall|k: int| 0 <= k < i ==> rule_init_defines(#[trigger] r@[k]) == Local::Slot(k as usize),
                forall|k: int| 0 <= k < r@.len() ==> match #[trigger] r@[k] {
                    RuleInitializer::SlotFromLeft { slot, .. } => slot >= 1,
                    RuleInitializer::SlotFromRight { slot, .. } => slot >= 1,
                    _ => false,
                },
                forall|i: int| 0 <= i < self.arguments@.len() ==> match (#[trigger] self.arguments@[i]).1 {
                    ArgSlot::Left(s) => s >= 1,
                    ArgSlot::Right(s) => s >= 1,
                },
            decreases ns - i,
        {
            match self.arguments[i].1 {
                ArgSlot::Left(slot) => r.push(RuleInitializer::SlotFromLeft { index: i, slot }),
                ArgSlot::Right(slot) => r.push(RuleInitializer::SlotFromRight { index: i, slot }),
            }
            i += 1;
        }
        let mut i: usize = 0;
        while i < nn
            invariant
                i <= nn == self.names@.len(),
                ns == self.arguments@.len(),
                r@.len() == ns + i,
                forall|k: int| 0 <= k < ns ==> #[trigger] r@[k] == match self.arguments@[k].1 {
                    ArgSlot::Left(sl) => RuleInitializer::SlotFromLeft { index: k as usize, slot: sl },
                    ArgSlot::Right(sl) => RuleInitializer::SlotFromRight { index: k as usize, slot: sl },
                },
                forall|k: int| 0 <= k < ns ==> rule_init_defines(#[trigger] r@[k]) == Local::Slot(k as usize),
                forall|k: int| ns <= k < ns + i ==> rule_init_defines(#[trigger] r@[k]) == Local::Name((k - ns) as usize),
                forall|k: int| 0 <= k < r@.len() ==> match #[trigger] r@[k] {
                    RuleInitializer::SlotFromLeft { slot, .. } => slot >= 1,
                    RuleInitializer::SlotFromRight { slot, .. } => slot >= 1,
                    RuleInitializer::Name { .. } => true,
                    _ => false,
                },
            decreases nn - i,
        {
            r.push(RuleInitializer::Name { index: i });
            i += 1;
        }
        let mut i: usize = 0;
        while i < na
            invariant
                i <= na == self.terms@.len(),
                ns == self.arguments@.len(),
                nn == self.names@.len(),
                r@.len() == ns + nn + i,
                forall|k: int| 0 <= k < ns ==> #[trigger] r@[k] == match self.arguments@[k].1 {
                    ArgSlot::Left(sl) => RuleInitializer::SlotFromLeft { index: k as usize, slot: sl },
                    ArgSlot::Right(sl) => RuleInitializer::SlotFromRight { index: k as usize, slot: sl },
                },
                forall|k: int| 0 <= k < ns ==> rule_init_defines(#[trigger] r@[k]) == Local::Slot(k as usize),
                forall|k: int| ns <= k < ns + nn ==> rule_init_defines(#[trigger] r@[k]) == Local::Name((k - ns) as usize),
                forall|k: int| ns + nn <= k < ns + nn + i ==> rule_init_defines(#[trigger] r@[k]) == Local::Agent((k - ns - nn) as usize),
                forall|k: int| 0 <= k < r@.len() ==> match #[trigger] r@[k] {
                    RuleInitializer::Agent { id, index } => index < self.terms@.len() && id == self.terms@[index as int],
                    RuleInitializer::SlotFromLeft { slot, .. } => slot >= 1,
                    RuleInitializer::SlotFromRight { slot, .. } => slot >= 1,
                    RuleInitializer::Name { .. } => true,
                    _ => false,
                },
            decreases na - i,
        {
            r.push(RuleInitializer::Agent { index: i, id: self.terms[i] });
            i += 1;
        }
        proof {
            assert forall|l: Local| #[trigger] self.local_ok(l) implies rule_defines(r@, l) by {
                match l {
                    Local::Slot(i) => {
                        assert(rule_init_defines(r@[i as int]) == l);
                    },
                    Local::Name(i) => {
                        assert(rule_init_defines(r@[ns + i]) == l);
                    },
                    Local::Agent(i) => {
                        assert(rule_init_defines(r@[ns + nn + i]) == l);
                    },
                }
            }
        }
        r
    }

    /// The initializers of a net body: names, then agents.
    fn net_initializers(&self) -> (r: Vec<NetInitializer>)
        requires
            self.arguments@.len() == 0,
        ensures
            forall|k: int| 0 <= k < r@.len() ==> net_init_defines(#[trigger] r@[k]) == if k < self.names@.len() {
                Local::Name(k as usize)
            } else {
                Local::Agent((k - self.names@.len()) as usize)
            },
            r@.len() == self.names@.len() + self.terms@.len(),
            forall|l: Local| #[trigger] self.local_ok(l) ==> net_defines(r@, l),
            forall|k: int| 0 <= k < r@.len() ==> match #[trigger] r@[k] {
                NetInitializer::Agent { id, index } => index < self.terms@.len() && id == self.terms@[index as int],
                NetInitializer::Name { .. } => true,
            },
    {
        let nn = self.names.len();
        let na = self.terms.len();
        let mut r: Vec<NetInitializer> = Vec::new();
        let mut i: usize = 0;
        while i < nn
            invariant
                i <= nn == self.names@.len(),
                r@.len() == i,
                forall|k: int| 0 <= k < i ==> net_init_defines(#[trigger] r@[k]) == Local::Name(k as usize),
                forall|k: int| 0 <= k < r@.len() ==> #[trigger] r@[k] is Name,
            decreases nn - i,
        {
            r.push(NetInitializer::Name { index: i });
            i += 1;
        }
        let mut i: usize = 0;
        while i < na
            invariant
                i <= na == self.terms@.len(),
                nn == self.names@.len(),
                r@.len() == nn + i,
                forall|k: int| 0 <= k < nn ==> net_init_defines(#[trigger] r@[k]) == Local::Name(k as usize),
                forall|k: int| nn <= k < nn + i ==> net_init_defines(#[trigger] r@[k]) == Local::Agent((k - nn) as usize),
                forall|k: int| 0 <= k < r@.len() ==> match #[trigger] r@[k] {
                    NetInitializer::Agent { id, index } => index < self.terms@.len() && id == self.terms@[index as int],
                    NetInitializer::Name { .. } => true,
                },
            decreases na - i,
        {
            r.push(NetInitializer::Agent { index: i, id: self.terms[i] });
            i += 1;
        }
        proof {
            assert forall|l: Local| #[trigger] self.local_ok(l) implies net_defines(r@, l) by {
                match l {
                    Local::Slot(i) => {},
                    Local::Name(i) => {
                        assert(net_init_defines(r@[i as int]) == l);
                    },
                    Local::Agent(i) => {
                        assert(net_init_defines(r@[nn + i]) == l);
                    },
                }
            }
        }
        r
    }

    /// The instructions of a rule body, followed by the release of both
    /// arguments.
    fn rule_instructions(&self, Ghost(agents): Ghost<Seq<AgentMeta>>) -> (r: Vec<RuleInstruction>)
        requires
            self.closed(agents),
        ensures
            r@.len() == self.instructions@.len() + 2,
            r@[r@.len() - 2] is FreeLeft,
            r@[r@.len() - 1] is FreeRight,
            rule_push_texts(r@) == push_texts(self.instructions@),
            forall|k: int| 0 <= k < self.instructions@.len() && (#[trigger] self.instructions@[k]) is SetSlot ==> r@[k] is SetSlot
                && r@[k]->SetSlot_target == self.instructions@[k]->SetSlot_target && r@[k]->SetSlot_slot == self.instructions@[k]->SetSlot_slot,
            forall|k: int| 0 <= k < r@.len() ==> match #[trigger] r@[k] {
                RuleInstruction::SetSlot { target, slot, value } => target is Agent && slot >= 1 && self.local_ok(target) && self.local_ok(value)
                    && slot <= agents[self.terms@[target->Agent_0 as int].0 as int].arity,
                RuleInstruction::PushEquation { left, right, .. } => self.local_ok(left) && self.local_ok(right),
                _ => k >= r@.len() - 2,
            },
    {
        let n = self.instructions.len();
        let mut r: Vec<RuleInstruction> = Vec::new();
        let mut i: usize = 0;
        while i < n
            invariant
                i <= n == self.instructions@.len(),
                r@.len() == i,
                self.closed(agents),
                forall|k: int| 0 <= k < r@.len() ==> match #[trigger] r@[k] {
                    RuleInstruction::SetSlot { target, slot, value } => target is Agent && slot >= 1 && self.local_ok(target) && self.local_ok(value)
                        && slot <= agents[self.terms@[target->Agent_0 as int].0 as int].arity,
                    RuleInstruction::PushEquation { left, right, .. } => self.local_ok(left) && self.local_ok(right),
                    _ => false,
                },
                forall|k: int| 0 <= k < i && (#[trigger] self.instructions@[k]) is SetSlot ==> r@[k] is SetSlot
                    && r@[k]->SetSlot_target == self.instructions@[k]->SetSlot_target && r@[k]->SetSlot_slot == self.instructions@[k]->SetSlot_slot,
                rule_push_texts(r@) == push_texts(self.instructions@.subrange(0, i as int)),
            decreases n - i,
        {
            proof {
                assert(self.instructions@.subrange(0, i + 1).drop_last() == self.instructions@.subrange(0, i as int));
            }
            let ghost r0 = r@;
            match &self.instructions[i] {
                NetInstruction::SetSlot { target, slot, value } => {
                    r.push(RuleInstruction::SetSlot { target: *target, slot: *slot, value: *value });
                },
                NetInstruction::PushEquation { left, right, description } => {
                    r.push(RuleInstruction::PushEquation { left: *left, right: *right, description: description.clone() });
                },
            }
            proof {
                assert(r@.drop_last() == r0);
                assert(rule_push_texts(r@) == push_texts(self.instructions@.subrange(0, i + 1)));
            }
            i += 1;
        }
        proof {
            assert(self.instructions@.subrange(0, n as int) == self.instructions@);
        }
        let ghost r1 = r@;
        r.push(RuleInstruction::FreeLeft);
        proof {
            assert(r@.drop_last() == r1);
        }
        let ghost r2 = r@;
        r.push(RuleInstruction::FreeRight);
        proof {
            assert(r@.drop_last() == r2);
            assert(rule_push_texts(r2) == rule_push_texts(r1));
            assert(rule_push_texts(r@) == rule_push_texts(r2));
        }
        r
    }

    /// Every agent register has each of its slots written.
    spec fn all_filled(&self, agents: Seq<AgentMeta>) -> bool {
        forall|j: int|
            0 <= j < self.terms@.len() ==> net_agent_filled(
                self.instructions@,
                j as usize,
                agents[(#[trigger] self.terms@[j]).0 as int].arity as nat,
            )
    }

    proof fn lemma_all_filled_step(&self, before: BodyBuilder, a: Seq<AgentMeta>, b: Seq<AgentMeta>)
        requires
            before.all_filled(a),
            before.closed(a),
            self.grows_from(&before),
            b.len() >= a.len(),
            b.subrange(0, a.len() as int) == a,
            forall|j: int|
                before.terms@.len() <= j < self.terms@.len() ==> net_agent_filled(
                    self.instructions@,
                    j as usize,
                    b[(#[trigger] self.terms@[j]).0 as int].arity as nat,
                ),
        ensures
            self.all_filled(b),
    {
        assert forall|j: int| 0 <= j < self.terms@.len() implies net_agent_filled(
            self.instructions@,
            j as usize,
            b[(#[trigger] self.terms@[j]).0 as int].arity as nat,
        ) by {
            if j < before.terms@.len() {
                assert(self.terms@.subrange(0, before.terms@.len() as int)[j] == self.terms@[j]);
                assert(before.terms@[j].0 < a.len());
                assert(b.subrange(0, a.len() as int)[before.terms@[j].0 as int] == b[before.terms@[j].0 as int]);
                lemma_filled_grow(before.instructions@, self.instructions@, j as usize, a[before.terms@[j].0 as int].arity as nat);
            }
        }
    }

    proof fn lemma_closed_grow(&self, a: Seq<AgentMeta>, b: Seq<AgentMeta>)
        requires
            self.closed(a),
            b.len() >= a.len(),
            b.subrange(0, a.len() as int) == a,
        ensures
            self.closed(b),
    {
        assert forall|i: int| 0 <= i < self.terms@.len() implies (#[trigger] self.terms@[i]).0 < b.len() by {}
        assert forall|k: int| 0 <= k < self.instructions@.len() implies match #[trigger] self.instructions@[k] {
            NetInstruction::SetSlot { target, slot, value } => {
                &&& target is Agent
                &&& self.local_ok(target)
                &&& 1 <= slot <= b[self.terms@[target->Agent_0 as int].0 as int].arity
                &&& self.local_ok(value)
            },
            NetInstruction::PushEquation { left, right, .. } => self.local_ok(left) && self.local_ok(right),
        } by {
            match self.instructions@[k] {
                NetInstruction::SetSlot { target, .. } => {
                    let j = self.terms@[target->Agent_0 as int].0 as int;
                    assert(b.subrange(0, a.len() as int)[j] == b[j]);
                },
                _ => {},
            }
        }
    }
}

/// The lowered rules and their dispatch entries.
pub struct RulesBuilder {
    pub rules: Vec<Rule>,
    pub rule_map: Vec<(AgentId, AgentId, usize)>,
}

impl RulesBuilder {
    /// Every entry is canonical and names its own rule, each rule's code
    /// uses only registers it initializes, and every agent id is interned.
    pub open spec fn wf(&self, agents: Seq<AgentMeta>) -> bool {
        &&& self.rule_map@.len() == self.rules@.len()
        &&& forall|i: int|
            0 <= i < self.rule_map@.len() ==> {
                let e = #[trigger] self.rule_map@[i];
                &&& e.0.0 <= e.1.0
                &&& e.1.0 < agents.len()
                &&& e.2 == i
                &&& self.rules@[i].index == i
                &&& rule_code_closed(self.rules@[i].initializers@, self.rules@[i].instructions@)
                &&& rule_slots_fit(self.rules@[i].initializers@, self.rules@[i].instructions@, agents, e.0, e.1)
                &&& rule_slots_complete(self.rules@[i].initializers@, self.rules@[i].instructions@, agents, e.0, e.1)
            }
    }

    /// No rules yet.
    pub fn new() -> (r: RulesBuilder)
        ensures
            r.rules@.len() == 0,
            r.rule_map@.len() == 0,
    {
        RulesBuilder { rules: Vec::new(), rule_map: Vec::new() }
    }

    /// Lowers a rule. Its heads are put in canonical order (the smaller
    /// agent id on the left); head arguments become slot registers, 1-based
    /// by position; the body's equations are lowered in order; both
    /// arguments are released at the end.
    #[verifier::rlimit(50)]
    pub fn rule(&mut self, global: &mut GlobalBuilder, rule: &ast::Rule) -> (r: Result<(), BuildError>)
        requires
            old(global).wf(),
            old(self).wf(old(global).agents@),
        ensures
            final(global).wf(),
            final(global).agents@.len() >= old(global).agents@.len(),
            final(global).agents@.subrange(0, old(global).agents@.len() as int) == old(global).agents@,
            r is Ok ==> final(self).wf(final(global).agents@),
            r is Ok ==> final(self).rules@.len() == old(self).rules@.len() + 1,
            r is Ok ==> rule_in_table(*rule, final(global).agents@),
            r is Ok && rule.left.agent@ == rule.right.agent@ ==> final(self).rule_map@.last().0 == final(self).rule_map@.last().1,
            r is Err ==> r->Err_0 is AgentArityConflict && final(self).rules@ == old(self).rules@
                && final(self).rule_map@ == old(self).rule_map@,
            forall|k: int|
                old(global).agents@.len() <= k < final(global).agents@.len() ==> rule_declares(
                    *rule,
                    (#[trigger] final(global).agents@[k]).name@,
                    final(global).agents@[k].arity as nat,
                ),
            rule_fits(old(global).agents@, *rule) ==> r is Ok,
            r is Ok ==> final(self).rules@.drop_last() == old(self).rules@,
            r is Ok ==> final(self).rules@.last().description@ == crate::text::rule_text(*rule),
            r is Ok ==> rule_push_texts(final(self).rules@.last().instructions@) == rule.equations@.map_values(
                |e: ast::Equation| crate::text::equation_text(e),
            ),
            r is Ok ==> exists|x: AgentId, y: AgentId| {
                &&& x.0 < final(global).agents@.len() && final(global).agents@[x.0 as int].name@ == rule.left.agent@
                &&& y.0 < final(global).agents@.len() && final(global).agents@[y.0 as int].name@ == rule.right.agent@
                &&& final(self).rule_map@ == old(self).rule_map@.push(
                    if x.0 <= y.0 { (x, y, old(self).rules@.len() as usize) } else { (y, x, old(self).rules@.len() as usize) },
                )
                &&& if x.0 <= y.0 {
                    imports_heads(final(self).rules@.last().initializers@, rule.left, rule.right)
                } else {
                    imports_heads(final(self).rules@.last().initializers@, rule.right, rule.left)
                }
            },
            r is Ok && rule.equations@.len() == 0 ==> {
                let code = final(self).rules@.last().instructions@;
                code.len() == 2 && code[0] is FreeLeft && code[1] is FreeRight
            },
            r is Ok && rule.equations@.len() == 0 ==> final(self).rules@.last().initializers@.len() == rule.left.body@.len()
                + rule.right.body@.len(),
            r is Ok ==> {
                let code = final(self).rules@.last().instructions@;
                &&& code.len() >= 2
                &&& code[code.len() - 2] is FreeLeft
                &&& code[code.len() - 1] is FreeRight
                &&& forall|k: int| 0 <= k < code.len() - 2 ==> !((#[trigger] code[k]) is FreeLeft || code[k] is FreeRight)
            },
    {
        let ghost allowed = Set::new(|p: (Seq<char>, nat)| rule_declares(*rule, p.0, p.1));
        let ghost pre = rule_fits(old(global).agents@, *rule);
        proof {
            assert(rule_declares(*rule, rule.left.agent@, rule.left.body@.len()));
            assert(rule_declares(*rule, rule.right.agent@, rule.right.body@.len()));
            if pre {
                assert(allowed.contains((rule.left.agent@, rule.left.body@.len())));
                if agent_index(global.agents@, rule.left.agent@) is Some {
                    let c = agent_index(global.agents@, rule.left.agent@)->Some_0;
                    assert(global.agents@[c].name@ == rule.left.agent@);
                }
            }
        }
        let a1 = global.add_or_get_agent(&rule.left.agent, rule.left.body.len())?;
        let ghost g1 = global.agents@;
        proof {
            if pre {
                lemma_agrees_extend(old(global).agents@, g1, allowed);
                assert(allowed.contains((rule.right.agent@, rule.right.body@.len())));
                if agent_index(g1, rule.right.agent@) is Some {
                    let c = agent_index(g1, rule.right.agent@)->Some_0;
                    assert(g1[c].name@ == rule.right.agent@);
                }
            }
        }
        let a2 = global.add_or_get_agent(&rule.right.agent, rule.right.body.len())?;
        proof {
            assert forall|k: int| old(global).agents@.len() <= k < global.agents@.len() implies rule_declares(
                *rule,
                (#[trigger] global.agents@[k]).name@,
                global.agents@[k].arity as nat,
            ) by {
                if k < g1.len() {
                    assert(global.agents@.subrange(0, g1.len() as int)[k] == global.agents@[k]);
                }
            }
            if pre {
                lemma_agrees_extend(g1, global.agents@, allowed);
            }
            assert(global.agents@.subrange(0, g1.len() as int) == g1);
        }
        let ghost g2 = global.agents@;
        proof {
            assert(global.agents@.subrange(0, g1.len() as int) == g1);
            assert(global.agents@.subrange(0, old(global).agents@.len() as int) =~= old(global).agents@);
            assert(in_table(g1, rule.left.agent@, rule.left.body@.len())) by {
                assert(g1[a1.0 as int].name@ == rule.left.agent@);
            }
            if rule.left.agent@ == rule.right.agent@ {
                assert(g1[a1.0 as int].name@ == rule.right.agent@);
                let c = choose|c: int| 0 <= c < g1.len() && #[trigger] g1[c].name@ == rule.right.agent@;
                if c < a1.0 {
                    assert(g1[c].name@ != g1[a1.0 as int].name@);
                } else if c > a1.0 {
                    assert(g1[a1.0 as int].name@ != g1[c].name@);
                }
                assert(a2 == a1);
            }
            lemma_in_table_grow(g1, global.agents@, rule.left.agent@, rule.left.body@.len());
            assert(in_table(global.agents@, rule.right.agent@, rule.right.body@.len())) by {
                assert(global.agents@[a2.0 as int].name@ == rule.right.agent@);
            }
        }
        let swap = a1.0 > a2.0;
        let (a_left, a_right) = if swap { (a2, a1) } else { (a1, a2) };
        let (term_left, term_right) = if swap { (&rule.right, &rule.left) } else { (&rule.left, &rule.right) };
        let mut body = BodyBuilder::new();
        let mut i: usize = 0;
        while i < term_left.body.len()
            invariant
                i <= term_left.body@.len(),
                body.arguments@.len() == i,
                forall|k: int| 0 <= k < i ==> (#[trigger] body.arguments@[k]).1 == ArgSlot::Left((k + 1) as usize),
                body.names@.len() == 0,
                body.terms@.len() == 0,
                body.instructions@.len() == 0,
                forall|k: int| 0 <= k < body.arguments@.len() ==> match (#[trigger] body.arguments@[k]).1 {
                    ArgSlot::Left(s) => s >= 1,
                    ArgSlot::Right(s) => s >= 1,
                },
            decreases term_left.body@.len() - i,
        {
            body.arguments.push((term_left.body[i].as_name().clone(), ArgSlot::Left(i + 1)));
            i += 1;
        }
        let mut i: usize = 0;
        while i < term_right.body.len()
            invariant
                i <= term_right.body@.len(),
                body.arguments@.len() == term_left.body@.len() + i,
                forall|k: int| 0 <= k < term_left.body@.len() ==> (#[trigger] body.arguments@[k]).1 == ArgSlot::Left((k + 1) as usize),
                forall|k: int| 0 <= k < i ==> (#[trigger] body.arguments@[term_left.body@.len() + k]).1 == ArgSlot::Right((k + 1) as usize),
                body.names@.len() == 0,
                body.terms@.len() == 0,
                body.instructions@.len() == 0,
                forall|k: int| 0 <= k < body.arguments@.len() ==> match (#[trigger] body.arguments@[k]).1 {
                    ArgSlot::Left(s) => s >= 1,
                    ArgSlot::Right(s) => s >= 1,
                },
            decreases term_right.body@.len() - i,
        {
            body.arguments.push((term_right.body[i].as_name().clone(), ArgSlot::Right(i + 1)));
            i += 1;
        }
        let ghost args = body.arguments@;
        let mut i: usize = 0;
        while i < rule.equations.len()
            invariant
                i <= rule.equations@.len(),
                global.wf(),
                global.agents@.len() >= old(global).agents@.len(),
                global.agents@.subrange(0, old(global).agents@.len() as int) == old(global).agents@,
                body.closed(global.agents@),
                body.arguments@ == args,
                a_right.0 < global.agents@.len(),
                forall|k: int| 0 <= k < body.arguments@.len() ==> match (#[trigger] body.arguments@[k]).1 {
                    ArgSlot::Left(s) => s >= 1,
                    ArgSlot::Right(s) => s >= 1,
                },
                in_table(global.agents@, rule.left.agent@, rule.left.body@.len()),
                in_table(global.agents@, rule.right.agent@, rule.right.body@.len()),
                forall|k: int| 0 <= k < i ==> equation_in_table(#[trigger] rule.equations@[k], global.agents@),
                i == 0 ==> body.instructions@.len() == 0,
                i == 0 ==> body.names@.len() == 0 && body.terms@.len() == 0,
                body.all_filled(global.agents@),
                forall|k: int|
                    old(global).agents@.len() <= k < global.agents@.len() ==> rule_declares(
                        *rule,
                        (#[trigger] global.agents@[k]).name@,
                        global.agents@[k].arity as nat,
                    ),
                pre == rule_fits(old(global).agents@, *rule),
                global.agents@.len() >= g2.len() >= g1.len(),
                global.agents@.subrange(0, g2.len() as int) == g2,
                g2.subrange(0, g1.len() as int) == g1,
                a1.0 < g1.len() && g1[a1.0 as int].name@ == rule.left.agent@,
                a2.0 < g2.len() && g2[a2.0 as int].name@ == rule.right.agent@,
                allowed == Set::new(|p: (Seq<char>, nat)| rule_declares(*rule, p.0, p.1)),
                pre ==> agrees(global.agents@, allowed),
                push_texts(body.instructions@) == rule.equations@.subrange(0, i as int).map_values(
                    |e: ast::Equation| crate::text::equation_text(e),
                ),
                *self == *old(self),
            decreases rule.equations@.len() - i,
        {
            let ghost g = global.agents@;
            let ghost b0 = body;
            proof {
                if pre {
                    assert forall|nn: Seq<char>, aa: nat| #[trigger] term_declares(rule.equations@[i as int].left, nn, aa) implies allowed.contains((nn, aa)) by {
                        assert(rule_declares(*rule, nn, aa));
                    }
                    assert forall|nn: Seq<char>, aa: nat| #[trigger] term_declares(rule.equations@[i as int].right, nn, aa) implies allowed.contains((nn, aa)) by {
                        assert(rule_declares(*rule, nn, aa));
                    }
                }
            }
            let er = body.equation(global, &rule.equations[i], Ghost(allowed));
            proof {
                assert forall|k: int| old(global).agents@.len() <= k < global.agents@.len() implies rule_declares(
                    *rule,
                    (#[trigger] global.agents@[k]).name@,
                    global.agents@[k].arity as nat,
                ) by {
                    if k < g.len() {
                        assert(global.agents@.subrange(0, g.len() as int)[k] == global.agents@[k]);
                    } else {
                        assert(equation_declares(rule.equations@[i as int], global.agents@[k].name@, global.agents@[k].arity as nat));
                    }
                }
            }
            if let Err(e) = er {
                return Err(e);
            }
            proof {
                if pre {
                    assert forall|k: int| g.len() <= k < global.agents@.len() implies allowed.contains(
                        ((#[trigger] global.agents@[k]).name@, global.agents@[k].arity as nat)) by {
                        assert(equation_declares(rule.equations@[i as int], global.agents@[k].name@, global.agents@[k].arity as nat));
                    }
                    lemma_agrees_extend(g, global.agents@, allowed);
                }
                assert(global.agents@.subrange(0, g.len() as int) == g);
                assert(global.agents@.subrange(0, g2.len() as int) =~= g2);
                assert(rule.equations@.subrange(0, i + 1).map_values(|e: ast::Equation| crate::text::equation_text(e))
                    =~= rule.equations@.subrange(0, i as int).map_values(|e: ast::Equation| crate::text::equation_text(e)).push(
                    crate::text::equation_text(rule.equations@[i as int])));
                body.lemma_all_filled_step(b0, g, global.agents@);
                assert(global.agents@.subrange(0, g.len() as int) == g);
                assert(global.agents@.subrange(0, old(global).agents@.len() as int) =~= old(global).agents@);
                lemma_in_table_grow(g, global.agents@, rule.left.agent@, rule.left.body@.len());
                lemma_in_table_grow(g, global.agents@, rule.right.agent@, rule.right.body@.len());
                assert forall|k: int| 0 <= k < i + 1 implies equation_in_table(#[trigger] rule.equations@[k], global.agents@) by {
                    if k < i {
                        lemma_term_in_table_grow(rule.equations@[k].left, g, global.agents@);
                        lemma_term_in_table_grow(rule.equations@[k].right, g, global.agents@);
                    }
                }
            }
            i += 1;
        }
        let initializers = body.initializers();
        let instructions = body.rule_instructions(Ghost(global.agents@));
        proof {
            assert forall|k: int| 0 <= k < instructions@.len() implies match #[trigger] instructions@[k] {
                RuleInstruction::SetSlot { target, slot, value } => target is Agent && slot >= 1
                    && rule_defines(initializers@, target) && rule_defines(initializers@, value),
                RuleInstruction::PushEquation { left, right, .. } => rule_defines(initializers@, left)
                    && rule_defines(initializers@, right),
                _ => true,
            } by {
                match instructions@[k] {
                    RuleInstruction::SetSlot { target, value, .. } => {
                        assert(body.local_ok(target));
                        assert(body.local_ok(value));
                    },
                    RuleInstruction::PushEquation { left, right, .. } => {
                        assert(body.local_ok(left));
                        assert(body.local_ok(right));
                    },
                    _ => {},
                }
            }
        }
        proof {
            assert forall|k: int, j: int| 0 <= k < instructions@.len() && 0 <= j < initializers@.len() implies match #[trigger] instructions@[k] {
                RuleInstruction::SetSlot { target, slot, .. } => rule_init_defines(#[trigger] initializers@[j]) == target
                    ==> slot <= rule_init_arity(initializers@[j], global.agents@, a_left, a_right),
                _ => true,
            } by {
                match instructions@[k] {
                    RuleInstruction::SetSlot { target, slot, .. } => {
                        if rule_init_defines(initializers@[j]) == target {
                            match initializers@[j] {
                                RuleInitializer::Agent { index, id } => {
                                    assert(id == body.terms@[index as int]);
                                },
                                _ => {},
                            }
                        }
                    },
                    _ => {},
                }
            }
        }
        proof {
            old(self).lemma_wf_grow(old(global).agents@, global.agents@);
            assert forall|k: int| 0 <= k < initializers@.len() && (#[trigger] rule_init_defines(initializers@[k])) is Agent implies
                (initializers@[k] is Agent ==> initializers@[k]->Agent_id.0 < global.agents@.len()) && rule_agent_filled(
                    instructions@,
                    rule_init_defines(initializers@[k])->Agent_0,
                    rule_init_arity(initializers@[k], global.agents@, a_left, a_right),
                ) by {
                let j = initializers@[k]->Agent_index as int;
                assert(initializers@[k] is Agent);
                assert(initializers@[k]->Agent_id == body.terms@[j]);
                let ar = global.agents@[body.terms@[j].0 as int].arity as nat;
                assert(net_agent_filled(body.instructions@, j as usize, ar));
                assert forall|q: int| 1 <= q <= ar implies #[trigger] rule_writes_slot(instructions@, j as usize, q) by {
                    assert(net_writes_slot(body.instructions@, j as usize, q));
                    let w = choose|w: int|
                        0 <= w < body.instructions@.len() && (#[trigger] body.instructions@[w]) is SetSlot
                            && body.instructions@[w]->SetSlot_target == Local::Agent(j as usize)
                            && body.instructions@[w]->SetSlot_slot == q;
                    assert(instructions@[w] is SetSlot);
                }
            }
        }
        proof {
            assert(rule.equations@.subrange(0, rule.equations@.len() as int) == rule.equations@);
        }
        proof {
            assert forall|k: int| 0 <= k < instructions@.len() - 2 implies !((#[trigger] instructions@[k]) is FreeLeft || instructions@[k] is FreeRight) by {
                match instructions@[k] {
                    RuleInstruction::SetSlot { .. } => {},
                    RuleInstruction::PushEquation { .. } => {},
                    _ => {},
                }
            }
        }
        let ghost code = instructions@;
        let index = self.rules.len();
        let ghost before = *self;
        self.rules.push(Rule { index, description: render_rule(rule), initializers, instructions });
        self.rule_map.push((a_left, a_right, index));
        proof {
            assert(self.rules@.drop_last() =~= old(self).rules@);
            assert(self.rule_map@ == old(self).rule_map@.push(
                if a1.0 <= a2.0 { (a1, a2, old(self).rules@.len() as usize) } else { (a2, a1, old(self).rules@.len() as usize) }));
            if a1.0 <= a2.0 {
                assert(imports_heads(initializers@, rule.left, rule.right));
            } else {
                assert(imports_heads(initializers@, rule.right, rule.left));
            }
            assert(global.agents@[a1.0 as int].name@ == rule.left.agent@) by {
                assert(g2.subrange(0, g1.len() as int)[a1.0 as int] == g2[a1.0 as int]);
                assert(global.agents@.subrange(0, g2.len() as int)[a1.0 as int] == global.agents@[a1.0 as int]);
            }
            assert(global.agents@[a2.0 as int].name@ == rule.right.agent@) by {
                assert(global.agents@.subrange(0, g2.len() as int)[a2.0 as int] == global.agents@[a2.0 as int]);
            }
        }
        proof {
            assert forall|i: int| 0 <= i < self.rule_map@.len() implies {
                let e = #[trigger] self.rule_map@[i];
                &&& e.0.0 <= e.1.0
                &&& e.1.0 < global.agents@.len()
                &&& e.2 == i
                &&& self.rules@[i].index == i
                &&& rule_code_closed(self.rules@[i].initializers@, self.rules@[i].instructions@)
                &&& rule_slots_fit(self.rules@[i].initializers@, self.rules@[i].instructions@, global.agents@, e.0, e.1)
                &&& rule_slots_complete(self.rules@[i].initializers@, self.rules@[i].instructions@, global.agents@, e.0, e.1)
            } by {
                if i < before.rule_map@.len() {
                    assert(self.rule_map@[i] == before.rule_map@[i]);
                    assert(self.rules@[i] == before.rules@[i]);
                }
            }
        }
        Ok(())
    }
}

/// The lowered nets.
pub struct FunctionsBuilder {
    pub functions: Vec<Function>,
    pub function_meta: Vec<FunctionMeta>,
    pub entry_point: Option<usize>,
}

/// Exactly the function at `e` is called `Main`.
pub open spec fn only_main_at(meta: Seq<FunctionMeta>, e: int) -> bool {
    &&& 0 <= e < meta.len()
    &&& meta[e].name@ == crate::check::main_ident()
    &&& forall|j: int| 0 <= j < meta.len() && j != e ==> (#[trigger] meta[j]).name@ != crate::check::main_ident()
}

impl FunctionsBuilder {
    /// Each function sits at its index, has as many outputs as its metadata
    /// says, uses only registers it initializes; the entry point is the one
    /// function called `Main`, if any is.
    pub open spec fn wf(&self) -> bool {
        &&& self.functions@.len() == self.function_meta@.len()
        &&& forall|i: int|
            0 <= i < self.functions@.len() ==> {
                let f = #[trigger] self.functions@[i];
                &&& f.index == i
                &&& f.outputs@.len() == self.function_meta@[i].output_count
                &&& net_code_closed(f.initializers@, f.instructions@, f.outputs@)
            }
        &&& match self.entry_point {
            Some(e) => only_main_at(self.function_meta@, e as int),
            None => forall|j: int| 0 <= j < self.function_meta@.len() ==> (#[trigger] self.function_meta@[j]).name@ != crate::check::main_ident(),
        }
    }

    /// Every slot a function writes lies within its target's arity.
    pub open spec fn slots_fit(&self, agents: Seq<AgentMeta>) -> bool {
        forall|i: int|
            0 <= i < self.functions@.len() ==> net_slots_fit(
                (#[trigger] self.functions@[i]).initializers@,
                self.functions@[i].instructions@,
                agents,
            ) && net_slots_complete(self.functions@[i].initializers@, self.functions@[i].instructions@, agents)
    }

    proof fn lemma_slots_fit_grow(&self, a: Seq<AgentMeta>, b: Seq<AgentMeta>)
        requires
            self.slots_fit(a),
            self.wf(),
            b.len() >= a.len(),
            b.subrange(0, a.len() as int) == a,
        ensures
            self.slots_fit(b),
    {
        assert forall|i: int| 0 <= i < self.functions@.len() implies net_slots_fit(
            (#[trigger] self.functions@[i]).initializers@,
            self.functions@[i].instructions@,
            b,
        ) && net_slots_complete(self.functions@[i].initializers@, self.functions@[i].instructions@, b) by {
            let f = self.functions@[i];
            assert forall|k: int| 0 <= k < f.initializers@.len() && (#[trigger] f.initializers@[k]) is Agent implies
                f.initializers@[k]->Agent_id.0 < b.len() && net_agent_filled(
                    f.instructions@, f.initializers@[k]->Agent_index, net_init_arity(f.initializers@[k], b)) by {
                assert(net_slots_complete(f.initializers@, f.instructions@, a));
                let id = f.initializers@[k]->Agent_id.0 as int;
                assert(b.subrange(0, a.len() as int)[id] == b[id]);
            }
            assert forall|k: int, j: int| 0 <= k < f.instructions@.len() && 0 <= j < f.initializers@.len() implies match #[trigger] f.instructions@[k] {
                NetInstruction::SetSlot { target, slot, .. } => net_init_defines(#[trigger] f.initializers@[j]) == target
                    ==> slot <= net_init_arity(f.initializers@[j], b),
                _ => true,
            } by {
                match f.instructions@[k] {
                    NetInstruction::SetSlot { target, slot, .. } => {
                        if net_init_defines(f.initializers@[j]) == target {
                            assert(slot <= net_init_arity(f.initializers@[j], a));
                            lemma_net_init_arity_grow(f.initializers@[j], a, b);
                        }
                    },
                    _ => {},
                }
            }
        }
    }

    /// No functions and no entry point yet.
    pub fn new() -> (r: FunctionsBuilder)
        ensures
            r.wf(),
            r.functions@.len() == 0,
            r.entry_point is None,
    {
        FunctionsBuilder { functions: Vec::new(), function_meta: Vec::new(), entry_point: None }
    }

    /// Lowers a net: its equations in order, then its interfaces, whose
    /// registers become the outputs. A second net called `Main` is an error.
    #[verifier::rlimit(50)]
    pub fn function(&mut self, global: &mut GlobalBuilder, function: &ast::Net) -> (r: Result<(), BuildError>)
        requires
            old(global).wf(),
            old(self).wf(),
            old(self).slots_fit(old(global).agents@),
        ensures
            r is Ok ==> final(self).slots_fit(final(global).agents@),
            final(global).wf(),
            final(global).agents@.len() >= old(global).agents@.len(),
            final(global).agents@.subrange(0, old(global).agents@.len() as int) == old(global).agents@,
            r is Ok ==> final(self).wf(),
            r is Ok ==> final(self).functions@.len() == old(self).functions@.len() + 1,
            r is Ok ==> final(self).functions@.last().outputs@.len() == function.interfaces@.len(),
            r is Ok ==> final(self).functions@.subrange(0, old(self).functions@.len() as int) == old(self).functions@,
            r is Ok ==> final(self).function_meta@.last().name@ == function.name@,
            r is Ok ==> final(self).function_meta@.subrange(0, old(self).function_meta@.len() as int) == old(self).function_meta@,
            r is Ok ==> net_in_table(*function, final(global).agents@),
            (old(self).entry_point is Some && function.name@ == crate::check::main_ident()) ==> r == Err::<(), BuildError>(BuildError::DuplicateMain),
            r is Err ==> *final(self) == *old(self) && (r->Err_0 is AgentArityConflict || (r->Err_0 is DuplicateMain
                && old(self).entry_point is Some && function.name@ == crate::check::main_ident())),
            forall|k: int|
                old(global).agents@.len() <= k < final(global).agents@.len() ==> net_declares(
                    *function,
                    (#[trigger] final(global).agents@[k]).name@,
                    final(global).agents@[k].arity as nat,
                ),
            net_fits(old(global).agents@, *function) && !(old(self).entry_point is Some && function.name@
                == crate::check::main_ident()) ==> r is Ok,
            r is Ok ==> push_texts(final(self).functions@.last().instructions@) == function.equations@.map_values(
                |e: ast::Equation| crate::text::equation_text(e),
            ),
            r is Ok ==> exists|nn: int| #[trigger] names_then_agents(final(self).functions@.last().initializers@, nn),
            r is Ok ==> (final(self).entry_point is Some <==> (old(self).entry_point is Some || function.name@
                == crate::check::main_ident())),
    {
        let ghost allowed = Set::new(|p: (Seq<char>, nat)| net_declares(*function, p.0, p.1));
        let ghost pre = net_fits(old(global).agents@, *function);
        let is_main = crate::check::is_main(&function.name);
        if is_main && self.entry_point.is_some() {
            return Err(BuildError::DuplicateMain);
        }
        let mut body = BodyBuilder::new();
        let mut i: usize = 0;
        while i < function.equations.len()
            invariant
                i <= function.equations@.len(),
                global.wf(),
                global.agents@.len() >= old(global).agents@.len(),
                global.agents@.subrange(0, old(global).agents@.len() as int) == old(global).agents@,
                body.closed(global.agents@),
                body.arguments@.len() == 0,
                *self == *old(self),
                is_main == (function.name@ == crate::check::main_ident()),
                !(is_main && self.entry_point is Some),
                forall|k: int| 0 <= k < i ==> equation_in_table(#[trigger] function.equations@[k], global.agents@),
                body.all_filled(global.agents@),
                forall|k: int|
                    old(global).agents@.len() <= k < global.agents@.len() ==> net_declares(
                        *function,
                        (#[trigger] global.agents@[k]).name@,
                        global.agents@[k].arity as nat,
                    ),
                pre == net_fits(old(global).agents@, *function),
                allowed == Set::new(|p: (Seq<char>, nat)| net_declares(*function, p.0, p.1)),
                pre ==> agrees(global.agents@, allowed),
                push_texts(body.instructions@) == function.equations@.subrange(0, i as int).map_values(
                    |e: ast::Equation| crate::text::equation_text(e),
                ),
            decreases function.equations@.len() - i,
        {
            let ghost g = global.agents@;
            let ghost b0 = body;
            proof {
                if pre {
                    assert forall|nn: Seq<char>, aa: nat| #[trigger] term_declares(function.equations@[i as int].left, nn, aa) implies allowed.contains((nn, aa)) by {
                        assert(net_declares(*function, nn, aa));
                    }
                    assert forall|nn: Seq<char>, aa: nat| #[trigger] term_declares(function.equations@[i as int].right, nn, aa) implies allowed.contains((nn, aa)) by {
                        assert(net_declares(*function, nn, aa));
                    }
                }
            }
            let er = body.equation(global, &function.equations[i], Ghost(allowed));
            proof {
                assert forall|k: int| old(global).agents@.len() <= k < global.agents@.len() implies net_declares(
                    *function,
                    (#[trigger] global.agents@[k]).name@,
                    global.agents@[k].arity as nat,
                ) by {
                    if k < g.len() {
                        assert(global.agents@.subrange(0, g.len() as int)[k] == global.agents@[k]);
                    } else {
                        assert(equation_declares(function.equations@[i as int], global.agents@[k].name@, global.agents@[k].arity as nat));
                    }
                }
            }
            if let Err(e) = er {
                return Err(e);
            }
            proof {
                if pre {
                    assert forall|k: int| g.len() <= k < global.agents@.len() implies allowed.contains(
                        ((#[trigger] global.agents@[k]).name@, global.agents@[k].arity as nat)) by {
                        assert(equation_declares(function.equations@[i as int], global.agents@[k].name@, global.agents@[k].arity as nat));
                    }
                    lemma_agrees_extend(g, global.agents@, allowed);
                }
                assert(function.equations@.subrange(0, i + 1).map_values(|e: ast::Equation| crate::text::equation_text(e))
                    =~= function.equations@.subrange(0, i as int).map_values(|e: ast::Equation| crate::text::equation_text(e)).push(
                    crate::text::equation_text(function.equations@[i as int])));
                body.lemma_all_filled_step(b0, g, global.agents@);
                assert(global.agents@.subrange(0, g.len() as int) == g);
                assert(global.agents@.subrange(0, old(global).agents@.len() as int) =~= old(global).agents@);
                assert forall|k: int| 0 <= k < i + 1 implies equation_in_table(#[trigger] function.equations@[k], global.agents@) by {
                    if k < i {
                        lemma_term_in_table_grow(function.equations@[k].left, g, global.agents@);
                        lemma_term_in_table_grow(function.equations@[k].right, g, global.agents@);
                    }
                }
            }
            i += 1;
        }
        let mut outputs: Vec<Local> = Vec::new();
        let mut i: usize = 0;
        while i < function.interfaces.len()
            invariant
                i <= function.interfaces@.len(),
                outputs@.len() == i,
                global.wf(),
                global.agents@.len() >= old(global).agents@.len(),
                global.agents@.subrange(0, old(global).agents@.len() as int) == old(global).agents@,
                body.closed(global.agents@),
                body.arguments@.len() == 0,
                *self == *old(self),
                is_main == (function.name@ == crate::check::main_ident()),
                !(is_main && self.entry_point is Some),
                forall|k: int| 0 <= k < outputs@.len() ==> body.local_ok(#[trigger] outputs@[k]),
                forall|k: int| 0 <= k < function.equations@.len() ==> equation_in_table(#[trigger] function.equations@[k], global.agents@),
                forall|k: int| 0 <= k < i ==> term_in_table(#[trigger] function.interfaces@[k], global.agents@),
                body.all_filled(global.agents@),
                forall|k: int|
                    old(global).agents@.len() <= k < global.agents@.len() ==> net_declares(
                        *function,
                        (#[trigger] global.agents@[k]).name@,
                        global.agents@[k].arity as nat,
                    ),
                pre == net_fits(old(global).agents@, *function),
                allowed == Set::new(|p: (Seq<char>, nat)| net_declares(*function, p.0, p.1)),
                pre ==> agrees(global.agents@, allowed),
                push_texts(body.instructions@) == function.equations@.map_values(
                    |e: ast::Equation| crate::text::equation_text(e),
                ),
            decreases function.interfaces@.len() - i,
        {
            let ghost g = global.agents@;
            let ghost b = body;
            proof {
                if pre {
                    assert forall|nn: Seq<char>, aa: nat| #[trigger] term_declares(function.interfaces@[i as int], nn, aa) implies allowed.contains((nn, aa)) by {
                        assert(net_declares(*function, nn, aa));
                    }
                }
            }
            let lr = body.term(global, &function.interfaces[i], Ghost(allowed));
            proof {
                assert forall|k: int| old(global).agents@.len() <= k < global.agents@.len() implies net_declares(
                    *function,
                    (#[trigger] global.agents@[k]).name@,
                    global.agents@[k].arity as nat,
                ) by {
                    if k < g.len() {
                        assert(global.agents@.subrange(0, g.len() as int)[k] == global.agents@[k]);
                    } else {
                        assert(term_declares(function.interfaces@[i as int], global.agents@[k].name@, global.agents@[k].arity as nat));
                    }
                }
            }
            let l = match lr {
                Ok(v) => v,
                Err(e) => return Err(e),
            };
            proof {
                if pre {
                    assert forall|k: int| g.len() <= k < global.agents@.len() implies allowed.contains(
                        ((#[trigger] global.agents@[k]).name@, global.agents@[k].arity as nat)) by {
                        assert(term_declares(function.interfaces@[i as int], global.agents@[k].name@, global.agents@[k].arity as nat));
                    }
                    lemma_agrees_extend(g, global.agents@, allowed);
                }
                body.lemma_all_filled_step(b, g, global.agents@);
                assert(global.agents@.subrange(0, g.len() as int) == g);
                assert(global.agents@.subrange(0, old(global).agents@.len() as int) =~= old(global).agents@);
                assert forall|k: int| 0 <= k < outputs@.len() implies body.local_ok(#[trigger] outputs@[k]) by {
                    assert(b.local_ok(outputs@[k]));
                }
                assert forall|k: int| 0 <= k < function.equations@.len() implies equation_in_table(#[trigger] function.equations@[k], global.agents@) by {
                    lemma_term_in_table_grow(function.equations@[k].left, g, global.agents@);
                    lemma_term_in_table_grow(function.equations@[k].right, g, global.agents@);
                }
                assert forall|k: int| 0 <= k < i + 1 implies term_in_table(#[trigger] function.interfaces@[k], global.agents@) by {
                    if k < i {
                        lemma_term_in_table_grow(function.interfaces@[k], g, global.agents@);
                    }
                }
            }
            outputs.push(l);
            i += 1;
        }
        proof {
            assert(function.equations@.subrange(0, function.equations@.len() as int) == function.equations@);
        }
        let initializers = body.net_initializers();
        assert(names_then_agents(initializers@, body.names@.len() as int));
        let ghost nn = body.names@.len() as int;
        let instructions = body.instructions;
        proof {
            assert forall|k: int| 0 <= k < instructions@.len() implies match #[trigger] instructions@[k] {
                NetInstruction::SetSlot { target, slot, value } => target is Agent && slot >= 1
                    && net_defines(initializers@, target) && net_defines(initializers@, value),
                NetInstruction::PushEquation { left, right, .. } => net_defines(initializers@, left)
                    && net_defines(initializers@, right),
            } by {
                match instructions@[k] {
                    NetInstruction::SetSlot { target, value, .. } => {
                        assert(body.local_ok(target));
                        assert(body.local_ok(value));
                    },
                    NetInstruction::PushEquation { left, right, .. } => {
                        assert(body.local_ok(left));
                        assert(body.local_ok(right));
                    },
                }
            }
            assert forall|k: int| 0 <= k < outputs@.len() implies net_defines(initializers@, #[trigger] outputs@[k]) by {
                assert(body.local_ok(outputs@[k]));
            }
        }
        proof {
            assert forall|k: int, j: int| 0 <= k < instructions@.len() && 0 <= j < initializers@.len() implies match #[trigger] instructions@[k] {
                NetInstruction::SetSlot { target, slot, .. } => net_init_defines(#[trigger] initializers@[j]) == target
                    ==> slot <= net_init_arity(initializers@[j], global.agents@),
                _ => true,
            } by {
                match instructions@[k] {
                    NetInstruction::SetSlot { target, slot, .. } => {
                        if net_init_defines(initializers@[j]) == target {
                            match initializers@[j] {
                                NetInitializer::Agent { index, id } => {
                                    assert(id == body.terms@[index as int]);
                                },
                                _ => {},
                            }
                        }
                    },
                    _ => {},
                }
            }
            assert forall|k: int| 0 <= k < initializers@.len() && (#[trigger] initializers@[k]) is Agent implies
                initializers@[k]->Agent_id.0 < global.agents@.len() && net_agent_filled(
                    instructions@, initializers@[k]->Agent_index, net_init_arity(initializers@[k], global.agents@)) by {
                let j = initializers@[k]->Agent_index as int;
                assert(initializers@[k]->Agent_id == body.terms@[j]);
            }
            old(self).lemma_slots_fit_grow(old(global).agents@, global.agents@);
        }
        let index = self.functions.len();
        let ghost before = *self;
        let output_count = outputs.len();
        self.functions.push(Function { index, initializers, instructions, outputs });
        self.function_meta.push(FunctionMeta { name: function.name.clone(), output_count });
        if is_main {
            self.entry_point = Some(index);
        }
        proof {
            assert forall|i: int| 0 <= i < self.functions@.len() implies {
                let f = #[trigger] self.functions@[i];
                &&& f.index == i
                &&& f.outputs@.len() == self.function_meta@[i].output_count
                &&& net_code_closed(f.initializers@, f.instructions@, f.outputs@)
            } by {
                if i < before.functions@.len() {
                    assert(self.functions@[i] == before.functions@[i]);
                    assert(self.function_meta@[i] == before.function_meta@[i]);
                }
            }
            assert forall|j: int| 0 <= j < before.function_meta@.len() implies #[trigger] self.function_meta@[j] == before.function_meta@[j] by {}
            assert forall|i: int| 0 <= i < self.functions@.len() implies net_slots_fit(
                (#[trigger] self.functions@[i]).initializers@,
                self.functions@[i].instructions@,
                global.agents@,
            ) && net_slots_complete(self.functions@[i].initializers@, self.functions@[i].instructions@, global.agents@) by {
                if i < before.functions@.len() {
                    assert(self.functions@[i] == before.functions@[i]);
                }
            }
            assert(self.functions@.subrange(0, before.functions@.len() as int) =~= before.functions@);
            assert(self.function_meta@.subrange(0, before.function_meta@.len() as int) =~= before.function_meta@);
            assert(names_then_agents(self.functions@.last().initializers@, nn));
        }
        Ok(())
    }

    /// The lowered functions, their metadata and the entry point.
    pub fn build(self) -> (r: Result<(Vec<Function>, Vec<FunctionMeta>, usize), BuildError>)
        requires
            self.wf(),
        ensures
            self.entry_point is None <==> r is Err,
            r is Err ==> r == Err::<(Vec<Function>, Vec<FunctionMeta>, usize), BuildError>(BuildError::NoEntryPoint),
            r is Ok ==> {
                let (f, m, e) = r->Ok_0;
                &&& f@ == self.functions@
                &&& m@ == self.function_meta@
                &&& self.entry_point == Some(e)
            },
    {
        match self.entry_point {
            Some(e) => Ok((self.functions, self.function_meta, e)),
            None => Err(BuildError::NoEntryPoint),
        }
    }
}

/// Lowers modules into one program that shares a single agent table.
pub struct RuntimeBuilder {
    pub global: GlobalBuilder,
    pub rules: RulesBuilder,
    pub functions: FunctionsBuilder,
}

/// The nets that a program's functions were lowered from, in order: same
/// names, and as many outputs as interfaces.
pub open spec fn functions_match_nets(meta: Seq<FunctionMeta>, functions: Seq<Function>, nets: Seq<ast::Net>) -> bool {
    &&& meta.len() == nets.len()
    &&& functions.len() == nets.len()
    &&& forall|i: int|
        0 <= i < nets.len() ==> (#[trigger] meta[i]).name@ == nets[i].name@
            && functions[i].outputs@.len() == nets[i].interfaces@.len()
}

/// A program fit to run: its agent table is well formed, every rule map
/// entry is canonical and every agent id in it is interned, every rule and
/// function uses only registers it initializes, and the entry point is the
/// one function called `Main`.
pub open spec fn program_wf(p: Program) -> bool {
    &&& agents_wf(p.agents@)
    &&& rule_map_canonical(p)
    &&& forall|i: int| 0 <= i < p.rule_map@.len() ==> (#[trigger] p.rule_map@[i]).1.0 < p.agents@.len()
    &&& forall|i: int|
        0 <= i < p.rules@.len() ==> rule_code_closed(
            (#[trigger] p.rules@[i]).initializers@,
            p.rules@[i].instructions@,
        )
    &&& forall|i: int|
        0 <= i < p.rules@.len() ==> rule_slots_fit(
            (#[trigger] p.rules@[i]).initializers@,
            p.rules@[i].instructions@,
            p.agents@,
            p.rule_map@[i].0,
            p.rule_map@[i].1,
        ) && rule_slots_complete(
            p.rules@[i].initializers@,
            p.rules@[i].instructions@,
            p.agents@,
            p.rule_map@[i].0,
            p.rule_map@[i].1,
        )
    &&& p.functions@.len() == p.function_meta@.len()
    &&& forall|i: int|
        0 <= i < p.functions@.len() ==> {
            let f = #[trigger] p.functions@[i];
            &&& net_slots_fit(f.initializers@, f.instructions@, p.agents@)
            &&& net_slots_complete(f.initializers@, f.instructions@, p.agents@)
            &&& f.index == i
            &&& f.outputs@.len() == p.function_meta@[i].output_count
            &&& net_code_closed(f.initializers@, f.instructions@, f.outputs@)
        }
    &&& only_main_at(p.function_meta@, p.entry_point as int)
}

/// One part of lowering's faithfulness to the source terms: in a program
/// fit to run, every agent register a rule or net initializes, fresh or
/// reused, has each of its slots from 1 to its arity written by some
/// instruction, so no agent is built with an unset slot.
pub proof fn lemma_lowering_fills_every_slot(p: Program)
    requires
        program_wf(p),
    ensures
        forall|i: int|
            0 <= i < p.rules@.len() ==> rule_slots_complete(
                (#[trigger] p.rules@[i]).initializers@,
                p.rules@[i].instructions@,
                p.agents@,
                p.rule_map@[i].0,
                p.rule_map@[i].1,
            ),
        forall|i: int|
            0 <= i < p.functions@.len() ==> net_slots_complete(
                (#[trigger] p.functions@[i]).initializers@,
                p.functions@[i].instructions@,
                p.agents@,
            ),
{
}

/// In a program fit to run, no slot is written into an agent without
/// arguments: every register a slot write targets is initialized only by
/// agents of positive arity, so equations on nullary agents are settled by
/// rule lookup alone.
pub proof fn lemma_nullary_agents_get_no_slots(p: Program)
    requires
        program_wf(p),
    ensures
        forall|i: int, k: int, j: int|
            0 <= i < p.rules@.len() && 0 <= k < p.rules@[i].instructions@.len() && 0 <= j
                < p.rules@[i].initializers@.len() && (#[trigger] p.rules@[i].instructions@[k]) is SetSlot
                && rule_init_defines(#[trigger] p.rules@[i].initializers@[j])
                == p.rules@[i].instructions@[k]->SetSlot_target ==> rule_init_arity(
                p.rules@[i].initializers@[j],
                p.agents@,
                p.rule_map@[i].0,
                p.rule_map@[i].1,
            ) >= 1,
        forall|i: int, k: int, j: int|
            0 <= i < p.functions@.len() && 0 <= k < p.functions@[i].instructions@.len() && 0 <= j
                < p.functions@[i].initializers@.len() && (#[trigger] p.functions@[i].instructions@[k]) is SetSlot
                && net_init_defines(#[trigger] p.functions@[i].initializers@[j])
                == p.functions@[i].instructions@[k]->SetSlot_target ==> net_init_arity(
                p.functions@[i].initializers@[j],
                p.agents@,
            ) >= 1,
{
    assert forall|i: int, k: int, j: int|
        0 <= i < p.rules@.len() && 0 <= k < p.rules@[i].instructions@.len() && 0 <= j
            < p.rules@[i].initializers@.len() && (#[trigger] p.rules@[i].instructions@[k]) is SetSlot
            && rule_init_defines(#[trigger] p.rules@[i].initializers@[j])
            == p.rules@[i].instructions@[k]->SetSlot_target implies rule_init_arity(
        p.rules@[i].initializers@[j],
        p.agents@,
        p.rule_map@[i].0,
        p.rule_map@[i].1,
    ) >= 1 by {
        let r = p.rules@[i];
        assert(rule_code_closed(r.initializers@, r.instructions@));
        assert(rule_slots_fit(r.initializers@, r.instructions@, p.agents@, p.rule_map@[i].0, p.rule_map@[i].1));
        match r.instructions@[k] {
            RuleInstruction::SetSlot { target, slot, .. } => {
                assert(slot >= 1);
                assert(slot <= rule_init_arity(r.initializers@[j], p.agents@, p.rule_map@[i].0, p.rule_map@[i].1));
            },
            _ => {},
        }
    }
    assert forall|i: int, k: int, j: int|
        0 <= i < p.functions@.len() && 0 <= k < p.functions@[i].instructions@.len() && 0 <= j
            < p.functions@[i].initializers@.len() && (#[trigger] p.functions@[i].instructions@[k]) is SetSlot
            && net_init_defines(#[trigger] p.functions@[i].initializers@[j])
            == p.functions@[i].instructions@[k]->SetSlot_target implies net_init_arity(
        p.functions@[i].initializers@[j],
        p.agents@,
    ) >= 1 by {
        let f = p.functions@[i];
        assert(net_code_closed(f.initializers@, f.instructions@, f.outputs@));
        assert(net_slots_fit(f.initializers@, f.instructions@, p.agents@));
        match f.instructions@[k] {
            NetInstruction::SetSlot { target, slot, .. } => {
                assert(slot >= 1);
                assert(slot <= net_init_arity(f.initializers@[j], p.agents@));
            },
            _ => {},
        }
    }
}

impl RuntimeBuilder {
    /// The table, the rules and the functions are well formed, and every
    /// slot a function writes fits its target.
    pub open spec fn wf(&self) -> bool {
        &&& self.global.wf()
        &&& self.rules.wf(self.global.agents@)
        &&& self.functions.wf()
        &&& self.functions.slots_fit(self.global.agents@)
    }

    /// A builder with no rules or nets, whose agent table holds only `$`.
    pub fn new() -> (r: RuntimeBuilder)
        ensures
            r.wf(),
            r.functions.functions@.len() == 0,
            r.rules.rules@.len() == 0,
            r.global.agents@.len() == 1,
            r.functions.entry_point is None,
            r.rules.rule_map@.len() == 0,
    {
        RuntimeBuilder { global: GlobalBuilder::new(), rules: RulesBuilder::new(), functions: FunctionsBuilder::new() }
    }

    /// Lowers every rule, then every net, of a module.
    #[verifier::rlimit(50)]
    pub fn module(&mut self, module: &ast::Module) -> (r: Result<(), BuildError>)
        requires
            old(self).wf(),
        ensures
            r is Ok ==> final(self).wf(),
            r is Ok ==> final(self).rules.rules@.len() == old(self).rules.rules@.len() + module.rules@.len(),
            r is Ok ==> functions_match_nets(
                final(self).functions.function_meta@.subrange(old(self).functions.function_meta@.len() as int, final(self).functions.function_meta@.len() as int),
                final(self).functions.functions@.subrange(old(self).functions.functions@.len() as int, final(self).functions.functions@.len() as int),
                module.nets@,
            ),
            r is Ok ==> final(self).global.agents@.len() >= old(self).global.agents@.len(),
            r is Ok ==> final(self).global.agents@.subrange(0, old(self).global.agents@.len() as int) == old(self).global.agents@,
            r is Ok ==> module_in_table(*module, final(self).global.agents@),
            module_fits(old(self).global.agents@, *module) && main_at_most_once(module.nets@) && !(
            old(self).functions.entry_point is Some && crate::check::has_main(module.nets@)) ==> r is Ok,
            r is Ok ==> (final(self).functions.entry_point is Some <==> (old(self).functions.entry_point is Some
                || crate::check::has_main(module.nets@))),
            r is Ok ==> final(self).rules.rule_map@.len() == old(self).rules.rule_map@.len() + module.rules@.len(),
            r is Ok ==> forall|k: int|
                0 <= k < module.rules@.len() ==> entry_matches(
                    #[trigger] final(self).rules.rule_map@[old(self).rules.rule_map@.len() + k],
                    final(self).global.agents@,
                    module.rules@[k],
                ),
    {
        let ghost modset = Set::new(|p: (Seq<char>, nat)| module_declares(*module, p.0, p.1));
        let ghost pre = module_fits(old(self).global.agents@, *module) && main_at_most_once(module.nets@) && !(
            old(self).functions.entry_point is Some && crate::check::has_main(module.nets@));
        let mut i: usize = 0;
        while i < module.rules.len()
            invariant
                i <= module.rules@.len(),
                self.wf(),
                self.functions == old(self).functions,
                self.rules.rules@.len() == old(self).rules.rules@.len() + i,
                self.global.agents@.len() >= old(self).global.agents@.len(),
                self.global.agents@.subrange(0, old(self).global.agents@.len() as int) == old(self).global.agents@,
                forall|k: int| 0 <= k < i ==> rule_in_table(#[trigger] module.rules@[k], self.global.agents@),
                modset == Set::new(|p: (Seq<char>, nat)| module_declares(*module, p.0, p.1)),
                pre ==> agrees(self.global.agents@, modset),
                pre == (module_fits(old(self).global.agents@, *module) && main_at_most_once(module.nets@) && !(
                    old(self).functions.entry_point is Some && crate::check::has_main(module.nets@))),
                self.rules.rule_map@.len() == old(self).rules.rule_map@.len() + i,
                forall|k: int|
                    0 <= k < i ==> entry_matches(
                        #[trigger] self.rules.rule_map@[old(self).rules.rule_map@.len() + k],
                        self.global.agents@,
                        module.rules@[k],
                    ),
            decreases module.rules@.len() - i,
        {
            let ghost g = self.global.agents@;
            let ghost rset = Set::new(|p: (Seq<char>, nat)| rule_declares(module.rules@[i as int], p.0, p.1));
            proof {
                if pre {
                    assert forall|p: (Seq<char>, nat)| rset.contains(p) implies modset.contains(p) by {
                        let r = module.rules@[i as int];
                        assert(rule_declares(r, p.0, p.1));
                        if !(r.left.agent@ == p.0 && r.left.body@.len() == p.1) && !(r.right.agent@ == p.0 && r.right.body@.len() == p.1) {
                            let j = choose|j: int| 0 <= j < r.equations@.len() && (term_declares(#[trigger] r.equations@[j].left, p.0, p.1)
                                || term_declares(r.equations@[j].right, p.0, p.1));
                            assert(r.equations@[j] == module.rules@[i as int].equations@[j]);
                        }
                        assert(module_declares(*module, p.0, p.1));
                    }
                    lemma_agrees_sub(self.global.agents@, modset, rset);
                    assert(rule_fits(self.global.agents@, module.rules@[i as int]));
                }
            }
            let ghost rm = self.rules.rule_map@;
            self.rules.rule(&mut self.global, &module.rules[i])?;
            proof {
                let base = old(self).rules.rule_map@.len();
                assert forall|k: int| 0 <= k < i + 1 implies entry_matches(
                    #[trigger] self.rules.rule_map@[base + k],
                    self.global.agents@,
                    module.rules@[k],
                ) by {
                    if k < i {
                        assert(self.rules.rule_map@[base + k] == rm[base + k]);
                        let e = rm[base + k];
                        assert(self.global.agents@.subrange(0, g.len() as int)[e.0.0 as int] == self.global.agents@[e.0.0 as int]);
                        assert(self.global.agents@.subrange(0, g.len() as int)[e.1.0 as int] == self.global.agents@[e.1.0 as int]);
                    }
                }
                if pre {
                    assert forall|k: int| g.len() <= k < self.global.agents@.len() implies modset.contains(
                        ((#[trigger] self.global.agents@[k]).name@, self.global.agents@[k].arity as nat)) by {
                        assert(rule_declares(module.rules@[i as int], self.global.agents@[k].name@, self.global.agents@[k].arity as nat));
                        assert(rset.contains((self.global.agents@[k].name@, self.global.agents@[k].arity as nat)));
                    }
                    lemma_agrees_extend(g, self.global.agents@, modset);
                }
                self.functions.lemma_slots_fit_grow(g, self.global.agents@);
                assert(self.global.agents@.subrange(0, g.len() as int) == g);
                assert(self.global.agents@.subrange(0, old(self).global.agents@.len() as int) =~= old(self).global.agents@);
                assert forall|k: int| 0 <= k < i + 1 implies rule_in_table(#[trigger] module.rules@[k], self.global.agents@) by {
                    if k < i {
                        lemma_rule_in_table_grow(module.rules@[k], g, self.global.agents@);
                    }
                }
            }
            i += 1;
        }
        let ghost nf = self.functions.functions@.len();
        let ghost nm = self.functions.function_meta@.len();
        let mut i: usize = 0;
        while i < module.nets.len()
            invariant
                i <= module.nets@.len(),
                self.wf(),
                self.rules.rules@.len() == old(self).rules.rules@.len() + module.rules@.len(),
                nf == nm,
                nf == old(self).functions.functions@.len(),
                self.functions.functions@.len() == nf + i,
                functions_match_nets(
                    self.functions.function_meta@.subrange(nm as int, self.functions.function_meta@.len() as int),
                    self.functions.functions@.subrange(nf as int, self.functions.functions@.len() as int),
                    module.nets@.subrange(0, i as int),
                ),
                self.global.agents@.len() >= old(self).global.agents@.len(),
                self.global.agents@.subrange(0, old(self).global.agents@.len() as int) == old(self).global.agents@,
                forall|k: int| 0 <= k < module.rules@.len() ==> rule_in_table(#[trigger] module.rules@[k], self.global.agents@),
                forall|k: int| 0 <= k < i ==> net_in_table(#[trigger] module.nets@[k], self.global.agents@),
                modset == Set::new(|p: (Seq<char>, nat)| module_declares(*module, p.0, p.1)),
                pre ==> agrees(self.global.agents@, modset),
                pre == (module_fits(old(self).global.agents@, *module) && main_at_most_once(module.nets@) && !(
                    old(self).functions.entry_point is Some && crate::check::has_main(module.nets@))),
                self.functions.entry_point is Some <==> (old(self).functions.entry_point is Some || exists|k: int|
                    0 <= k < i && (#[trigger] module.nets@[k]).name@ == crate::check::main_ident()),
                self.rules.rule_map@.len() == old(self).rules.rule_map@.len() + module.rules@.len(),
                forall|k: int|
                    0 <= k < module.rules@.len() ==> entry_matches(
                        #[trigger] self.rules.rule_map@[old(self).rules.rule_map@.len() + k],
                        self.global.agents@,
                        module.rules@[k],
                    ),
            decreases module.nets@.len() - i,
        {
            let ghost nset = Set::new(|p: (Seq<char>, nat)| net_declares(module.nets@[i as int], p.0, p.1));
            proof {
                if pre {
                    assert forall|p: (Seq<char>, nat)| nset.contains(p) implies modset.contains(p) by {
                        let n = module.nets@[i as int];
                        assert(net_declares(n, p.0, p.1));
                        assert(module_declares(*module, p.0, p.1));
                    }
                    lemma_agrees_sub(self.global.agents@, modset, nset);
                    assert(net_fits(self.global.agents@, module.nets@[i as int]));
                    if self.functions.entry_point is Some && module.nets@[i as int].name@ == crate::check::main_ident() {
                        if !(old(self).functions.entry_point is Some) {
                            let k = choose|k: int| 0 <= k < i && (#[trigger] module.nets@[k]).name@ == crate::check::main_ident();
                        }
                    }
                }
            }
            let ghost before = self.functions;
            let ghost g = self.global.agents@;
            self.functions.function(&mut self.global, &module.nets[i])?;
            proof {
                assert forall|k: int| 0 <= k < module.rules@.len() implies entry_matches(
                    #[trigger] self.rules.rule_map@[old(self).rules.rule_map@.len() + k],
                    self.global.agents@,
                    module.rules@[k],
                ) by {
                    let e = self.rules.rule_map@[old(self).rules.rule_map@.len() + k];
                    assert(entry_matches(e, g, module.rules@[k]));
                    assert(self.global.agents@.subrange(0, g.len() as int)[e.0.0 as int] == self.global.agents@[e.0.0 as int]);
                    assert(self.global.agents@.subrange(0, g.len() as int)[e.1.0 as int] == self.global.agents@[e.1.0 as int]);
                }
                if pre {
                    assert forall|k: int| g.len() <= k < self.global.agents@.len() implies modset.contains(
                        ((#[trigger] self.global.agents@[k]).name@, self.global.agents@[k].arity as nat)) by {
                        assert(net_declares(module.nets@[i as int], self.global.agents@[k].name@, self.global.agents@[k].arity as nat));
                        assert(nset.contains((self.global.agents@[k].name@, self.global.agents@[k].arity as nat)));
                    }
                    lemma_agrees_extend(g, self.global.agents@, modset);
                }
                if module.nets@[i as int].name@ == crate::check::main_ident() {
                    assert(exists|k: int| 0 <= k < i + 1 && (#[trigger] module.nets@[k]).name@ == crate::check::main_ident());
                }
                assert(self.global.agents@.subrange(0, g.len() as int) == g);
                assert(self.global.agents@.subrange(0, old(self).global.agents@.len() as int) =~= old(self).global.agents@);
                assert forall|k: int| 0 <= k < module.rules@.len() implies rule_in_table(#[trigger] module.rules@[k], self.global.agents@) by {
                    lemma_rule_in_table_grow(module.rules@[k], g, self.global.agents@);
                }
                assert forall|k: int| 0 <= k < i + 1 implies net_in_table(#[trigger] module.nets@[k], self.global.agents@) by {
                    if k < i {
                        lemma_net_in_table_grow(module.nets@[k], g, self.global.agents@);
                    }
                }
                self.rules.lemma_wf_grow(g, self.global.agents@);
                let m = self.functions.function_meta@.subrange(nm as int, self.functions.function_meta@.len() as int);
                let f = self.functions.functions@.subrange(nf as int, self.functions.functions@.len() as int);
                let ns = module.nets@.subrange(0, i + 1);
                assert forall|k: int| 0 <= k < ns.len() implies (#[trigger] m[k]).name@ == ns[k].name@
                    && f[k].outputs@.len() == ns[k].interfaces@.len() by {
                    let bm = before.function_meta@.subrange(nm as int, before.function_meta@.len() as int);
                    let bf = before.functions@.subrange(nf as int, before.functions@.len() as int);
                    if k < i {
                        assert(self.functions.function_meta@.subrange(0, before.function_meta@.len() as int)[nm + k] == before.function_meta@[nm + k]);
                        assert(self.functions.functions@.subrange(0, before.functions@.len() as int)[nf + k] == before.functions@[nf + k]);
                        assert(m[k] == bm[k]);
                        assert(f[k] == bf[k]);
                        assert(module.nets@.subrange(0, i as int)[k] == ns[k]);
                    } else {
                        assert(m[k] == self.functions.function_meta@.last());
                        assert(f[k] == self.functions.functions@.last());
                    }
                }
                assert(m.len() == ns.len());
                assert(f.len() == ns.len());
                assert(functions_match_nets(m, f, ns));
            }
            i += 1;
        }
        proof {
            assert(module.nets@.subrange(0, module.nets@.len() as int) =~= module.nets@);
            if crate::check::has_main(module.nets@) {
                let k = choose|k: int| 0 <= k < module.nets@.len() && #[trigger] module.nets@[k].name@ == crate::check::main_ident();
                assert(exists|k2: int| 0 <= k2 < module.nets@.len() && (#[trigger] module.nets@[k2]).name@ == crate::check::main_ident());
            }
        }
        Ok(())
    }

    /// The program: the agent table, the rules with their map, and the
    /// functions with the entry point. Fails when no net is called `Main`.
    #[verifier::rlimit(50)]
    pub fn build(self) -> (r: Result<Program, BuildError>)
        requires
            self.wf(),
        ensures
            r is Err <==> self.functions.entry_point is None,
            r is Err ==> r == Err::<Program, BuildError>(BuildError::NoEntryPoint),
            r is Ok ==> program_wf(r->Ok_0),
            r is Ok ==> r->Ok_0.function_meta@ == self.functions.function_meta@,
            r is Ok ==> r->Ok_0.functions@ == self.functions.functions@,
            r is Ok ==> r->Ok_0.rules@.len() == self.rules.rules@.len(),
            r is Ok ==> r->Ok_0.agents@ == self.global.agents@,
            r is Ok ==> r->Ok_0.rule_map@ == self.rules.rule_map@,
            r is Ok ==> r->Ok_0.rules@ == self.rules.rules@,
            r is Ok ==> self.functions.entry_point == Some(r->Ok_0.entry_point),
    {
        let RuntimeBuilder { global, rules, functions } = self;
        let RulesBuilder { rules, rule_map } = rules;
        let agents = global.build();
        match functions.build() {
            Ok((functions, function_meta, entry_point)) => {
                let p = Program { agents, rules, rule_map, functions, function_meta, entry_point };
                proof {
                    assert forall|i: int| 0 <= i < p.rules@.len() implies rule_code_closed(
                        (#[trigger] p.rules@[i]).initializers@,
                        p.rules@[i].instructions@,
                    ) && rule_slots_fit(
                        p.rules@[i].initializers@,
                        p.rules@[i].instructions@,
                        p.agents@,
                        p.rule_map@[i].0,
                        p.rule_map@[i].1,
                    ) && rule_slots_complete(
                        p.rules@[i].initializers@,
                        p.rules@[i].instructions@,
                        p.agents@,
                        p.rule_map@[i].0,
                        p.rule_map@[i].1,
                    ) by {
                        assert(p.rule_map@[i].2 == i);
                    }
                    assert forall|i: int| 0 <= i < p.functions@.len() implies net_slots_fit(
                        (#[trigger] p.functions@[i]).initializers@,
                        p.functions@[i].instructions@,
                        p.agents@,
                    ) && net_slots_complete(p.functions@[i].initializers@, p.functions@[i].instructions@, p.agents@) by {}
                }
                Ok(p)
            },
            Err(e) => Err(e),
        }
    }

    /// Lowers one module into a program.
    pub fn build_runtime(program: &ast::Module) -> (r: Result<Program, BuildError>)
        ensures
            !crate::check::has_main(program.nets@) ==> r is Err,
            r is Ok ==> program_wf(r->Ok_0),
            r is Ok ==> r->Ok_0.rules@.len() == program.rules@.len(),
            r is Ok ==> functions_match_nets(r->Ok_0.function_meta@, r->Ok_0.functions@, program.nets@),
            r is Ok ==> module_in_table(*program, r->Ok_0.agents@),
            crate::check::has_main(program.nets@) && main_at_most_once(program.nets@) && module_arities_agree(*program)
                ==> r is Ok,
            r is Ok ==> forall|k: int|
                0 <= k < program.rules@.len() ==> entry_matches(#[trigger] r->Ok_0.rule_map@[k], r->Ok_0.agents@, program.rules@[k]),
    {
        let mut builder = RuntimeBuilder::new();
        proof {
            if module_arities_agree(*program) {
                let set = Set::new(|p: (Seq<char>, nat)| module_declares(*program, p.0, p.1));
                assert forall|i: int, a: nat|
                    0 <= i < builder.global.agents@.len() && #[trigger] set.contains((builder.global.agents@[i].name@, a))
                    implies builder.global.agents@[i].arity == a by {
                    assert(module_declares(*program, indirection_ident(), a));
                }
                assert(module_fits(builder.global.agents@, *program));
            }
        }
        builder.module(program)?;
        proof {
            assert(builder.functions.function_meta@.subrange(0, builder.functions.function_meta@.len() as int) =~= builder.functions.function_meta@);
            assert(builder.functions.functions@.subrange(0, builder.functions.functions@.len() as int) =~= builder.functions.functions@);
            if !crate::check::has_main(program.nets@) {
                if builder.functions.entry_point is Some {
                    let e = builder.functions.entry_point->Some_0 as int;
                    assert(builder.functions.function_meta@[e].name@ == program.nets@[e].name@);
                }
            }
        }
        proof {
            assert forall|k: int| 0 <= k < program.rules@.len() implies entry_matches(
                #[trigger] builder.rules.rule_map@[k],
                builder.global.agents@,
                program.rules@[k],
            ) by {
                assert(builder.rules.rule_map@[0 + k] == builder.rules.rule_map@[k]);
            }
        }
        builder.build()
    }
}

impl RulesBuilder {
    proof fn lemma_wf_grow(&self, a: Seq<AgentMeta>, b: Seq<AgentMeta>)
        requires
            self.wf(a),
            b.len() >= a.len(),
            b.subrange(0, a.len() as int) == a,
        ensures
            self.wf(b),
    {
        assert forall|i: int| 0 <= i < self.rule_map@.len() implies {
            let e = #[trigger] self.rule_map@[i];
            &&& e.0.0 <= e.1.0
            &&& e.1.0 < b.len()
            &&& e.2 == i
            &&& self.rules@[i].index == i
            &&& rule_code_closed(self.rules@[i].initializers@, self.rules@[i].instructions@)
            &&& rule_slots_fit(self.rules@[i].initializers@, self.rules@[i].instructions@, b, e.0, e.1)
            &&& rule_slots_complete(self.rules@[i].initializers@, self.rules@[i].instructions@, b, e.0, e.1)
        } by {
            let e = self.rule_map@[i];
            let r = self.rules@[i];
            assert(rule_slots_complete(r.initializers@, r.instructions@, a, e.0, e.1));
            assert forall|k: int| 0 <= k < r.initializers@.len() && (#[trigger] rule_init_defines(r.initializers@[k])) is Agent implies
                (r.initializers@[k] is Agent ==> r.initializers@[k]->Agent_id.0 < b.len()) && rule_agent_filled(
                    r.instructions@,
                    rule_init_defines(r.initializers@[k])->Agent_0,
                    rule_init_arity(r.initializers@[k], b, e.0, e.1),
                ) by {
                let id = match r.initializers@[k] {
                    RuleInitializer::Agent { id, .. } => id.0 as int,
                    RuleInitializer::ReuseLeft { .. } => e.0.0 as int,
                    RuleInitializer::ReuseRight { .. } => e.1.0 as int,
                    _ => -1,
                };
                if 0 <= id < a.len() {
                    assert(b.subrange(0, a.len() as int)[id] == b[id]);
                }
            }
            assert forall|k: int, j: int| 0 <= k < r.instructions@.len() && 0 <= j < r.initializers@.len() implies match #[trigger] r.instructions@[k] {
                RuleInstruction::SetSlot { target, slot, .. } => rule_init_defines(#[trigger] r.initializers@[j]) == target
                    ==> slot <= rule_init_arity(r.initializers@[j], b, e.0, e.1),
                _ => true,
            } by {
                match r.instructions@[k] {
                    RuleInstruction::SetSlot { target, slot, .. } => {
                        if rule_init_defines(r.initializers@[j]) == target {
                            assert(slot <= rule_init_arity(r.initializers@[j], a, e.0, e.1));
                            lemma_init_arity_grow(r.initializers@[j], a, b, e.0, e.1);
                        }
                    },
                    _ => {},
                }
            }
        }
    }
}

} // verus!
