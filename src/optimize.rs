//! Peephole optimisation: an argument cell released at the end of a rule
//! is reused for a fresh agent of the same kind instead.

use vstd::prelude::*;

use crate::builder::program_wf;
use crate::ir::{
    rule_agent_filled, rule_code_closed, rule_defines, rule_init_arity, rule_init_defines,
    rule_map_canonical, rule_slots_complete, rule_slots_fit, rule_writes_slot, AgentId, AgentMeta,
    Local, Program, Rule, RuleInitializer, RuleInstruction,
};

verus! {

/// Initializer `k` allocates an agent of `id`.
pub open spec fn allocates(inits: Seq<RuleInitializer>, k: int, id: AgentId) -> bool {
    0 <= k < inits.len() && match inits[k] {
        RuleInitializer::Agent { id: i, .. } => i == id,
        _ => false,
    }
}

/// Instruction `k` releases the left (or, with `left` false, the right) argument.
pub open spec fn frees(instrs: Seq<RuleInstruction>, k: int, left: bool) -> bool {
    0 <= k < instrs.len() && if left {
        instrs[k] is FreeLeft
    } else {
        instrs[k] is FreeRight
    }
}

/// The first initializer that allocates an agent of `id`.
pub open spec fn first_alloc(inits: Seq<RuleInitializer>, id: AgentId) -> Option<int> {
    if exists|k: int| allocates(inits, k, id) && forall|j: int| 0 <= j < k ==> !#[trigger] allocates(inits, j, id) {
        Some(choose|k: int| allocates(inits, k, id) && forall|j: int| 0 <= j < k ==> !#[trigger] allocates(inits, j, id))
    } else {
        None
    }
}

/// The first instruction that releases the given argument.
pub open spec fn first_free(instrs: Seq<RuleInstruction>, left: bool) -> Option<int> {
    if exists|k: int| frees(instrs, k, left) && forall|j: int| 0 <= j < k ==> !#[trigger] frees(instrs, j, left) {
        Some(choose|k: int| frees(instrs, k, left) && forall|j: int| 0 <= j < k ==> !#[trigger] frees(instrs, j, left))
    } else {
        None
    }
}

/// One side of the rewrite: where the rule allocates an agent of the
/// argument's own kind `id` and releases that argument, the first such
/// allocation is dropped in favour of reusing the argument, appended last,
/// and the first release is dropped. Otherwise the code stays as it is.
pub open spec fn reuse_side(
    inits: Seq<RuleInitializer>,
    instrs: Seq<RuleInstruction>,
    id: AgentId,
    left: bool,
) -> (Seq<RuleInitializer>, Seq<RuleInstruction>) {
    match (first_alloc(inits, id), first_free(instrs, left)) {
        (Some(a), Some(f)) => {
            let index = match inits[a] {
                RuleInitializer::Agent { index, .. } => index,
                _ => 0,
            };
            let reuse = if left {
                RuleInitializer::ReuseLeft { index }
            } else {
                RuleInitializer::ReuseRight { index }
            };
            (inits.remove(a).push(reuse), instrs.remove(f))
        },
        _ => (inits, instrs),
    }
}

/// Both sides of the rewrite: left first, then right on the result.
pub open spec fn reuse_both(
    inits: Seq<RuleInitializer>,
    instrs: Seq<RuleInstruction>,
    left_id: AgentId,
    right_id: AgentId,
) -> (Seq<RuleInitializer>, Seq<RuleInstruction>) {
    let (i1, s1) = reuse_side(inits, instrs, left_id, true);
    reuse_side(i1, s1, right_id, false)
}

fn find_alloc(inits: &Vec<RuleInitializer>, id: AgentId) -> (r: Option<usize>)
    ensures
        r is Some ==> first_alloc(inits@, id) == Some(r->Some_0 as int),
        r is None ==> first_alloc(inits@, id) is None,
        r is Some ==> r->Some_0 < inits@.len(),
{
    let mut k: usize = 0;
    while k < inits.len()
        invariant
            k <= inits@.len(),
            forall|j: int| 0 <= j < k ==> !#[trigger] allocates(inits@, j, id),
        decreases inits@.len() - k,
    {
        if let RuleInitializer::Agent { id: i, .. } = inits[k] {
            if i == id {
                proof {
                    assert(allocates(inits@, k as int, id));
                    assert(allocates(inits@, k as int, id) && forall|j: int| 0 <= j < k ==> !#[trigger] allocates(inits@, j, id));
                    let c = choose|c: int| allocates(inits@, c, id) && forall|j: int| 0 <= j < c ==> !#[trigger] allocates(inits@, j, id);
                    if c < k {
                        assert(!allocates(inits@, c, id));
                    } else if c > k {
                        assert(!allocates(inits@, k as int, id));
                    }
                }
                return Some(k);
            }
        }
        k += 1;
    }
    None
}

fn find_free(instrs: &Vec<RuleInstruction>, left: bool) -> (r: Option<usize>)
    ensures
        r is Some ==> first_free(instrs@, left) == Some(r->Some_0 as int),
        r is None ==> first_free(instrs@, left) is None,
        r is Some ==> r->Some_0 < instrs@.len(),
{
    let mut k: usize = 0;
    while k < instrs.len()
        invariant
            k <= instrs@.len(),
            forall|j: int| 0 <= j < k ==> !#[trigger] frees(instrs@, j, left),
        decreases instrs@.len() - k,
    {
        let hit = match instrs[k] {
            RuleInstruction::FreeLeft => left,
            RuleInstruction::FreeRight => !left,
            _ => false,
        };
        if hit {
            proof {
                assert(frees(instrs@, k as int, left));
                assert(frees(instrs@, k as int, left) && forall|j: int| 0 <= j < k ==> !#[trigger] frees(instrs@, j, left));
                let c = choose|c: int| frees(instrs@, c, left) && forall|j: int| 0 <= j < c ==> !#[trigger] frees(instrs@, j, left);
                if c < k {
                    assert(!frees(instrs@, c, left));
                } else if c > k {
                    assert(!frees(instrs@, k as int, left));
                }
            }
            return Some(k);
        }
        k += 1;
    }
    None
}

fn reuse(rule: &mut Rule, id: AgentId, left: bool)
    ensures
        (final(rule).initializers@, final(rule).instructions@) == reuse_side(
            old(rule).initializers@,
            old(rule).instructions@,
            id,
            left,
        ),
        final(rule).index == old(rule).index,
        final(rule).description == old(rule).description,
{
    if let Some(a) = find_alloc(&rule.initializers, id) {
        if let Some(f) = find_free(&rule.instructions, left) {
            let index = match rule.initializers[a] {
                RuleInitializer::Agent { index, .. } => index,
                _ => 0,
            };
            let ghost i0 = rule.initializers@;
            let ghost s0 = rule.instructions@;
            rule.initializers.remove(a);
            rule.instructions.remove(f);
            if left {
                rule.initializers.push(RuleInitializer::ReuseLeft { index });
            } else {
                rule.initializers.push(RuleInitializer::ReuseRight { index });
            }
            proof {
                let (x, y) = reuse_side(i0, s0, id, left);
                assert(rule.initializers@ =~= x);
                assert(rule.instructions@ =~= y);
            }
            return;
        }
    }
}

/// The rewrite keeps every register a rule uses initialized.
pub proof fn lemma_reuse_side_closed(
    inits: Seq<RuleInitializer>,
    instrs: Seq<RuleInstruction>,
    id: AgentId,
    left: bool,
)
    requires
        rule_code_closed(inits, instrs),
    ensures
        rule_code_closed(reuse_side(inits, instrs, id, left).0, reuse_side(inits, instrs, id, left).1),
{
    match (first_alloc(inits, id), first_free(instrs, left)) {
        (Some(a), Some(f)) => {
            let (i2, s2) = reuse_side(inits, instrs, id, left);
            assert forall|l: crate::ir::Local| rule_defines(inits, l) implies rule_defines(i2, l) by {
                let k = choose|k: int| 0 <= k < inits.len() && rule_init_defines(#[trigger] inits[k]) == l;
                if k < a {
                    assert(i2[k] == inits[k]);
                } else if k > a {
                    assert(i2[k - 1] == inits[k]);
                } else {
                    assert(rule_init_defines(i2[i2.len() - 1]) == l);
                }
            }
            assert forall|k: int| 0 <= k < s2.len() implies match #[trigger] s2[k] {
                RuleInstruction::SetSlot { target, slot, value } => target is Agent && slot >= 1
                    && rule_defines(i2, target) && rule_defines(i2, value),
                RuleInstruction::PushEquation { left, right, .. } => rule_defines(i2, left)
                    && rule_defines(i2, right),
                _ => true,
            } by {
                if k < f {
                    assert(s2[k] == instrs[k]);
                } else {
                    assert(s2[k] == instrs[k + 1]);
                }
            }
        },
        _ => {},
    }
}

/// The rewrite keeps every slot write within the arity of its target,
/// since a reused argument has the id of the allocation it replaces.
pub proof fn lemma_reuse_side_fit(
    inits: Seq<RuleInitializer>,
    instrs: Seq<RuleInstruction>,
    agents: Seq<AgentMeta>,
    l: AgentId,
    r: AgentId,
    left: bool,
)
    requires
        rule_slots_fit(inits, instrs, agents, l, r),
    ensures
        rule_slots_fit(
            reuse_side(inits, instrs, if left { l } else { r }, left).0,
            reuse_side(inits, instrs, if left { l } else { r }, left).1,
            agents,
            l,
            r,
        ),
{
    let id = if left { l } else { r };
    match (first_alloc(inits, id), first_free(instrs, left)) {
        (Some(a), Some(f)) => {
            let (i2, s2) = reuse_side(inits, instrs, id, left);
            assert forall|k: int, j: int| 0 <= k < s2.len() && 0 <= j < i2.len() implies match #[trigger] s2[k] {
                RuleInstruction::SetSlot { target, slot, .. } => rule_init_defines(#[trigger] i2[j]) == target
                    ==> slot <= rule_init_arity(i2[j], agents, l, r),
                _ => true,
            } by {
                let k0 = if k < f { k } else { k + 1 };
                assert(s2[k] == instrs[k0]);
                let j0 = if j == i2.len() - 1 { a } else if j < a { j } else { j + 1 };
                if j < i2.len() - 1 {
                    assert(i2[j] == inits[j0]);
                } else {
                    assert(allocates(inits, a, id));
                }
                match instrs[k0] {
                    RuleInstruction::SetSlot { target, slot, .. } => {
                        assert(rule_init_defines(inits[j0]) == target ==> slot <= rule_init_arity(inits[j0], agents, l, r));
                    },
                    _ => {},
                }
            }
        },
        _ => {},
    }
}

/// Slot writes stay when an instruction that writes no slot is removed.
proof fn lemma_filled_remove(instrs: Seq<RuleInstruction>, f: int, j: usize, arity: nat)
    requires
        0 <= f < instrs.len(),
        !(instrs[f] is SetSlot),
        rule_agent_filled(instrs, j, arity),
    ensures
        rule_agent_filled(instrs.remove(f), j, arity),
{
    let s2 = instrs.remove(f);
    assert forall|q: int| 1 <= q <= arity implies #[trigger] rule_writes_slot(s2, j, q) by {
        assert(rule_writes_slot(instrs, j, q));
        let w = choose|w: int|
            0 <= w < instrs.len() && (#[trigger] instrs[w]) is SetSlot && instrs[w]->SetSlot_target == Local::Agent(j)
                && instrs[w]->SetSlot_slot == q;
        if w < f {
            assert(s2[w] == instrs[w]);
        } else {
            assert(w != f);
            assert(s2[w - 1] == instrs[w]);
        }
    }
}

/// The rewrite keeps every slot of every agent register written: a reused
/// argument stands for the allocation it replaces, and only a release is
/// dropped from the instructions.
pub proof fn lemma_reuse_side_complete(
    inits: Seq<RuleInitializer>,
    instrs: Seq<RuleInstruction>,
    agents: Seq<AgentMeta>,
    l: AgentId,
    r: AgentId,
    left: bool,
)
    requires
        rule_slots_complete(inits, instrs, agents, l, r),
    ensures
        rule_slots_complete(
            reuse_side(inits, instrs, if left { l } else { r }, left).0,
            reuse_side(inits, instrs, if left { l } else { r }, left).1,
            agents,
            l,
            r,
        ),
{
    let id = if left { l } else { r };
    match (first_alloc(inits, id), first_free(instrs, left)) {
        (Some(a), Some(f)) => {
            let (i2, s2) = reuse_side(inits, instrs, id, left);
            assert(frees(instrs, f, left));
            assert forall|k: int| 0 <= k < i2.len() && (#[trigger] rule_init_defines(i2[k])) is Agent implies
                (i2[k] is Agent ==> i2[k]->Agent_id.0 < agents.len()) && rule_agent_filled(
                    s2,
                    rule_init_defines(i2[k])->Agent_0,
                    rule_init_arity(i2[k], agents, l, r),
                ) by {
                let k0 = if k == i2.len() - 1 { a } else if k < a { k } else { k + 1 };
                if k < i2.len() - 1 {
                    assert(i2[k] == inits[k0]);
                } else {
                    assert(allocates(inits, a, id));
                }
                assert(rule_init_defines(inits[k0]) is Agent);
                lemma_filled_remove(instrs, f, rule_init_defines(inits[k0])->Agent_0, rule_init_arity(inits[k0], agents, l, r));
            }
        },
        _ => {},
    }
}

/// Applies the reuse rewrite to one rule, left side then right side, using
/// the agents that the rule map gives for it.
pub fn optimize_new_free(rule: &mut Rule, rule_map: &Vec<(AgentId, AgentId, usize)>)
    requires
        old(rule).index < rule_map@.len(),
    ensures
        (final(rule).initializers@, final(rule).instructions@) == reuse_both(
            old(rule).initializers@,
            old(rule).instructions@,
            rule_map@[old(rule).index as int].0,
            rule_map@[old(rule).index as int].1,
        ),
        final(rule).index == old(rule).index,
        final(rule).description == old(rule).description,
        rule_code_closed(old(rule).initializers@, old(rule).instructions@) ==> rule_code_closed(
            final(rule).initializers@,
            final(rule).instructions@,
        ),
        forall|agents: Seq<AgentMeta>|
            rule_slots_fit(
                old(rule).initializers@,
                old(rule).instructions@,
                agents,
                rule_map@[old(rule).index as int].0,
                rule_map@[old(rule).index as int].1,
            ) ==> #[trigger] rule_slots_fit(
                final(rule).initializers@,
                final(rule).instructions@,
                agents,
                rule_map@[old(rule).index as int].0,
                rule_map@[old(rule).index as int].1,
            ),
        forall|agents: Seq<AgentMeta>|
            rule_slots_complete(
                old(rule).initializers@,
                old(rule).instructions@,
                agents,
                rule_map@[old(rule).index as int].0,
                rule_map@[old(rule).index as int].1,
            ) ==> #[trigger] rule_slots_complete(
                final(rule).initializers@,
                final(rule).instructions@,
                agents,
                rule_map@[old(rule).index as int].0,
                rule_map@[old(rule).index as int].1,
            ),
{
    let left_id = rule_map[rule.index].0;
    let right_id = rule_map[rule.index].1;
    let ghost i0 = rule.initializers@;
    let ghost s0 = rule.instructions@;
    reuse(rule, left_id, true);
    let ghost i1 = rule.initializers@;
    let ghost s1 = rule.instructions@;
    reuse(rule, right_id, false);
    proof {
        if rule_code_closed(i0, s0) {
            lemma_reuse_side_closed(i0, s0, left_id, true);
            lemma_reuse_side_closed(i1, s1, right_id, false);
        }
        assert forall|agents: Seq<AgentMeta>|
            rule_slots_fit(i0, s0, agents, left_id, right_id) implies #[trigger] rule_slots_fit(
                rule.initializers@,
                rule.instructions@,
                agents,
                left_id,
                right_id,
            ) by {
            lemma_reuse_side_fit(i0, s0, agents, left_id, right_id, true);
            lemma_reuse_side_fit(i1, s1, agents, left_id, right_id, false);
        }
        assert forall|agents: Seq<AgentMeta>|
            rule_slots_complete(i0, s0, agents, left_id, right_id) implies #[trigger] rule_slots_complete(
                rule.initializers@,
                rule.instructions@,
                agents,
                left_id,
                right_id,
            ) by {
            lemma_reuse_side_complete(i0, s0, agents, left_id, right_id, true);
            lemma_reuse_side_complete(i1, s1, agents, left_id, right_id, false);
        }
    }
}

/// Applies the reuse rewrite to every rule of a program.
#[verifier::rlimit(50)]
pub fn optimize(program: &mut Program)
    requires
        rule_map_canonical(*old(program)),
    ensures
        final(program).agents == old(program).agents,
        final(program).rule_map == old(program).rule_map,
        final(program).functions == old(program).functions,
        final(program).function_meta == old(program).function_meta,
        final(program).entry_point == old(program).entry_point,
        final(program).rules@.len() == old(program).rules@.len(),
        forall|i: int|
            0 <= i < final(program).rules@.len() ==> {
                let (a, b) = reuse_both(
                    old(program).rules@[i].initializers@,
                    old(program).rules@[i].instructions@,
                    old(program).rule_map@[i].0,
                    old(program).rule_map@[i].1,
                );
                &&& (#[trigger] final(program).rules@[i]).initializers@ == a
                &&& final(program).rules@[i].instructions@ == b
                &&& final(program).rules@[i].index == i
                &&& final(program).rules@[i].description == old(program).rules@[i].description
            },
        program_wf(*old(program)) ==> program_wf(*final(program)),
{
    let n = program.rules.len();
    let mut i: usize = 0;
    while i < n
        invariant
            i <= n == program.rules@.len() == old(program).rules@.len(),
            program.agents == old(program).agents,
            program.rule_map == old(program).rule_map,
            program.functions == old(program).functions,
            program.function_meta == old(program).function_meta,
            program.entry_point == old(program).entry_point,
            rule_map_canonical(*old(program)),
            forall|k: int| i <= k < n ==> #[trigger] program.rules@[k] == old(program).rules@[k],
            forall|k: int|
                0 <= k < i ==> {
                    let (a, b) = reuse_both(
                        old(program).rules@[k].initializers@,
                        old(program).rules@[k].instructions@,
                        old(program).rule_map@[k].0,
                        old(program).rule_map@[k].1,
                    );
                    &&& (#[trigger] program.rules@[k]).initializers@ == a
                    &&& program.rules@[k].instructions@ == b
                    &&& program.rules@[k].index == k
                    &&& program.rules@[k].description == old(program).rules@[k].description
                    &&& (rule_code_closed(old(program).rules@[k].initializers@, old(program).rules@[k].instructions@)
                        ==> rule_code_closed(a, b))
                    &&& (rule_slots_fit(old(program).rules@[k].initializers@, old(program).rules@[k].instructions@,
                        old(program).agents@, old(program).rule_map@[k].0, old(program).rule_map@[k].1)
                        ==> rule_slots_fit(a, b, old(program).agents@, old(program).rule_map@[k].0, old(program).rule_map@[k].1))
                    &&& (rule_slots_complete(old(program).rules@[k].initializers@, old(program).rules@[k].instructions@,
                        old(program).agents@, old(program).rule_map@[k].0, old(program).rule_map@[k].1)
                        ==> rule_slots_complete(a, b, old(program).agents@, old(program).rule_map@[k].0, old(program).rule_map@[k].1))
                },
        decreases n - i,
    {
        let ghost before = program.rules@;
        let mut rule = program.rules.remove(i);
        proof {
            assert(rule == old(program).rules@[i as int]);
            assert(old(program).rule_map@[i as int].2 == i);
        }
        let ghost r0 = rule;
        optimize_new_free(&mut rule, &program.rule_map);
        proof {
            let agents = old(program).agents@;
            let (lid, rid) = (old(program).rule_map@[i as int].0, old(program).rule_map@[i as int].1);
            if rule_slots_fit(r0.initializers@, r0.instructions@, agents, lid, rid) {
                assert(rule_slots_fit(rule.initializers@, rule.instructions@, agents, lid, rid));
            }
            if rule_slots_complete(r0.initializers@, r0.instructions@, agents, lid, rid) {
                assert(rule_slots_complete(rule.initializers@, rule.instructions@, agents, lid, rid));
            }
        }
        program.rules.insert(i, rule);
        proof {
            assert(program.rules@ =~= before.update(i as int, rule));
            assert forall|k: int| 0 <= k < i + 1 implies {
                let (a, b) = reuse_both(
                    old(program).rules@[k].initializers@,
                    old(program).rules@[k].instructions@,
                    old(program).rule_map@[k].0,
                    old(program).rule_map@[k].1,
                );
                &&& (#[trigger] program.rules@[k]).initializers@ == a
                &&& program.rules@[k].instructions@ == b
                &&& program.rules@[k].index == k
                &&& program.rules@[k].description == old(program).rules@[k].description
                &&& (rule_code_closed(old(program).rules@[k].initializers@, old(program).rules@[k].instructions@)
                    ==> rule_code_closed(a, b))
                &&& (rule_slots_fit(old(program).rules@[k].initializers@, old(program).rules@[k].instructions@,
                    old(program).agents@, old(program).rule_map@[k].0, old(program).rule_map@[k].1)
                    ==> rule_slots_fit(a, b, old(program).agents@, old(program).rule_map@[k].0, old(program).rule_map@[k].1))
                &&& (rule_slots_complete(old(program).rules@[k].initializers@, old(program).rules@[k].instructions@,
                    old(program).agents@, old(program).rule_map@[k].0, old(program).rule_map@[k].1)
                    ==> rule_slots_complete(a, b, old(program).agents@, old(program).rule_map@[k].0, old(program).rule_map@[k].1))
            } by {
                if k < i {
                    assert(program.rules@[k] == before[k]);
                } else {
                    assert(program.rules@[k] == rule);
                    assert(r0 == old(program).rules@[k]);
                }
            }
        }
        i += 1;
    }
    proof {
        if program_wf(*old(program)) {
            assert forall|k: int| 0 <= k < program.rules@.len() implies rule_code_closed(
                (#[trigger] program.rules@[k]).initializers@,
                program.rules@[k].instructions@,
            ) && rule_slots_fit(
                program.rules@[k].initializers@,
                program.rules@[k].instructions@,
                program.agents@,
                program.rule_map@[k].0,
                program.rule_map@[k].1,
            ) && rule_slots_complete(
                program.rules@[k].initializers@,
                program.rules@[k].instructions@,
                program.agents@,
                program.rule_map@[k].0,
                program.rule_map@[k].1,
            ) by {
                assert(rule_slots_complete(old(program).rules@[k].initializers@, old(program).rules@[k].instructions@,
                    old(program).agents@, old(program).rule_map@[k].0, old(program).rule_map@[k].1));
                assert(rule_code_closed(old(program).rules@[k].initializers@, old(program).rules@[k].instructions@));
                assert(rule_slots_fit(old(program).rules@[k].initializers@, old(program).rules@[k].instructions@,
                    old(program).agents@, old(program).rule_map@[k].0, old(program).rule_map@[k].1));
            }
        }
    }
}

} // verus!
