//! Semantic checks on a parsed module: linearity, the two-occurrence law,
//! input/output balance, equation direction, rule overlap and the entry point.

use vstd::prelude::*;

use crate::ast::{
    collect_equations_names, collect_heads, collect_terms_names, equations_names, terms_names,
    Equation, Module, Name, Net, Rule, Term,
};

verus! {

/// Why a module is rejected. Rule errors carry rule indices in the module.
pub enum TypeError {
    /// A name occurs twice among the arguments of a rule's two heads.
    NonLinearRule { name: Name },
    /// A name of a rule or net does not occur exactly twice.
    VariableCountError { name: Name, count: usize },
    /// Two rules, the later one first, have the same pair of head agents.
    OverlappingRules(usize, usize),
    /// A name is used as input where its first occurrence already was one.
    MultipleTimesAsInput { name: Name },
    /// A name is used as output where its first occurrence already was one.
    MultipleTimesAsOutput { name: Name },
    /// A bare input name stands on the right of an equation.
    MisdirectedInput { name: Name },
    /// A bare output name stands on the left of an equation.
    MisdirectedOutput { name: Name },
    /// No net is called `Main`.
    NoMainFunction,
}

// ---------------------------------------------------------------------------
// Occurrence sequences
/// The arguments of both heads of a rule, left head first.
pub open spec fn head_names(rule: Rule) -> Seq<Name> {
    rule.left.body@ + rule.right.body@
}

/// Every name occurrence of a rule: head arguments, then the body's equations.
pub open spec fn rule_names(rule: Rule) -> Seq<Name> {
    head_names(rule) + equations_names(rule.equations@)
}

/// Every name occurrence of a net: its equations, then its interfaces.
pub open spec fn net_names(net: Net) -> Seq<Name> {
    equations_names(net.equations@) + terms_names(net.interfaces@)
}

/// The roles of a rule's names: head arguments with their polarity reversed,
/// since the body produces into them, then the body's occurrences.
pub open spec fn rule_roles(rule: Rule) -> Seq<Name> {
    head_names(rule).map_values(|n: Name| n.flip()) + equations_names(rule.equations@)
}

/// The roles of a net's names: interfaces, then equations.
pub open spec fn net_roles(net: Net) -> Seq<Name> {
    terms_names(net.interfaces@) + equations_names(net.equations@)
}

// ---------------------------------------------------------------------------
// Linearity of rule heads
/// Position `j` repeats an identifier that occurs before it.
pub open spec fn repeats_earlier(s: Seq<Name>, j: int) -> bool {
    0 <= j < s.len() && exists|i: int| 0 <= i < j && #[trigger] s[i].ident() == s[j].ident()
}

/// Position `j` is the first that repeats an earlier identifier.
pub open spec fn first_repeat(s: Seq<Name>, j: int) -> bool {
    repeats_earlier(s, j) && forall|k: int| 0 <= k < j ==> !#[trigger] repeats_earlier(s, k)
}

/// No identifier occurs twice in `s`.
pub open spec fn all_distinct(s: Seq<Name>) -> bool {
    forall|i: int, j: int| 0 <= i < j < s.len() ==> s[i].ident() != s[j].ident()
}

/// What the linearity check of a rule's heads returns.
pub open spec fn rule_terms_result(rule: Rule) -> Result<(), TypeError> {
    let s = head_names(rule);
    if exists|j: int| first_repeat(s, j) {
        let j = choose|j: int| first_repeat(s, j);
        Err(TypeError::NonLinearRule { name: s[j] })
    } else {
        Ok(())
    }
}

// ---------------------------------------------------------------------------
// The two-occurrence law
/// How often identifier `id` occurs in `s`.
pub open spec fn count_ident(s: Seq<Name>, id: Seq<char>) -> nat
    decreases s.len(),
{
    if s.len() == 0 {
        0
    } else {
        count_ident(s.drop_last(), id) + if s.last().ident() == id {
            1nat
        } else {
            0nat
        }
    }
}

/// Position `j` holds a name that does not occur exactly twice.
pub open spec fn miscounted(s: Seq<Name>, j: int) -> bool {
    0 <= j < s.len() && count_ident(s, s[j].ident()) != 2
}

/// Position `j` is the first miscounted one.
pub open spec fn first_miscounted(s: Seq<Name>, j: int) -> bool {
    miscounted(s, j) && forall|k: int| 0 <= k < j ==> !#[trigger] miscounted(s, k)
}

/// What the count check returns on the occurrences `s`.
pub open spec fn count_result(s: Seq<Name>) -> Result<(), TypeError> {
    if exists|j: int| first_miscounted(s, j) {
        let j = choose|j: int| first_miscounted(s, j);
        Err(TypeError::VariableCountError { name: s[j], count: count_ident(s, s[j].ident()) as usize })
    } else {
        Ok(())
    }
}

// ---------------------------------------------------------------------------
// Input/output balance
/// Position `j` has the same role as the first occurrence of its identifier.
pub open spec fn role_clash(s: Seq<Name>, j: int) -> bool {
    0 <= j < s.len() && exists|i: int|
        0 <= i < j && #[trigger] s[i].ident() == s[j].ident() && (forall|k: int|
            0 <= k < i ==> s[k].ident() != s[j].ident()) && s[i].is_input() == s[j].is_input()
}

/// Position `j`, at or after `from`, is the first clash at or after `from`.
pub open spec fn first_clash(s: Seq<Name>, from: int, j: int) -> bool {
    from <= j && role_clash(s, j) && forall|k: int| from <= k < j ==> !#[trigger] role_clash(s, k)
}

/// The error for a name that repeats the role of its first occurrence.
pub open spec fn clash_error(n: Name) -> TypeError {
    if n.is_input() {
        TypeError::MultipleTimesAsInput { name: n }
    } else {
        TypeError::MultipleTimesAsOutput { name: n }
    }
}

/// What the balance check returns on the roles `s`, whose first `from`
/// positions only seed the expected roles.
pub open spec fn balance_result(s: Seq<Name>, from: int) -> Result<(), TypeError> {
    if exists|j: int| first_clash(s, from, j) {
        let j = choose|j: int| first_clash(s, from, j);
        Err(clash_error(s[j]))
    } else {
        Ok(())
    }
}

// ---------------------------------------------------------------------------
// Equation direction
/// What the direction check of one equation returns.
pub open spec fn direction_result(e: Equation) -> Result<(), TypeError> {
    match e.left {
        Term::Name(Name::Out(s)) => Err(TypeError::MisdirectedOutput { name: Name::Out(s) }),
        _ => match e.right {
            Term::Name(Name::In(s)) => Err(TypeError::MisdirectedInput { name: Name::In(s) }),
            _ => Ok(()),
        },
    }
}

/// The first direction error among `es`, if any.
pub open spec fn directions_result(es: Seq<Equation>) -> Result<(), TypeError>
    decreases es.len(),
{
    if es.len() == 0 {
        Ok(())
    } else {
        match directions_result(es.drop_last()) {
            Err(e) => Err(e),
            Ok(()) => direction_result(es.last()),
        }
    }
}

// ---------------------------------------------------------------------------
// Overlap and entry point
/// Two rules have the same unordered pair of head agents.
pub open spec fn same_heads(a: Rule, b: Rule) -> bool {
    (a.left.agent@ == b.left.agent@ && a.right.agent@ == b.right.agent@) || (a.left.agent@
        == b.right.agent@ && a.right.agent@ == b.left.agent@)
}

/// Rule `j` has the same heads as rule `i`, the first earlier rule that does.
pub open spec fn overlaps_at(rules: Seq<Rule>, j: int, i: int) -> bool {
    0 <= i < j < rules.len() && same_heads(rules[i], rules[j]) && forall|k: int|
        0 <= k < i ==> !same_heads(#[trigger] rules[k], rules[j])
}

/// Rule `j` has the heads of some earlier rule.
pub open spec fn overlaps(rules: Seq<Rule>, j: int) -> bool {
    exists|i: int| overlaps_at(rules, j, i)
}

/// Rule `j` is the first that has the heads of an earlier rule.
pub open spec fn first_overlap(rules: Seq<Rule>, j: int) -> bool {
    overlaps(rules, j) && forall|k: int| 0 <= k < j ==> !#[trigger] overlaps(rules, k)
}

/// What the overlap check returns.
pub open spec fn overlap_result(rules: Seq<Rule>) -> Result<(), TypeError> {
    if exists|j: int| first_overlap(rules, j) {
        let j = choose|j: int| first_overlap(rules, j);
        let i = choose|i: int| overlaps_at(rules, j, i);
        Err(TypeError::OverlappingRules(j as usize, i as usize))
    } else {
        Ok(())
    }
}

/// The identifier of the entry net.
pub open spec fn main_ident() -> Seq<char> {
    seq!['M', 'a', 'i', 'n']
}

/// Some net is called `Main`.
pub open spec fn has_main(nets: Seq<Net>) -> bool {
    exists|i: int| 0 <= i < nets.len() && #[trigger] nets[i].name@ == main_ident()
}

// ---------------------------------------------------------------------------
// Executable helpers
fn same_ident(a: &Name, b: &Name) -> (r: bool)
    ensures
        r == (a.ident() == b.ident()),
{
    let x = a.as_name();
    let y = b.as_name();
    *x == *y
}

fn count_ident_of(s: &Vec<Name>, n: &Name) -> (c: usize)
    ensures
        c == count_ident(s@, n.ident()),
{
    let mut c: usize = 0;
    let mut i: usize = 0;
    while i < s.len()
        invariant
            i <= s@.len(),
            c == count_ident(s@.subrange(0, i as int), n.ident()),
            c <= i,
        decreases s@.len() - i,
    {
        proof {
            assert(s@.subrange(0, i + 1).drop_last() == s@.subrange(0, i as int));
        }
        if same_ident(&s[i], n) {
            c += 1;
        }
        i += 1;
    }
    proof {
        assert(s@.subrange(0, s@.len() as int) == s@);
    }
    c
}

fn first_repeat_of(s: &Vec<Name>) -> (r: Option<usize>)
    ensures
        match r {
            Some(j) => first_repeat(s@, j as int),
            None => all_distinct(s@) && forall|j: int| !#[trigger] repeats_earlier(s@, j),
        },
{
    let mut j: usize = 0;
    while j < s.len()
        invariant
            j <= s@.len(),
            forall|k: int| 0 <= k < j ==> !#[trigger] repeats_earlier(s@, k),
            forall|a: int, b: int| 0 <= a < b < j ==> s@[a].ident() != s@[b].ident(),
        decreases s@.len() - j,
    {
        let mut i: usize = 0;
        while i < j
            invariant
                i <= j < s@.len(),
                forall|a: int| 0 <= a < i ==> s@[a].ident() != s@[j as int].ident(),
                forall|k: int| 0 <= k < j ==> !#[trigger] repeats_earlier(s@, k),
                forall|a: int, b: int| 0 <= a < b < j ==> s@[a].ident() != s@[b].ident(),
            decreases j - i,
        {
            if same_ident(&s[i], &s[j]) {
                proof {
                    assert(s@[i as int].ident() == s@[j as int].ident());
                    assert(repeats_earlier(s@, j as int));
                }
                return Some(j);
            }
            i += 1;
        }
        j += 1;
    }
    None
}

fn first_miscounted_of(s: &Vec<Name>) -> (r: Option<(usize, usize)>)
    ensures
        match r {
            Some((j, c)) => first_miscounted(s@, j as int) && c == count_ident(s@, s@[j as int].ident()),
            None => forall|j: int| !#[trigger] miscounted(s@, j),
        },
{
    let mut j: usize = 0;
    while j < s.len()
        invariant
            j <= s@.len(),
            forall|k: int| 0 <= k < j ==> !#[trigger] miscounted(s@, k),
        decreases s@.len() - j,
    {
        let c = count_ident_of(s, &s[j]);
        if c != 2 {
            return Some((j, c));
        }
        j += 1;
    }
    None
}

fn first_clash_of(s: &Vec<Name>, from: usize) -> (r: Option<usize>)
    ensures
        match r {
            Some(j) => first_clash(s@, from as int, j as int),
            None => forall|j: int| from <= j ==> !#[trigger] role_clash(s@, j),
        },
{
    let mut j: usize = from;
    while j < s.len()
        invariant
            from <= j || j >= s@.len(),
            forall|k: int| from <= k < j ==> !#[trigger] role_clash(s@, k),
        decreases s@.len() - j,
    {
        let mut i: usize = 0;
        while !same_ident(&s[i], &s[j])
            invariant
                i <= j < s@.len(),
                from <= j,
                forall|a: int| 0 <= a < i ==> s@[a].ident() != s@[j as int].ident(),
                forall|k: int| from <= k < j ==> !#[trigger] role_clash(s@, k),
            decreases j - i,
        {
            i += 1;
        }
        let clash = i < j && s[i].is_in() == s[j].is_in();
        if clash {
            proof {
                assert(s@[i as int].ident() == s@[j as int].ident());
            }
            return Some(j);
        }
        proof {
            assert forall|a: int| 0 <= a < j && #[trigger] s@[a].ident() == s@[j as int].ident() && (
            forall|k: int| 0 <= k < a ==> s@[k].ident() != s@[j as int].ident()) implies s@[a].is_input()
                != s@[j as int].is_input() by {
                if a < i {
                } else if a > i {
                    assert(s@[i as int].ident() == s@[j as int].ident());
                }
            }
        }
        j += 1;
    }
    None
}

// ---------------------------------------------------------------------------
// The checks
/// Rejects a rule whose two heads share an argument name.
pub fn check_rule_terms(rule: &Rule) -> (r: Result<(), TypeError>)
    ensures
        r == rule_terms_result(*rule),
        r is Ok <==> all_distinct(head_names(*rule)),
{
    let mut s: Vec<Name> = Vec::new();
    collect_heads(&rule.left.body, false, &mut s);
    collect_heads(&rule.right.body, false, &mut s);
    assert(s@ == head_names(*rule));
    match first_repeat_of(&s) {
        Some(j) => {
            proof {
                let c = choose|c: int| first_repeat(s@, c);
                if c < j {
                    assert(!repeats_earlier(s@, c));
                } else if c > j {
                    assert(!repeats_earlier(s@, j as int));
                }
            }
            Err(TypeError::NonLinearRule { name: s[j].duplicate() })
        },
        None => Ok(()),
    }
}

/// Rejects a rule in which some name does not occur exactly twice, counting
/// head arguments and every occurrence in the body.
pub fn check_rule_variables(rule: &Rule) -> (r: Result<(), TypeError>)
    ensures
        r == count_result(rule_names(*rule)),
        r is Ok <==> forall|j: int| 0 <= j < rule_names(*rule).len() ==> count_ident(rule_names(*rule), #[trigger] rule_names(*rule)[j].ident()) == 2,
{
    let mut s: Vec<Name> = Vec::new();
    collect_heads(&rule.left.body, false, &mut s);
    collect_heads(&rule.right.body, false, &mut s);
    collect_equations_names(&rule.equations, &mut s);
    assert(s@ == rule_names(*rule));
    check_counts(&s)
}

/// Rejects a net in which some name does not occur exactly twice, counting
/// every occurrence in its equations and interfaces.
pub fn check_net_variables(net: &Net) -> (r: Result<(), TypeError>)
    ensures
        r == count_result(net_names(*net)),
        r is Ok <==> forall|j: int| 0 <= j < net_names(*net).len() ==> count_ident(net_names(*net), #[trigger] net_names(*net)[j].ident()) == 2,
{
    let mut s: Vec<Name> = Vec::new();
    collect_equations_names(&net.equations, &mut s);
    collect_terms_names(&net.interfaces, &mut s);
    check_counts(&s)
}

fn check_counts(s: &Vec<Name>) -> (r: Result<(), TypeError>)
    ensures
        r == count_result(s@),
        r is Ok <==> forall|j: int| 0 <= j < s@.len() ==> count_ident(s@, #[trigger] s@[j].ident()) == 2,
{
    match first_miscounted_of(s) {
        Some((j, c)) => {
            proof {
                let k = choose|k: int| first_miscounted(s@, k);
                if k < j {
                    assert(!miscounted(s@, k));
                } else if k > j {
                    assert(!miscounted(s@, j as int));
                }
            }
            Err(TypeError::VariableCountError { name: s[j].duplicate(), count: c })
        },
        None => {
            proof {
                assert forall|j: int| 0 <= j < s@.len() implies count_ident(s@, #[trigger] s@[j].ident()) == 2 by {
                    assert(!miscounted(s@, j));
                }
            }
            Ok(())
        },
    }
}

fn check_balance(s: &Vec<Name>, from: usize) -> (r: Result<(), TypeError>)
    ensures
        r == balance_result(s@, from as int),
        r is Ok <==> forall|j: int| from <= j ==> !#[trigger] role_clash(s@, j),
{
    match first_clash_of(s, from) {
        Some(j) => {
            proof {
                let k = choose|k: int| first_clash(s@, from as int, k);
                if k < j {
                    assert(!role_clash(s@, k));
                } else if k > j {
                    assert(!role_clash(s@, j as int));
                }
            }
            if s[j].is_in() {
                Err(TypeError::MultipleTimesAsInput { name: s[j].duplicate() })
            } else {
                Err(TypeError::MultipleTimesAsOutput { name: s[j].duplicate() })
            }
        },
        None => Ok(()),
    }
}

/// Rejects a net in which a name is used twice in the same role. The first
/// occurrence of a name, over interfaces and then equations, fixes its role;
/// the second must take the other one.
pub fn check_net_io_balance(net: &Net) -> (r: Result<(), TypeError>)
    ensures
        r == balance_result(net_roles(*net), 0),
        r is Ok <==> forall|j: int| !#[trigger] role_clash(net_roles(*net), j),
{
    let mut s: Vec<Name> = Vec::new();
    collect_terms_names(&net.interfaces, &mut s);
    collect_equations_names(&net.equations, &mut s);
    check_balance(&s, 0)
}

/// Rejects a rule in which a name is used twice in the same role. Head
/// arguments fix the reversed role, since the body produces into them.
pub fn check_rule_io_balance(rule: &Rule) -> (r: Result<(), TypeError>)
    ensures
        r == balance_result(rule_roles(*rule), head_names(*rule).len() as int),
        r is Ok <==> forall|j: int| head_names(*rule).len() <= j ==> !#[trigger] role_clash(rule_roles(*rule), j),
{
    let mut s: Vec<Name> = Vec::new();
    collect_heads(&rule.left.body, true, &mut s);
    collect_heads(&rule.right.body, true, &mut s);
    let from = s.len();
    assert(rule.left.body@.map_values(|n: Name| n.flip()) + rule.right.body@.map_values(|n: Name| n.flip()) == head_names(*rule).map_values(|n: Name| n.flip()));
    collect_equations_names(&rule.equations, &mut s);
    assert(s@ == rule_roles(*rule));
    check_balance(&s, from)
}

/// Rejects an equation whose left side is a bare output name, or whose
/// right side is a bare input name; the left side is checked first.
pub fn check_equation_var_io_dir(equation: &Equation) -> (r: Result<(), TypeError>)
    ensures
        r == direction_result(*equation),
{
    if let Term::Name(name) = &equation.left {
        if !name.is_in() {
            return Err(TypeError::MisdirectedOutput { name: name.duplicate() });
        }
    }
    if let Term::Name(name) = &equation.right {
        if name.is_in() {
            return Err(TypeError::MisdirectedInput { name: name.duplicate() });
        }
    }
    Ok(())
}

fn check_directions(es: &Vec<Equation>) -> (r: Result<(), TypeError>)
    ensures
        r == directions_result(es@),
{
    let mut i: usize = 0;
    while i < es.len()
        invariant
            i <= es@.len(),
            directions_result(es@.subrange(0, i as int)) is Ok,
        decreases es@.len() - i,
    {
        proof {
            assert(es@.subrange(0, i + 1).drop_last() == es@.subrange(0, i as int));
        }
        let r = check_equation_var_io_dir(&es[i]);
        if r.is_err() {
            proof {
                lemma_directions_prefix_err(es@, i as int + 1);
            }
            return r;
        }
        i += 1;
    }
    proof {
        assert(es@.subrange(0, es@.len() as int) == es@);
    }
    Ok(())
}

/// An error found in a prefix of the equations is the one reported.
proof fn lemma_directions_prefix_err(es: Seq<Equation>, n: int)
    requires
        0 <= n <= es.len(),
        directions_result(es.subrange(0, n)) is Err,
    ensures
        directions_result(es) == directions_result(es.subrange(0, n)),
    decreases es.len() - n,
{
    if n < es.len() {
        assert(es.subrange(0, n + 1).drop_last() == es.subrange(0, n));
        lemma_directions_prefix_err(es, n + 1);
    } else {
        assert(es.subrange(0, n) == es);
    }
}

fn same_ident_str(a: &String, b: &String) -> (r: bool)
    ensures
        r == (a@ == b@),
{
    *a == *b
}

fn rules_same_heads(a: &Rule, b: &Rule) -> (r: bool)
    ensures
        r == same_heads(*a, *b),
{
    (same_ident_str(&a.left.agent, &b.left.agent) && same_ident_str(&a.right.agent, &b.right.agent))
        || (same_ident_str(&a.left.agent, &b.right.agent) && same_ident_str(&a.right.agent, &b.left.agent))
}

/// Rejects two rules with the same unordered pair of head agents, reporting
/// the first rule that repeats an earlier pair and the first such earlier rule.
#[verifier::rlimit(50)]
pub fn check_overlapping(program: &Module) -> (r: Result<(), TypeError>)
    ensures
        r == overlap_result(program.rules@),
        r is Ok <==> forall|i: int, j: int| 0 <= i < j < program.rules@.len() ==> !same_heads(program.rules@[i], program.rules@[j]),
{
    let mut j: usize = 0;
    while j < program.rules.len()
        invariant
            j <= program.rules@.len(),
            forall|k: int| 0 <= k < j ==> !#[trigger] overlaps(program.rules@, k),
            forall|a: int, b: int| 0 <= a < b < j ==> !same_heads(program.rules@[a], program.rules@[b]),
        decreases program.rules@.len() - j,
    {
        let mut i: usize = 0;
        while i < j
            invariant
                i <= j < program.rules@.len(),
                forall|k: int| 0 <= k < i ==> !same_heads(#[trigger] program.rules@[k], program.rules@[j as int]),
                forall|k: int| 0 <= k < j ==> !#[trigger] overlaps(program.rules@, k),
                forall|a: int, b: int| 0 <= a < b < j ==> !same_heads(program.rules@[a], program.rules@[b]),
            decreases j - i,
        {
            if rules_same_heads(&program.rules[i], &program.rules[j]) {
                proof {
                    assert(overlaps_at(program.rules@, j as int, i as int));
                    assert(first_overlap(program.rules@, j as int));
                    let c = choose|c: int| first_overlap(program.rules@, c);
                    if c < j {
                        assert(!overlaps(program.rules@, c));
                    } else if c > j {
                        assert(!overlaps(program.rules@, j as int));
                    }
                    let d = choose|d: int| overlaps_at(program.rules@, j as int, d);
                    if d < i {
                        assert(!same_heads(program.rules@[d], program.rules@[j as int]));
                    } else if d > i {
                        assert(!same_heads(program.rules@[i as int], program.rules@[j as int]));
                    }
                    assert(overlap_result(program.rules@) == Err::<(), TypeError>(TypeError::OverlappingRules(j, i)));
                }
                return Err(TypeError::OverlappingRules(j, i));
            }
            i += 1;
        }
        proof {
            assert forall|d: int| !overlaps_at(program.rules@, j as int, d) by {
                if 0 <= d < j {
                    assert(!same_heads(program.rules@[d], program.rules@[j as int]));
                }
            }
        }
        j += 1;
    }
    Ok(())
}

pub(crate) fn is_main(s: &String) -> (r: bool)
    ensures
        r == (s@ == main_ident()),
{
    let m = String::from_str("Main");
    proof {
        reveal_strlit("Main");
        assert(m@ =~= main_ident());
    }
    *s == m
}

/// Rejects a module without a net called `Main`.
pub fn check_main(program: &Module) -> (r: Result<(), TypeError>)
    ensures
        r is Ok <==> has_main(program.nets@),
        r is Err ==> r == Err::<(), TypeError>(TypeError::NoMainFunction),
{
    let mut i: usize = 0;
    while i < program.nets.len()
        invariant
            i <= program.nets@.len(),
            forall|k: int| 0 <= k < i ==> #[trigger] program.nets@[k].name@ != main_ident(),
        decreases program.nets@.len() - i,
    {
        if is_main(&program.nets[i].name) {
            return Ok(());
        }
        i += 1;
    }
    Err(TypeError::NoMainFunction)
}

// ---------------------------------------------------------------------------
// The whole module
/// The first of two results that is an error, else the second.
pub open spec fn first_err(a: Result<(), TypeError>, b: Result<(), TypeError>) -> Result<(), TypeError> {
    if a is Err {
        a
    } else {
        b
    }
}

/// What the checks of one rule return, in the order they run.
pub open spec fn rule_result(rule: Rule) -> Result<(), TypeError> {
    first_err(
        rule_terms_result(rule),
        first_err(
            count_result(rule_names(rule)),
            first_err(
                balance_result(rule_roles(rule), head_names(rule).len() as int),
                directions_result(rule.equations@),
            ),
        ),
    )
}

/// What the checks of one net return, in the order they run.
pub open spec fn net_result(net: Net) -> Result<(), TypeError> {
    first_err(
        count_result(net_names(net)),
        first_err(balance_result(net_roles(net), 0), directions_result(net.equations@)),
    )
}

/// The first error among the rules, in order.
pub open spec fn rules_result(rules: Seq<Rule>) -> Result<(), TypeError>
    decreases rules.len(),
{
    if rules.len() == 0 {
        Ok(())
    } else {
        first_err(rules_result(rules.drop_last()), rule_result(rules.last()))
    }
}

/// The first error among the nets, in order.
pub open spec fn nets_result(nets: Seq<Net>) -> Result<(), TypeError>
    decreases nets.len(),
{
    if nets.len() == 0 {
        Ok(())
    } else {
        first_err(nets_result(nets.drop_last()), net_result(nets.last()))
    }
}

/// What checking a whole module returns: every rule, then every net, then
/// overlap, then the entry point.
pub open spec fn module_result(m: Module) -> Result<(), TypeError> {
    first_err(
        rules_result(m.rules@),
        first_err(
            nets_result(m.nets@),
            first_err(
                overlap_result(m.rules@),
                if has_main(m.nets@) {
                    Ok(())
                } else {
                    Err(TypeError::NoMainFunction)
                },
            ),
        ),
    )
}

proof fn lemma_rules_prefix_err(rules: Seq<Rule>, n: int)
    requires
        0 <= n <= rules.len(),
        rules_result(rules.subrange(0, n)) is Err,
    ensures
        rules_result(rules) == rules_result(rules.subrange(0, n)),
    decreases rules.len() - n,
{
    if n < rules.len() {
        assert(rules.subrange(0, n + 1).drop_last() == rules.subrange(0, n));
        lemma_rules_prefix_err(rules, n + 1);
    } else {
        assert(rules.subrange(0, n) == rules);
    }
}

proof fn lemma_nets_prefix_err(nets: Seq<Net>, n: int)
    requires
        0 <= n <= nets.len(),
        nets_result(nets.subrange(0, n)) is Err,
    ensures
        nets_result(nets) == nets_result(nets.subrange(0, n)),
    decreases nets.len() - n,
{
    if n < nets.len() {
        assert(nets.subrange(0, n + 1).drop_last() == nets.subrange(0, n));
        lemma_nets_prefix_err(nets, n + 1);
    } else {
        assert(nets.subrange(0, n) == nets);
    }
}

fn check_rule(rule: &Rule) -> (r: Result<(), TypeError>)
    ensures
        r == rule_result(*rule),
{
    check_rule_terms(rule)?;
    check_rule_variables(rule)?;
    check_rule_io_balance(rule)?;
    check_directions(&rule.equations)
}

fn check_net(net: &Net) -> (r: Result<(), TypeError>)
    ensures
        r == net_result(*net),
{
    check_net_variables(net)?;
    check_net_io_balance(net)?;
    check_directions(&net.equations)
}

/// Checks a whole module: each rule (linearity, counts, balance, directions),
/// each net (counts, balance, directions), overlap, then the entry point.
/// The first error found is returned.
#[verifier::rlimit(50)]
pub fn check_module(module: &Module) -> (r: Result<(), TypeError>)
    ensures
        r == module_result(*module),
{
    let mut i: usize = 0;
    while i < module.rules.len()
        invariant
            i <= module.rules@.len(),
            rules_result(module.rules@.subrange(0, i as int)) is Ok,
        decreases module.rules@.len() - i,
    {
        proof {
            assert(module.rules@.subrange(0, i + 1).drop_last() == module.rules@.subrange(0, i as int));
        }
        let r = check_rule(&module.rules[i]);
        if r.is_err() {
            proof {
                lemma_rules_prefix_err(module.rules@, i as int + 1);
            }
            return r;
        }
        i += 1;
    }
    proof {
        assert(module.rules@.subrange(0, module.rules@.len() as int) == module.rules@);
    }
    let mut i: usize = 0;
    while i < module.nets.len()
        invariant
            i <= module.nets@.len(),
            rules_result(module.rules@) is Ok,
            nets_result(module.nets@.subrange(0, i as int)) is Ok,
        decreases module.nets@.len() - i,
    {
        proof {
            assert(module.nets@.subrange(0, i + 1).drop_last() == module.nets@.subrange(0, i as int));
        }
        let r = check_net(&module.nets[i]);
        if r.is_err() {
            proof {
                lemma_nets_prefix_err(module.nets@, i as int + 1);
            }
            return r;
        }
        i += 1;
    }
    proof {
        assert(module.nets@.subrange(0, module.nets@.len() as int) == module.nets@);
    }
    let r = check_overlapping(module);
    if r.is_err() {
        return r;
    }
    match check_main(module) {
        Ok(()) => Ok(()),
        Err(e) => Err(e),
    }
}

// ---------------------------------------------------------------------------
// Laws
/// A miscounted position implies a first miscounted one.
proof fn lemma_first_miscounted_exists(s: Seq<Name>, j: int)
    requires
        miscounted(s, j),
    ensures
        exists|k: int| first_miscounted(s, k),
    decreases j,
{
    if exists|k: int| 0 <= k < j && #[trigger] miscounted(s, k) {
        let k = choose|k: int| 0 <= k < j && #[trigger] miscounted(s, k);
        lemma_first_miscounted_exists(s, k);
    } else {
        assert(first_miscounted(s, j));
    }
}

/// An overlap check that passes leaves no two rules with the same heads.
pub proof fn lemma_no_overlap(rules: Seq<Rule>)
    requires
        overlap_result(rules) is Ok,
    ensures
        forall|i: int, j: int| 0 <= i < j < rules.len() ==> !same_heads(#[trigger] rules[i], #[trigger] rules[j]),
{
    assert forall|i: int, j: int| 0 <= i < j < rules.len() implies !same_heads(#[trigger] rules[i], #[trigger] rules[j]) by {
        if same_heads(rules[i], rules[j]) {
            lemma_first_overlap_exists(rules, j);
        }
    }
}

proof fn lemma_first_overlap_exists(rules: Seq<Rule>, j: int)
    requires
        0 <= j < rules.len(),
        exists|i: int| 0 <= i < j && same_heads(#[trigger] rules[i], rules[j]),
    ensures
        exists|k: int| first_overlap(rules, k),
    decreases j,
{
    let i0 = choose|i: int| 0 <= i < j && same_heads(#[trigger] rules[i], rules[j]);
    if !(forall|i: int| 0 <= i < i0 ==> !same_heads(#[trigger] rules[i], rules[j])) {
        let i1 = choose|i: int| 0 <= i < i0 && same_heads(#[trigger] rules[i], rules[j]);
        lemma_min_overlap_partner(rules, j, i1);
    }
    let ip = choose|i: int| 0 <= i < j && same_heads(#[trigger] rules[i], rules[j]) && forall|k: int| 0 <= k < i ==> !same_heads(#[trigger] rules[k], rules[j]);
    assert(overlaps_at(rules, j, ip));
    assert(overlaps(rules, j));
    if exists|k: int| 0 <= k < j && #[trigger] overlaps(rules, k) {
        let k = choose|k: int| 0 <= k < j && #[trigger] overlaps(rules, k);
        let i2 = choose|i: int| overlaps_at(rules, k, i);
        lemma_first_overlap_exists(rules, k);
    } else {
        assert(first_overlap(rules, j));
    }
}

proof fn lemma_min_overlap_partner(rules: Seq<Rule>, j: int, i: int)
    requires
        0 <= i < j < rules.len(),
        same_heads(rules[i], rules[j]),
    ensures
        exists|p: int| 0 <= p < j && same_heads(#[trigger] rules[p], rules[j]) && forall|k: int| 0 <= k < p ==> !same_heads(#[trigger] rules[k], rules[j]),
    decreases i,
{
    if exists|k: int| 0 <= k < i && same_heads(#[trigger] rules[k], rules[j]) {
        let k = choose|k: int| 0 <= k < i && same_heads(#[trigger] rules[k], rules[j]);
        lemma_min_overlap_partner(rules, j, k);
    } else {
        assert(forall|k: int| 0 <= k < i ==> !same_heads(#[trigger] rules[k], rules[j]));
    }
}

/// A count check that passes leaves every name with exactly two occurrences.
proof fn lemma_count_ok(s: Seq<Name>)
    requires
        count_result(s) is Ok,
    ensures
        forall|j: int| 0 <= j < s.len() ==> count_ident(s, #[trigger] s[j].ident()) == 2,
{
    assert forall|j: int| 0 <= j < s.len() implies count_ident(s, #[trigger] s[j].ident()) == 2 by {
        if count_ident(s, s[j].ident()) != 2 {
            lemma_first_miscounted_exists(s, j);
        }
    }
}

proof fn lemma_rules_ok(rules: Seq<Rule>)
    requires
        rules_result(rules) is Ok,
    ensures
        forall|i: int| 0 <= i < rules.len() ==> #[trigger] rule_result(rules[i]) is Ok,
    decreases rules.len(),
{
    if rules.len() > 0 {
        lemma_rules_ok(rules.drop_last());
        assert forall|i: int| 0 <= i < rules.len() implies #[trigger] rule_result(rules[i]) is Ok by {
            if i < rules.len() - 1 {
                assert(rules.drop_last()[i] == rules[i]);
            }
        }
    }
}

proof fn lemma_nets_ok(nets: Seq<Net>)
    requires
        nets_result(nets) is Ok,
    ensures
        forall|i: int| 0 <= i < nets.len() ==> #[trigger] net_result(nets[i]) is Ok,
    decreases nets.len(),
{
    if nets.len() > 0 {
        lemma_nets_ok(nets.drop_last());
        assert forall|i: int| 0 <= i < nets.len() implies #[trigger] net_result(nets[i]) is Ok by {
            if i < nets.len() - 1 {
                assert(nets.drop_last()[i] == nets[i]);
            }
        }
    }
}

/// In a module that passes the checks, every name of a rule (head arguments
/// and body) and every name of a net (interfaces and body) occurs exactly
/// twice.
pub proof fn lemma_checked_names_twice(m: Module)
    requires
        module_result(m) is Ok,
    ensures
        forall|i: int, j: int|
            0 <= i < m.rules@.len() && 0 <= j < rule_names(m.rules@[i]).len() ==> count_ident(
                rule_names(m.rules@[i]),
                #[trigger] rule_names(m.rules@[i])[j].ident(),
            ) == 2,
        forall|i: int, j: int|
            0 <= i < m.nets@.len() && 0 <= j < net_names(m.nets@[i]).len() ==> count_ident(
                net_names(m.nets@[i]),
                #[trigger] net_names(m.nets@[i])[j].ident(),
            ) == 2,
{
    lemma_rules_ok(m.rules@);
    lemma_nets_ok(m.nets@);
    assert forall|i: int, j: int|
        0 <= i < m.rules@.len() && 0 <= j < rule_names(m.rules@[i]).len() implies count_ident(
        rule_names(m.rules@[i]),
        #[trigger] rule_names(m.rules@[i])[j].ident(),
    ) == 2 by {
        assert(rule_result(m.rules@[i]) is Ok);
        lemma_count_ok(rule_names(m.rules@[i]));
    }
    assert forall|i: int, j: int|
        0 <= i < m.nets@.len() && 0 <= j < net_names(m.nets@[i]).len() implies count_ident(
        net_names(m.nets@[i]),
        #[trigger] net_names(m.nets@[i])[j].ident(),
    ) == 2 by {
        assert(net_result(m.nets@[i]) is Ok);
        lemma_count_ok(net_names(m.nets@[i]));
    }
}

} // verus!
