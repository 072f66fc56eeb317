//! Abstract syntax of modules: names, agents, terms, equations, rules and nets.

use vstd::prelude::*;

verus! {

/// A linear variable, polarised as input (`#x`) or output (`@x`).
pub enum Name {
    In(String),
    Out(String),
}

impl Name {
    /// The identifier without its polarity sigil.
    pub open spec fn ident(&self) -> Seq<char> {
        match self {
            Name::In(s) => s@,
            Name::Out(s) => s@,
        }
    }

    /// Whether this is an input name.
    pub open spec fn is_input(&self) -> bool {
        self is In
    }

    /// The identifier without its polarity sigil.
    pub fn as_name(&self) -> (r: &String)
        ensures
            r@ == self.ident(),
    {
        match self {
            Name::In(s) => s,
            Name::Out(s) => s,
        }
    }

    /// The same identifier with the opposite polarity.
    pub open spec fn flip(&self) -> Name {
        match self {
            Name::In(s) => Name::Out(*s),
            Name::Out(s) => Name::In(*s),
        }
    }

    /// The same identifier with the opposite polarity.
    pub fn flipped(&self) -> (r: Name)
        ensures
            r == self.flip(),
    {
        match self {
            Name::In(s) => Name::Out(s.clone()),
            Name::Out(s) => Name::In(s.clone()),
        }
    }

    /// Whether this is an input name.
    pub fn is_in(&self) -> (r: bool)
        ensures
            r == self.is_input(),
    {
        match self {
            Name::In(_) => true,
            Name::Out(_) => false,
        }
    }

    /// A copy of this name with the same polarity and identifier.
    pub fn duplicate(&self) -> (r: Name)
        ensures
            r == *self,
    {
        match self {
            Name::In(s) => Name::In(s.clone()),
            Name::Out(s) => Name::Out(s.clone()),
        }
    }
}

/// An agent symbol applied to argument terms.
pub struct Agent {
    pub name: String,
    pub body: Vec<Term>,
}

/// A name or an agent.
pub enum Term {
    Name(Name),
    Agent(Agent),
}

/// An equation `left = right` between two terms.
pub struct Equation {
    pub left: Term,
    pub right: Term,
}

/// One head of a rule: an agent symbol applied to names.
pub struct RuleTerm {
    pub agent: String,
    pub body: Vec<Name>,
}

/// A rule `left >< right => equations`.
pub struct Rule {
    pub left: RuleTerm,
    pub right: RuleTerm,
    pub equations: Vec<Equation>,
}

/// A named net `name <| interfaces |> equations`.
pub struct Net {
    pub name: String,
    pub interfaces: Vec<Term>,
    pub equations: Vec<Equation>,
}

/// A parsed module: rules and nets in source order.
pub struct Module {
    pub rules: Vec<Rule>,
    pub nets: Vec<Net>,
}

/// The names of a term in left-to-right order, nested occurrences included.
pub open spec fn term_names(t: Term) -> Seq<Name>
    decreases t, 0int,
{
    match t {
        Term::Name(n) => seq![n],
        Term::Agent(a) => args_names(a, a.body@.len() as int),
    }
}

/// The names of the first `k` arguments of an agent.
pub open spec fn args_names(a: Agent, k: int) -> Seq<Name>
    decreases a, k,
{
    if k <= 0 || k > a.body@.len() {
        seq![]
    } else {
        args_names(a, k - 1) + term_names(a.body@[k - 1])
    }
}

/// The names of a sequence of terms, in order.
pub open spec fn terms_names(ts: Seq<Term>) -> Seq<Name>
    decreases ts.len(),
{
    if ts.len() == 0 {
        seq![]
    } else {
        terms_names(ts.drop_last()) + term_names(ts.last())
    }
}

/// The names of a sequence of equations: each left side, then its right side.
pub open spec fn equations_names(es: Seq<Equation>) -> Seq<Name>
    decreases es.len(),
{
    if es.len() == 0 {
        seq![]
    } else {
        equations_names(es.drop_last()) + term_names(es.last().left) + term_names(
            es.last().right,
        )
    }
}

/// Appends the names of `ts` to `out`.
pub fn collect_terms_names(ts: &Vec<Term>, out: &mut Vec<Name>)
    ensures
        final(out)@ == old(out)@ + terms_names(ts@),
{
    let ghost start = out@;
    let mut i: usize = 0;
    while i < ts.len()
        invariant
            i <= ts@.len(),
            out@ == start + terms_names(ts@.subrange(0, i as int)),
        decreases ts@.len() - i,
    {
        proof {
            assert(ts@.subrange(0, i + 1).drop_last() == ts@.subrange(0, i as int));
        }
        collect_term_names(&ts[i], out);
        i += 1;
    }
    proof {
        assert(ts@.subrange(0, ts@.len() as int) == ts@);
    }
}

/// Appends the names of `es` to `out`.
pub fn collect_equations_names(es: &Vec<Equation>, out: &mut Vec<Name>)
    ensures
        final(out)@ == old(out)@ + equations_names(es@),
{
    let ghost start = out@;
    let mut i: usize = 0;
    while i < es.len()
        invariant
            i <= es@.len(),
            out@ == start + equations_names(es@.subrange(0, i as int)),
        decreases es@.len() - i,
    {
        proof {
            assert(es@.subrange(0, i + 1).drop_last() == es@.subrange(0, i as int));
        }
        collect_term_names(&es[i].left, out);
        collect_term_names(&es[i].right, out);
        i += 1;
    }
    proof {
        assert(es@.subrange(0, es@.len() as int) == es@);
    }
}

/// Appends copies of `ns` to `out`, each flipped when `flipped` holds.
pub fn collect_heads(ns: &Vec<Name>, flipped: bool, out: &mut Vec<Name>)
    ensures
        final(out)@ == old(out)@ + if flipped {
            ns@.map_values(|n: Name| n.flip())
        } else {
            ns@
        },
{
    let ghost start = out@;
    let mut i: usize = 0;
    while i < ns.len()
        invariant
            i <= ns@.len(),
            out@ == start + if flipped {
                ns@.subrange(0, i as int).map_values(|n: Name| n.flip())
            } else {
                ns@.subrange(0, i as int)
            },
        decreases ns@.len() - i,
    {
        proof {
            assert(ns@.subrange(0, i + 1) == ns@.subrange(0, i as int).push(ns@[i as int]));
        }
        if flipped {
            out.push(ns[i].flipped());
        } else {
            out.push(ns[i].duplicate());
        }
        proof {
            if flipped {
                assert(ns@.subrange(0, i + 1).map_values(|n: Name| n.flip()) == ns@.subrange(
                    0,
                    i as int,
                ).map_values(|n: Name| n.flip()).push(ns@[i as int].flip()));
            }
        }
        i += 1;
    }
    proof {
        assert(ns@.subrange(0, ns@.len() as int) == ns@);
    }
}

/// Appends the names of `t` to `out`.
pub fn collect_term_names(t: &Term, out: &mut Vec<Name>)
    ensures
        final(out)@ == old(out)@ + term_names(*t),
    decreases t,
{
    match t {
        Term::Name(n) => {
            out.push(n.duplicate());
        },
        Term::Agent(a) => {
            let n = a.body.len();
            let mut i: usize = 0;
            let ghost start = out@;
            while i < n
                invariant
                    i <= n,
                    n == a.body@.len(),
                    *t == Term::Agent(*a),
                    out@ == start + args_names(*a, i as int),
                decreases n - i,
            {
                proof {
                    assert(t->Agent_0 == *a);
                    assert(decreases_to!(*t => t->Agent_0));
                    assert(decreases_to!(*a => a.body));
                    assert(decreases_to!(a.body => a.body@[i as int]));
                }
                collect_term_names(&a.body[i], out);
                i += 1;
            }
        },
    }
}

} // verus!
