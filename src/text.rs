//! Source-form rendering of terms and equations, used as descriptions in
//! the IR.

use vstd::prelude::*;
use vstd::string::StringExecFns;

use crate::ast::{Agent, Equation, Name, Rule, RuleTerm, Term};

verus! {

/// `#x` for an input name, `@x` for an output name.
pub open spec fn name_text(n: Name) -> Seq<char> {
    if n.is_input() {
        seq!['#'] + n.ident()
    } else {
        seq!['@'] + n.ident()
    }
}

/// A term in source form: `A` for an agent without arguments, else
/// `A(t1, t2, ...)`.
pub open spec fn term_text(t: Term) -> Seq<char>
    decreases t, 0int,
{
    match t {
        Term::Name(n) => name_text(n),
        Term::Agent(a) => if a.body@.len() == 0 {
            a.name@
        } else {
            a.name@ + seq!['('] + args_text(a, a.body@.len() as int) + seq![')']
        },
    }
}

/// The first `k` arguments of an agent, separated by `, `.
pub open spec fn args_text(a: Agent, k: int) -> Seq<char>
    decreases a, k,
{
    if k <= 0 || k > a.body@.len() {
        seq![]
    } else if k == 1 {
        term_text(a.body@[0])
    } else {
        args_text(a, k - 1) + seq![',', ' '] + term_text(a.body@[k - 1])
    }
}

/// An equation in source form: `left = right`.
pub open spec fn equation_text(e: Equation) -> Seq<char> {
    term_text(e.left) + seq![' ', '=', ' '] + term_text(e.right)
}

fn append_lit(out: &mut String, s: &str)
    ensures
        final(out)@ == old(out)@ + s@,
{
    out.append(s);
}

/// Appends `name_text(n)` to `out`.
pub fn render_name(n: &Name, out: &mut String)
    ensures
        final(out)@ == old(out)@ + name_text(*n),
{
    let ghost start = out@;
    if n.is_in() {
        append_lit(out, "#");
        proof {
            reveal_strlit("#");
        }
    } else {
        append_lit(out, "@");
        proof {
            reveal_strlit("@");
        }
    }
    out.append(n.as_name().as_str());
    proof {
        if n.is_input() {
            assert(out@ =~= start + name_text(*n));
        } else {
            assert(out@ =~= start + name_text(*n));
        }
    }
}

/// Appends `term_text(t)` to `out`.
pub fn render_term(t: &Term, out: &mut String)
    ensures
        final(out)@ == old(out)@ + term_text(*t),
    decreases t,
{
    match t {
        Term::Name(n) => render_name(n, out),
        Term::Agent(a) => {
            let ghost start = out@;
            out.append(a.name.as_str());
            let n = a.body.len();
            if n > 0 {
                append_lit(out, "(");
                proof {
                    reveal_strlit("(");
                }
                let ghost mid = out@;
                let mut i: usize = 0;
                while i < n
                    invariant
                        i <= n,
                        n == a.body@.len(),
                        *t == Term::Agent(*a),
                        out@ == mid + args_text(*a, i as int),
                    decreases n - i,
                {
                    if i > 0 {
                        append_lit(out, ", ");
                        proof {
                            reveal_strlit(", ");
                        }
                    }
                    proof {
                        assert(t->Agent_0 == *a);
                        assert(decreases_to!(*t => t->Agent_0));
                        assert(decreases_to!(*a => a.body));
                        assert(decreases_to!(a.body => a.body@[i as int]));
                    }
                    render_term(&a.body[i], out);
                    proof {
                        if i > 0 {
                            assert(out@ =~= mid + args_text(*a, i + 1));
                        } else {
                            assert(out@ =~= mid + args_text(*a, i + 1));
                        }
                    }
                    i += 1;
                }
                append_lit(out, ")");
                proof {
                    reveal_strlit(")");
                    assert(out@ =~= start + term_text(*t));
                }
            }
        },
    }
}

/// The source form of an equation.
pub fn render_equation(e: &Equation) -> (r: String)
    ensures
        r@ == equation_text(*e),
{
    let mut out = String::new();
    render_term(&e.left, &mut out);
    append_lit(&mut out, " = ");
    proof {
        reveal_strlit(" = ");
    }
    render_term(&e.right, &mut out);
    proof {
        assert(out@ =~= equation_text(*e));
    }
    out
}

/// The first `k` names of a rule head, separated by `, `.
pub open spec fn head_args_text(ns: Seq<Name>, k: int) -> Seq<char>
    decreases k,
{
    if k <= 0 || k > ns.len() {
        seq![]
    } else if k == 1 {
        name_text(ns[0])
    } else {
        head_args_text(ns, k - 1) + seq![',', ' '] + name_text(ns[k - 1])
    }
}

/// A rule head in source form: `A` or `A(#x, @y)`.
pub open spec fn rule_term_text(t: RuleTerm) -> Seq<char> {
    if t.body@.len() == 0 {
        t.agent@
    } else {
        t.agent@ + seq!['('] + head_args_text(t.body@, t.body@.len() as int) + seq![')']
    }
}

/// The heads of a rule in source form: `A(..) >< B(..)`.
pub open spec fn rule_text(r: Rule) -> Seq<char> {
    rule_term_text(r.left) + seq![' ', '>', '<', ' '] + rule_term_text(r.right)
}

/// Appends `rule_term_text(t)` to `out`.
pub fn render_rule_term(t: &RuleTerm, out: &mut String)
    ensures
        final(out)@ == old(out)@ + rule_term_text(*t),
{
    let ghost start = out@;
    out.append(t.agent.as_str());
    let n = t.body.len();
    if n > 0 {
        append_lit(out, "(");
        proof {
            reveal_strlit("(");
        }
        let ghost mid = out@;
        let mut i: usize = 0;
        while i < n
            invariant
                i <= n,
                n == t.body@.len(),
                out@ == mid + head_args_text(t.body@, i as int),
            decreases n - i,
        {
            if i > 0 {
                append_lit(out, ", ");
                proof {
                    reveal_strlit(", ");
                }
            }
            render_name(&t.body[i], out);
            proof {
                assert(out@ =~= mid + head_args_text(t.body@, i + 1));
            }
            i += 1;
        }
        append_lit(out, ")");
        proof {
            reveal_strlit(")");
            assert(out@ =~= start + rule_term_text(*t));
        }
    }
}

/// The heads of a rule in source form.
pub fn render_rule(r: &Rule) -> (s: String)
    ensures
        s@ == rule_text(*r),
{
    let mut out = String::new();
    render_rule_term(&r.left, &mut out);
    append_lit(&mut out, " >< ");
    proof {
        reveal_strlit(" >< ");
    }
    render_rule_term(&r.right, &mut out);
    proof {
        assert(out@ =~= rule_text(*r));
    }
    out
}

} // verus!
