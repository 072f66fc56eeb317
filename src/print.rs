//! Printing of reduced terms: indirections are transparent, unbound names
//! print as `x<uid>`, and depth past the bound prints as `...`.

use vstd::prelude::*;
use vstd::string::StringExecFns;

use crate::vm::{Cell, VM};

verus! {

/// The decimal digits of `n`.
pub open spec fn decimal(n: nat) -> Seq<char>
    decreases n,
{
    if n < 10 {
        seq![digit(n)]
    } else {
        decimal(n / 10) + seq![digit(n % 10)]
    }
}

/// The digit of a value below ten.
pub open spec fn digit(d: nat) -> char {
    seq!['0', '1', '2', '3', '4', '5', '6', '7', '8', '9'][d as int]
}

/// Where a chain of at most `fuel` indirections from `c` ends.
pub open spec fn follow(heap: Seq<Cell>, c: usize, fuel: nat) -> usize
    decreases fuel,
{
    if fuel == 0 || c >= heap.len() {
        c
    } else {
        match heap[c as int] {
            Cell::Indirection { target } => follow(heap, target, (fuel - 1) as nat),
            _ => c,
        }
    }
}

/// The text of cell `cell` printed with depth bound `depth`.
pub open spec fn cell_text(vm: VM, cell: usize, depth: nat) -> Seq<char>
    decreases depth, 0int, 0int,
{
    if depth == 0 {
        seq!['.', '.', '.']
    } else {
        let c = follow(vm.heap@, cell, vm.heap@.len());
        if c >= vm.heap@.len() {
            seq!['?']
        } else {
            match vm.heap@[c as int] {
                Cell::Name { uid } => seq!['x'] + decimal(uid as nat),
                Cell::Agent { id, base } => if id >= vm.agents@.len() {
                    seq!['?']
                } else if vm.agents@[id as int].arity == 0 {
                    vm.agents@[id as int].name@
                } else {
                    vm.agents@[id as int].name@ + seq!['('] + slots_text(
                        vm,
                        base as nat,
                        vm.agents@[id as int].arity as nat,
                        (depth - 1) as nat,
                    ) + seq![')']
                },
                Cell::Indirection { .. } => seq!['.', '.', '.'],
                Cell::Free => seq!['?'],
            }
        }
    }
}

/// The first `k` slots from `base`, printed with depth bound `depth` and
/// separated by `, `; an unset slot prints as `?`.
pub open spec fn slots_text(vm: VM, base: nat, k: nat, depth: nat) -> Seq<char>
    decreases depth, 1int, k,
{
    if k == 0 {
        seq![]
    } else {
        let s = if base + k - 1 < vm.slots@.len() && vm.slots@[base + k - 1] is Some {
            cell_text(vm, vm.slots@[base + k - 1]->Some_0, depth)
        } else {
            seq!['?']
        };
        if k == 1 {
            s
        } else {
            slots_text(vm, base, (k - 1) as nat, depth) + seq![',', ' '] + s
        }
    }
}

fn append_lit(out: &mut String, s: &str)
    ensures
        final(out)@ == old(out)@ + s@,
{
    out.append(s);
}

fn push_digit(d: usize, out: &mut String)
    requires
        d < 10,
    ensures
        final(out)@ == old(out)@ + seq![digit(d as nat)],
{
    let s = if d == 0 {
        "0"
    } else if d == 1 {
        "1"
    } else if d == 2 {
        "2"
    } else if d == 3 {
        "3"
    } else if d == 4 {
        "4"
    } else if d == 5 {
        "5"
    } else if d == 6 {
        "6"
    } else if d == 7 {
        "7"
    } else if d == 8 {
        "8"
    } else {
        "9"
    };
    proof {
        reveal_strlit("0");
        reveal_strlit("1");
        reveal_strlit("2");
        reveal_strlit("3");
        reveal_strlit("4");
        reveal_strlit("5");
        reveal_strlit("6");
        reveal_strlit("7");
        reveal_strlit("8");
        reveal_strlit("9");
        assert(s@ =~= seq![digit(d as nat)]);
    }
    append_lit(out, s);
}

/// Appends the decimal digits of `n`.
pub fn push_decimal(n: usize, out: &mut String)
    ensures
        final(out)@ == old(out)@ + decimal(n as nat),
    decreases n,
{
    if n < 10 {
        push_digit(n, out);
    } else {
        push_decimal(n / 10, out);
        push_digit(n % 10, out);
        proof {
            assert(final(out)@ =~= old(out)@ + decimal(n as nat));
        }
    }
}

impl VM {
    /// Where the chain of indirections from `cell` ends, within as many
    /// hops as there are cells.
    pub fn follow(&self, cell: usize) -> (r: usize)
        ensures
            r == follow(self.heap@, cell, self.heap@.len()),
    {
        let mut c = cell;
        let mut fuel: usize = self.heap.len();
        while fuel > 0 && c < self.heap.len()
            invariant
                fuel <= self.heap@.len(),
                follow(self.heap@, c, fuel as nat) == follow(self.heap@, cell, self.heap@.len()),
            decreases fuel,
        {
            match self.heap[c] {
                Cell::Indirection { target } => {
                    c = target;
                    fuel -= 1;
                },
                _ => {
                    return c;
                },
            }
        }
        c
    }

    /// Appends the text of cell `cell`, printed with depth bound `depth`.
    pub fn print_into(&self, cell: usize, depth: usize, out: &mut String)
        ensures
            final(out)@ == old(out)@ + cell_text(*self, cell, depth as nat),
        decreases depth, 0int,
    {
        if depth == 0 {
            append_lit(out, "...");
            proof {
                reveal_strlit("...");
                assert(out@ =~= old(out)@ + cell_text(*self, cell, depth as nat));
            }
            return;
        }
        let c = self.follow(cell);
        if c >= self.heap.len() {
            append_lit(out, "?");
            proof {
                reveal_strlit("?");
                assert(out@ =~= old(out)@ + cell_text(*self, cell, depth as nat));
            }
            return;
        }
        match self.heap[c] {
            Cell::Name { uid } => {
                append_lit(out, "x");
                push_decimal(uid, out);
                proof {
                    reveal_strlit("x");
                    assert(out@ =~= old(out)@ + cell_text(*self, cell, depth as nat));
                }
            },
            Cell::Agent { id, base } => {
                if id >= self.agents.len() {
                    append_lit(out, "?");
                    proof {
                        reveal_strlit("?");
                        assert(out@ =~= old(out)@ + cell_text(*self, cell, depth as nat));
                    }
                    return;
                }
                out.append(self.agents[id].name.as_str());
                let arity = self.agents[id].arity;
                if arity > 0 {
                    append_lit(out, "(");
                    self.slots_into(base, arity, depth - 1, out);
                    append_lit(out, ")");
                    proof {
                        reveal_strlit("(");
                        reveal_strlit(")");
                        assert(out@ =~= old(out)@ + cell_text(*self, cell, depth as nat));
                    }
                }
            },
            Cell::Indirection { .. } => {
                append_lit(out, "...");
                proof {
                    reveal_strlit("...");
                    assert(out@ =~= old(out)@ + cell_text(*self, cell, depth as nat));
                }
            },
            Cell::Free => {
                append_lit(out, "?");
                proof {
                    reveal_strlit("?");
                    assert(out@ =~= old(out)@ + cell_text(*self, cell, depth as nat));
                }
            },
        }
    }

    fn slots_into(&self, base: usize, arity: usize, depth: usize, out: &mut String)
        ensures
            final(out)@ == old(out)@ + slots_text(*self, base as nat, arity as nat, depth as nat),
        decreases depth, 1int,
    {
        let mut i: usize = 0;
        while i < arity
            invariant
                i <= arity,
                out@ == old(out)@ + slots_text(*self, base as nat, i as nat, depth as nat),
            decreases arity - i,
        {
            if i > 0 {
                append_lit(out, ", ");
                proof {
                    reveal_strlit(", ");
                }
            }
            if base < self.slots.len() && i < self.slots.len() - base {
                match self.slots[base + i] {
                    Some(v) => self.print_into(v, depth, out),
                    None => {
                        append_lit(out, "?");
                        proof {
                            reveal_strlit("?");
                        }
                    },
                }
            } else {
                append_lit(out, "?");
                proof {
                    reveal_strlit("?");
                }
            }
            proof {
                assert(out@ =~= old(out)@ + slots_text(*self, base as nat, (i + 1) as nat, depth as nat));
            }
            i += 1;
        }
    }

    /// The text of cell `cell`, printed with depth bound `max_recursion`.
    pub fn print(&self, cell: usize, max_recursion: usize) -> (r: String)
        ensures
            r@ == cell_text(*self, cell, max_recursion as nat),
    {
        let mut out = String::new();
        self.print_into(cell, max_recursion, &mut out);
        out
    }
}

} // verus!
