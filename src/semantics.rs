use vstd::prelude::*;

verus! {

/// A diagram handle: `0` is false, `1` is true, `n >= 2` names the node
/// stored at index `n - 2` of the arena.
pub type BDD = isize;

/// The rank of a variable in the fixed ordering.
pub type VarId = isize;

/// An internal node: test `var`, continue with `t` when it holds, `f` otherwise.
#[derive(Clone, Copy, PartialEq, Eq, Structural)]
pub struct Node {
    pub var: VarId,
    pub t: BDD,
    pub f: BDD,
}

/// A truth assignment to the variables, indexed by rank.
pub type Assignment = spec_fn(int) -> bool;

/// The boolean value of handle `n` under `a`, over the arena `nodes`.
pub open spec fn eval(nodes: Seq<Node>, n: int, a: Assignment) -> bool
    decreases n,
{
    if n <= 0 {
        false
    } else if n == 1 {
        true
    } else if n - 2 < nodes.len() {
        let nd = nodes[n - 2];
        let next = if a(nd.var as int) { nd.t as int } else { nd.f as int };
        if 0 <= next < n {
            eval(nodes, next, a)
        } else {
            false
        }
    } else {
        false
    }
}

/// `a` with the variable of rank `v` set to `b`.
pub open spec fn assign(a: Assignment, v: int, b: bool) -> Assignment {
    |i: int| if i == v { b } else { a(i) }
}

/// Appending to the arena changes the value of no handle that was valid before.
pub proof fn lemma_eval_prefix(s1: Seq<Node>, s2: Seq<Node>, n: int, a: Assignment)
    requires
        s1.len() <= s2.len(),
        s2.subrange(0, s1.len() as int) == s1,
        n < s1.len() + 2,
    ensures
        eval(s1, n, a) == eval(s2, n, a),
    decreases n,
{
    if n >= 2 {
        assert(s1[n - 2] == s2.subrange(0, s1.len() as int)[n - 2]);
        let nd = s1[n - 2];
        let next = if a(nd.var as int) { nd.t as int } else { nd.f as int };
        if 0 <= next < n {
            lemma_eval_prefix(s1, s2, next, a);
        }
    }
}

} // verus!
