use vstd::prelude::*;

use crate::context::Context;
use crate::semantics::{assign, Assignment, BDD};

verus! {

impl Context {
    /// A handle whose root sits below rank `v` does not read variable `v`.
    pub proof fn lemma_independent(&self, n: int, v: int, a: Assignment, b: bool)
        requires
            self.wf(),
            self.is_valid(n),
            self.level(n) > v,
        ensures
            self.value(n, assign(a, v, b)) == self.value(n, a),
        decreases n,
    {
        if self.is_node(n) {
            self.lemma_wf_node(n);
            self.lemma_node_value(n);
            let nd = self.node(n);
            self.lemma_independent(nd.t as int, v, a, b);
            self.lemma_independent(nd.f as int, v, a, b);
            assert(self.value(n, assign(a, v, b)) == if assign(a, v, b)(nd.var as int) {
                self.value(nd.t as int, assign(a, v, b))
            } else {
                self.value(nd.f as int, assign(a, v, b))
            });
            assert(self.value(n, a) == if a(nd.var as int) {
                self.value(nd.t as int, a)
            } else {
                self.value(nd.f as int, a)
            });
        }
    }

    /// Node `m` tests rank `v`; `n` is at or below it.  Each child of `m` that
    /// `n` agrees with on one side of `v` is equivalent to the matching side.
    proof fn lemma_cofactor(&self, m: int, n: int, val: bool)
        requires
            self.wf(),
            self.is_node(m),
            self.is_valid(n),
            self.equiv(m, n),
            self.level(n) >= self.level(m),
        ensures
            ({
                let c = if val { self.node(m).t as int } else { self.node(m).f as int };
                let d = if self.is_node(n) && self.level(n) == self.level(m) {
                    if val { self.node(n).t as int } else { self.node(n).f as int }
                } else {
                    n
                };
                self.is_valid(c) && self.is_valid(d) && c < m && d <= n && self.equiv(c, d)
            }),
    {
        self.lemma_wf_node(m);
        self.lemma_node_value(m);
        let v = self.node(m).var as int;
        let c = if val { self.node(m).t as int } else { self.node(m).f as int };
        let same = self.is_node(n) && self.level(n) == self.level(m);
        let d = if same {
            if val { self.node(n).t as int } else { self.node(n).f as int }
        } else {
            n
        };
        if same {
            self.lemma_wf_node(n);
            self.lemma_node_value(n);
        }
        assert forall|a: Assignment| #[trigger] self.value(c, a) == self.value(d, a) by {
            let a2 = assign(a, v, val);
            self.lemma_independent(c, v, a, val);
            assert(self.value(m, a2) == self.value(n, a2));
            assert(self.value(m, a2) == if a2(v) {
                self.value(self.node(m).t as int, a2)
            } else {
                self.value(self.node(m).f as int, a2)
            });
            if same {
                self.lemma_independent(d, v, a, val);
                assert(self.value(n, a2) == if a2(v) {
                    self.value(self.node(n).t as int, a2)
                } else {
                    self.value(self.node(n).f as int, a2)
                });
            } else {
                self.lemma_independent(n, v, a, val);
            }
        }
    }

    /// Canonicity: two handles that denote the same boolean function are equal.
    pub proof fn lemma_canonical(&self, m: int, n: int)
        requires
            self.wf(),
            self.is_valid(m),
            self.is_valid(n),
            self.equiv(m, n),
        ensures
            m == n,
        decreases m + n,
    {
        if m != n {
            if !self.is_node(m) && !self.is_node(n) {
                let a: Assignment = |i: int| true;
                assert(self.value(m, a) == self.value(n, a));
            } else if self.level(m) <= self.level(n) && self.is_node(m) {
                self.lemma_wf_node(m);
                self.lemma_cofactor(m, n, true);
                self.lemma_cofactor(m, n, false);
                let same = self.is_node(n) && self.level(n) == self.level(m);
                if same {
                    self.lemma_wf_node(n);
                    self.lemma_canonical(self.node(m).t as int, self.node(n).t as int);
                    self.lemma_canonical(self.node(m).f as int, self.node(n).f as int);
                    assert(self.node(m) == self.node(n));
                } else {
                    self.lemma_canonical(self.node(m).t as int, n);
                    self.lemma_canonical(self.node(m).f as int, n);
                }
            } else {
                if self.is_node(m) {
                    self.lemma_wf_node(m);
                }
                assert(self.is_node(n));
                self.lemma_wf_node(n);
                assert(self.level(n) <= self.level(m));
                assert forall|a: Assignment| #[trigger] self.value(n, a) == self.value(m, a) by {
                    assert(self.value(m, a) == self.value(n, a));
                }
                self.lemma_wf_node(n);
                self.lemma_cofactor(n, m, true);
                self.lemma_cofactor(n, m, false);
                let same = self.is_node(m) && self.level(m) == self.level(n);
                if same {
                    self.lemma_wf_node(m);
                    self.lemma_canonical(self.node(m).t as int, self.node(n).t as int);
                    self.lemma_canonical(self.node(m).f as int, self.node(n).f as int);
                    assert(self.node(m) == self.node(n));
                } else {
                    self.lemma_canonical(m, self.node(n).t as int);
                    self.lemma_canonical(m, self.node(n).f as int);
                }
            }
        }
    }

    /// A handle and its negation never hold together: their conjunction is
    /// the false terminal.
    pub proof fn lemma_contradiction(&self, x: int, nx: int, r: int)
        requires
            self.wf(),
            self.is_valid(x),
            self.is_valid(nx),
            self.is_valid(r),
            forall|a: Assignment| #[trigger] self.value(nx, a) == !self.value(x, a),
            forall|a: Assignment| #[trigger]
                self.value(r, a) == (self.value(x, a) && self.value(nx, a)),
        ensures
            r == 0,
    {
        assert forall|a: Assignment| #[trigger] self.value(r, a) == self.value(0, a) by {
            assert(self.value(nx, a) == !self.value(x, a));
        }
        self.lemma_canonical(r, 0);
    }

    /// A handle or its negation always holds: their disjunction is the true
    /// terminal.
    pub proof fn lemma_tautology(&self, x: int, nx: int, r: int)
        requires
            self.wf(),
            self.is_valid(x),
            self.is_valid(nx),
            self.is_valid(r),
            forall|a: Assignment| #[trigger] self.value(nx, a) == !self.value(x, a),
            forall|a: Assignment| #[trigger]
                self.value(r, a) == (self.value(x, a) || self.value(nx, a)),
        ensures
            r == 1,
    {
        assert forall|a: Assignment| #[trigger] self.value(r, a) == self.value(1, a) by {
            assert(self.value(nx, a) == !self.value(x, a));
        }
        self.lemma_canonical(r, 1);
    }

    /// Ordering: a child that is a node tests a strictly greater rank than its
    /// parent.
    pub proof fn lemma_ordered(&self, n: int)
        requires
            self.wf(),
            self.is_node(n),
        ensures
            self.is_node(self.node(n).t as int) ==> self.node(self.node(n).t as int).var
                > self.node(n).var,
            self.is_node(self.node(n).f as int) ==> self.node(self.node(n).f as int).var
                > self.node(n).var,
    {
        self.lemma_wf_node(n);
    }

    /// Reducedness: no node has equal children.
    pub proof fn lemma_reduced(&self, n: int)
        requires
            self.wf(),
            self.is_node(n),
        ensures
            self.node(n).t != self.node(n).f,
    {
        self.lemma_wf_node(n);
    }

    /// Asking twice for the same variable returns the same handle, and the
    /// second call allocates nothing.
    pub proof fn lemma_var_idempotent(
        s0: &Context,
        name: Seq<char>,
        s1: &Context,
        r1: BDD,
        s2: &Context,
        r2: BDD,
    )
        requires
            s0.ranks().contains_key(name),
            s0.var_step(name, s1, r1),
            s1.var_step(name, s2, r2),
        ensures
            r1 == r2,
            s2.spec_size() == s1.spec_size(),
    {
    }

    /// The number of handles never shrinks along a run of operations.
    pub proof fn lemma_size_monotone(later: &Context, mid: &Context, earlier: &Context)
        requires
            later.extends(mid),
            mid.extends(earlier),
        ensures
            later.extends(earlier),
            later.spec_size() >= earlier.spec_size(),
    {
        later.lemma_extends_trans(mid, earlier);
    }
}

} // verus!
