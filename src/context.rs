use vstd::prelude::*;
use vstd::hash_map::StringHashMap;
use std::collections::BTreeMap;
use vstd::set_lib::{lemma_len_difference, lemma_len_subset, lemma_set_difference_len};

use crate::room::{box_set, in_box, lemma_box_len, lemma_room, Key};
use crate::semantics::{eval, lemma_eval_prefix, Assignment, Node, VarId, BDD};

verus! {

broadcast use vstd::std_specs::btree::group_btree_axioms, vstd::laws_cmp::group_laws_cmp;

/// The two failures the engine reports.
#[derive(Clone, Copy, Debug, PartialEq, Eq, Structural)]
pub enum BddError {
    /// A variable name that was not part of the ordering.
    UnknownVariable,
    /// A handle that names neither a terminal nor an allocated node.
    InvalidHandle,
}

/// One diagram universe: the variable ordering, the node arena, the unique
/// table and the computed cache.
pub struct Context {
    vars: StringHashMap<VarId>,
    num_vars: Ghost<nat>,
    computed: BTreeMap<(BDD, BDD, BDD), BDD>,
    unique: BTreeMap<(VarId, BDD, BDD), BDD>,
    nodes: Vec<Node>,
    next: BDD,
}

pub open spec fn min(a: int, b: int) -> int {
    if a <= b { a } else { b }
}

impl Context {
    /// The node arena: handle `n >= 2` is `arena()[n - 2]`.
    pub closed spec fn arena(&self) -> Seq<Node> {
        self.nodes@
    }

    /// The number of variables in the ordering.
    pub closed spec fn nvars(&self) -> int {
        self.num_vars@ as int
    }

    /// The rank of each variable name.
    pub closed spec fn ranks(&self) -> Map<Seq<char>, VarId> {
        self.vars@
    }

    /// The unique table: a node's triple to its handle.
    pub closed spec fn table(&self) -> Map<(VarId, BDD, BDD), BDD> {
        self.unique@
    }

    /// The computed cache: an `ite` operand triple to its result.
    pub closed spec fn cache(&self) -> Map<(BDD, BDD, BDD), BDD> {
        self.computed@
    }

    /// The number of handles in use: the two terminals and every node.
    pub open spec fn spec_size(&self) -> int {
        self.arena().len() as int + 2
    }

    pub open spec fn is_valid(&self, n: int) -> bool {
        0 <= n < self.spec_size()
    }

    pub open spec fn is_node(&self, n: int) -> bool {
        2 <= n < self.spec_size()
    }

    pub open spec fn node(&self, n: int) -> Node {
        self.arena()[n - 2]
    }

    /// The rank tested at the root of `n`; terminals sit below every variable.
    pub open spec fn level(&self, n: int) -> int {
        if self.is_node(n) { self.node(n).var as int } else { self.nvars() }
    }

    pub open spec fn min_level(&self, f: int, g: int, h: int) -> int {
        min(self.level(f), min(self.level(g), self.level(h)))
    }

    /// The value of handle `n` under `a`.
    pub open spec fn value(&self, n: int, a: Assignment) -> bool {
        eval(self.arena(), n, a)
    }

    /// `r` denotes "if `f` then `g` else `h`".
    pub open spec fn is_ite(&self, r: int, f: int, g: int, h: int) -> bool {
        forall|a: Assignment| #[trigger]
            self.value(r, a) == if self.value(f, a) {
                self.value(g, a)
            } else {
                self.value(h, a)
            }
    }

    /// `m` and `n` denote the same boolean function.
    pub open spec fn equiv(&self, m: int, n: int) -> bool {
        forall|a: Assignment| #[trigger] self.value(m, a) == self.value(n, a)
    }

    /// Node `n` is ordered, reduced, built from earlier handles, and registered.
    pub open spec fn node_ok(&self, n: int) -> bool {
        let nd = self.node(n);
        &&& 0 <= nd.var < self.nvars()
        &&& 0 <= nd.t < n
        &&& 0 <= nd.f < n
        &&& nd.t != nd.f
        &&& self.level(nd.t as int) > nd.var
        &&& self.level(nd.f as int) > nd.var
        &&& self.table().contains_key((nd.var, nd.t, nd.f))
        &&& self.table()[(nd.var, nd.t, nd.f)] == n
    }

    pub open spec fn entry_ok(&self, k: (BDD, BDD, BDD), r: BDD) -> bool {
        &&& self.is_valid(k.0 as int)
        &&& self.is_valid(k.1 as int)
        &&& self.is_valid(k.2 as int)
        &&& self.is_valid(r as int)
        &&& self.level(r as int) >= self.min_level(k.0 as int, k.1 as int, k.2 as int)
        &&& self.is_ite(r as int, k.0 as int, k.1 as int, k.2 as int)
    }

    /// The engine's invariant: every node is ordered, reduced and registered
    /// in the unique table under its own triple, the table holds nothing
    /// else, every cache entry is a correct `ite` result, and every rank is
    /// below the number of variables.
    #[verifier::opaque]
    pub closed spec fn wf(&self) -> bool {
        &&& self.next == self.nodes@.len() + 2
        &&& self.nvars() < isize::MAX
        &&& forall|n: int| #![trigger self.node(n)] self.is_node(n) ==> self.node_ok(n)
        &&& forall|k: (VarId, BDD, BDD)| #[trigger]
            self.table().contains_key(k) ==> {
                &&& self.is_node(self.table()[k] as int)
                &&& self.node(self.table()[k] as int) == (Node { var: k.0, t: k.1, f: k.2 })
            }
        &&& forall|k: (BDD, BDD, BDD)| #[trigger]
            self.cache().contains_key(k) ==> self.entry_ok(k, self.cache()[k])
        &&& forall|s: Seq<char>| #[trigger]
            self.ranks().contains_key(s) ==> 0 <= self.ranks()[s] < self.nvars()
    }

    pub(crate) proof fn lemma_wf_node(&self, n: int)
        requires
            self.wf(),
            self.is_node(n),
        ensures
            self.node_ok(n),
    {
        reveal(Context::wf);
    }

    proof fn lemma_wf_cache(&self, k: (BDD, BDD, BDD))
        requires
            self.wf(),
            self.cache().contains_key(k),
        ensures
            self.entry_ok(k, self.cache()[k]),
    {
        reveal(Context::wf);
    }

    /// `self` is `old` with nodes and cache entries added and nothing else changed.
    pub open spec fn extends(&self, old: &Context) -> bool {
        &&& old.arena().len() <= self.arena().len()
        &&& self.arena().subrange(0, old.arena().len() as int) == old.arena()
        &&& self.nvars() == old.nvars()
        &&& self.ranks() == old.ranks()
        &&& old.table() <= self.table()
        &&& old.cache() <= self.cache()
    }

    pub(crate) proof fn lemma_extends_trans(&self, mid: &Context, old: &Context)
        requires
            self.extends(mid),
            mid.extends(old),
        ensures
            self.extends(old),
    {
        assert forall|i: int| 0 <= i < old.arena().len() implies self.arena()[i] == old.arena()[i] by {
            assert(self.arena()[i] == self.arena().subrange(0, mid.arena().len() as int)[i]);
            assert(mid.arena()[i] == mid.arena().subrange(0, old.arena().len() as int)[i]);
        }
        assert(self.arena().subrange(0, old.arena().len() as int) =~= old.arena());
        assert forall|k: (VarId, BDD, BDD)| #[trigger] old.table().contains_key(k) implies
            self.table().contains_key(k) && self.table()[k] == old.table()[k] by {
            assert(mid.table().contains_key(k));
        }
        assert forall|k: (BDD, BDD, BDD)| #[trigger] old.cache().contains_key(k) implies
            self.cache().contains_key(k) && self.cache()[k] == old.cache()[k] by {
            assert(mid.cache().contains_key(k));
        }
    }

    proof fn lemma_extends_refl(&self)
        ensures
            self.extends(self),
    {
        assert(self.arena().subrange(0, self.arena().len() as int) =~= self.arena());
    }

    /// The value of a node is that of the child its variable selects.
    pub(crate) proof fn lemma_node_value(&self, r: int)
        requires
            self.wf(),
            self.is_node(r),
        ensures
            forall|a: Assignment| #[trigger]
                self.value(r, a) == if a(self.node(r).var as int) {
                    self.value(self.node(r).t as int, a)
                } else {
                    self.value(self.node(r).f as int, a)
                },
    {
        self.lemma_wf_node(r);
    }

    /// A result computed on the cofactors of `(f, g, h)` for `v == val`
    /// agrees with "if `f` then `g` else `h`" wherever `v` is `val`.
    proof fn lemma_branch(
        s2: &Context,
        s1: &Context,
        s0: &Context,
        v: int,
        val: bool,
        f: int,
        g: int,
        h: int,
        r: int,
    )
        requires
            s0.wf(),
            s1.extends(s0),
            s2.extends(s1),
            s0.is_valid(f),
            s0.is_valid(g),
            s0.is_valid(h),
            v == s0.min_level(f, g, h) < s0.nvars(),
            s1.is_valid(r),
            s1.is_ite(r, s0.spec_fix(v, val, f), s0.spec_fix(v, val, g), s0.spec_fix(v, val, h)),
        ensures
            forall|a: Assignment|
                a(v) == val ==> #[trigger] s2.value(r, a) == if s0.value(f, a) {
                    s0.value(g, a)
                } else {
                    s0.value(h, a)
                },
    {
        s0.lemma_fix(v, val, f);
        s0.lemma_fix(v, val, g);
        s0.lemma_fix(v, val, h);
        s2.lemma_frame(s1);
        s1.lemma_frame(s0);
        assert forall|a: Assignment| a(v) == val implies #[trigger] s2.value(r, a) == if s0.value(
            f,
            a,
        ) {
            s0.value(g, a)
        } else {
            s0.value(h, a)
        } by {
            let f1 = s0.spec_fix(v, val, f);
            let g1 = s0.spec_fix(v, val, g);
            let h1 = s0.spec_fix(v, val, h);
            assert(s1.value(r, a) == if s1.value(f1, a) {
                s1.value(g1, a)
            } else {
                s1.value(h1, a)
            });
            assert(s0.value(f1, a) == s0.value(f, a));
            assert(s0.value(g1, a) == s0.value(g, a));
            assert(s0.value(h1, a) == s0.value(h, a));
        }
    }

    /// Joining the two branches on `v` yields "if `f` then `g` else `h`".
    proof fn lemma_join(s: &Context, s0: &Context, v: int, f: int, g: int, h: int, t: int, e: int, r: int)
        requires
            s.extends(s0),
            s0.is_valid(f),
            s0.is_valid(g),
            s0.is_valid(h),
            forall|a: Assignment|
                a(v) ==> #[trigger] s.value(t, a) == if s0.value(f, a) {
                    s0.value(g, a)
                } else {
                    s0.value(h, a)
                },
            forall|a: Assignment|
                !a(v) ==> #[trigger] s.value(e, a) == if s0.value(f, a) {
                    s0.value(g, a)
                } else {
                    s0.value(h, a)
                },
            forall|a: Assignment| #[trigger]
                s.value(r, a) == if a(v) {
                    s.value(t, a)
                } else {
                    s.value(e, a)
                },
        ensures
            s.is_ite(r, f, g, h),
    {
        s.lemma_frame(s0);
        assert forall|a: Assignment| #[trigger] s.value(r, a) == if s.value(f, a) {
            s.value(g, a)
        } else {
            s.value(h, a)
        } by {
            assert(s.value(r, a) == if a(v) {
                s.value(t, a)
            } else {
                s.value(e, a)
            });
            assert(s.value(f, a) == s0.value(f, a));
            assert(s.value(g, a) == s0.value(g, a));
            assert(s.value(h, a) == s0.value(h, a));
            if a(v) {
                assert(s.value(t, a) == if s0.value(f, a) {
                    s0.value(g, a)
                } else {
                    s0.value(h, a)
                });
            } else {
                assert(s.value(e, a) == if s0.value(f, a) {
                    s0.value(g, a)
                } else {
                    s0.value(h, a)
                });
            }
        }
    }

    /// Handles valid in `old` keep their level and their value in `self`.
    pub proof fn lemma_frame(&self, old: &Context)
        requires
            self.extends(old),
        ensures
            forall|n: int, a: Assignment|
                old.is_valid(n) ==> #[trigger] self.value(n, a) == old.value(n, a),
            forall|n: int| old.is_valid(n) ==> #[trigger] self.level(n) == old.level(n),
            forall|n: int| old.is_node(n) ==> #[trigger] self.node(n) == old.node(n),
    {
        assert forall|n: int, a: Assignment| old.is_valid(n) implies #[trigger] self.value(n, a)
            == old.value(n, a) by {
            lemma_eval_prefix(old.arena(), self.arena(), n, a);
        }
        assert forall|n: int| old.is_node(n) implies #[trigger] self.node(n) == old.node(n) by {
            assert(self.arena()[n - 2] == self.arena().subrange(0, old.arena().len() as int)[n - 2]);
        }
        assert forall|n: int| old.is_valid(n) implies #[trigger] self.level(n) == old.level(n) by {
            if old.is_node(n) {
                assert(self.arena()[n - 2] == self.arena().subrange(0, old.arena().len() as int)[n
                    - 2]);
            }
        }
    }

    /// Creates an engine whose ordering ranks `ps[i]` as `i`.
    pub fn new(ps: Vec<&str>) -> (r: Context)
        requires
            ps@.len() < isize::MAX,
            forall|i: int, j: int| 0 <= i < j < ps@.len() ==> ps@[i]@ != ps@[j]@,
        ensures
            r.wf(),
            r.spec_size() == 2,
            r.nvars() == ps@.len(),
            r.cache() == Map::<(BDD, BDD, BDD), BDD>::empty(),
            forall|s: Seq<char>| #[trigger]
                r.ranks().contains_key(s) <==> exists|i: int| 0 <= i < ps@.len() && ps@[i]@ == s,
            forall|i: int| 0 <= i < ps@.len() ==> #[trigger] r.ranks()[ps@[i]@] == i,
    {
        reveal(Context::wf);
        let mut vars: StringHashMap<VarId> = StringHashMap::new();
        let mut ix: usize = 0;
        while ix < ps.len()
            invariant
                ix <= ps@.len() < isize::MAX,
                forall|i: int, j: int| 0 <= i < j < ps@.len() ==> ps@[i]@ != ps@[j]@,
                forall|s: Seq<char>| #[trigger]
                    vars@.contains_key(s) <==> exists|i: int| 0 <= i < ix && ps@[i]@ == s,
                forall|i: int| 0 <= i < ix ==> #[trigger] vars@[ps@[i]@] == i,
            decreases ps@.len() - ix,
        {
            let name: &str = ps[ix];
            vars.insert(name.to_owned(), ix as VarId);
            proof {
                assert forall|s: Seq<char>| #[trigger]
                    vars@.contains_key(s) <==> exists|i: int| 0 <= i < ix + 1 && ps@[i]@ == s by {
                    if s == ps@[ix as int]@ {
                        assert(0 <= ix < ix + 1 && ps@[ix as int]@ == s);
                    }
                }
            }
            ix = ix + 1;
        }
        let r = Context {
            vars,
            num_vars: Ghost(ps@.len()),
            computed: BTreeMap::new(),
            unique: BTreeMap::new(),
            nodes: Vec::new(),
            next: 2,
        };
        proof {
            assert forall|s: Seq<char>| #[trigger] r.ranks().contains_key(s) implies 0 <= r.ranks()[s]
                < r.nvars() by {
                let i = choose|i: int| 0 <= i < ps@.len() && ps@[i]@ == s;
                assert(r.ranks()[ps@[i]@] == i);
            }
        }
        r
    }

    fn get_node(&self, n: BDD) -> (r: Node)
        requires
            self.wf(),
            self.is_node(n as int),
        ensures
            r == self.node(n as int),
    {
        self.nodes[(n - 2) as usize]
    }

    fn get_unique(&self, v: VarId, t: BDD, f: BDD) -> (r: Option<BDD>)
        requires
            self.wf(),
        ensures
            r == (if self.table().contains_key((v, t, f)) {
                Some(self.table()[(v, t, f)])
            } else {
                None
            }),
    {
        match self.unique.get(&(v, t, f)) {
            Some(r) => Some(*r),
            None => None,
        }
    }

    /// The node `(v, t, f)`: the one already in the arena, or a new one.
    fn add_unique(&mut self, v: VarId, t: BDD, f: BDD) -> (r: BDD)
        requires
            old(self).wf(),
            0 <= v < old(self).nvars(),
            old(self).is_valid(t as int),
            old(self).is_valid(f as int),
            t != f,
            old(self).level(t as int) > v,
            old(self).level(f as int) > v,
            old(self).table().contains_key((v, t, f)) || old(self).spec_size() < isize::MAX,
        ensures
            final(self).wf(),
            final(self).extends(old(self)),
            final(self).cache() == old(self).cache(),
            final(self).is_node(r as int),
            final(self).node(r as int) == (Node { var: v, t, f }),
            final(self).table().contains_key((v, t, f)),
            final(self).table()[(v, t, f)] == r,
            old(self).table().contains_key((v, t, f)) ==> *final(self) == *old(self),
            !old(self).table().contains_key((v, t, f)) ==> final(self).spec_size()
                == old(self).spec_size() + 1 && r == old(self).spec_size(),
    {
        reveal(Context::wf);
        match self.get_unique(v, t, f) {
            Some(n) => {
                proof {
                    assert(self.arena().subrange(0, self.arena().len() as int) =~= self.arena());
                }
                n
            },
            None => {
                let ghost pre = *self;
                let node = Node { var: v, t, f };
                let i = self.next;
                self.next = self.next + 1;
                self.unique.insert((v, t, f), i);
                self.nodes.push(node);
                proof {
                    assert(self.arena().subrange(0, pre.arena().len() as int) =~= pre.arena());
                    assert(self.extends(&pre));
                    self.lemma_frame(&pre);
                    assert(self.node(i as int) == node);
                    assert forall|n: int| #![trigger self.node(n)] self.is_node(n) implies self.node_ok(n) by {
                        if n < i {
                            assert(pre.node_ok(n));
                            assert(self.node(n) == pre.node(n));
                        }
                    }
                    assert forall|k: (BDD, BDD, BDD)| #[trigger] self.cache().contains_key(k) implies
                        self.entry_ok(k, self.cache()[k]) by {
                        assert(pre.entry_ok(k, pre.cache()[k]));
                    }
                    assert forall|k: (VarId, BDD, BDD)| #[trigger] self.table().contains_key(k) implies {
                        &&& self.is_node(self.table()[k] as int)
                        &&& self.node(self.table()[k] as int) == (Node { var: k.0, t: k.1, f: k.2 })
                    } by {
                        if k != (v, t, f) {
                            assert(pre.table().contains_key(k));
                            assert(self.node(pre.table()[k] as int) == pre.node(pre.table()[k] as int));
                        }
                    }
                }
                i
            },
        }
    }

    fn get_var(&self, i: BDD) -> (r: Option<VarId>)
        requires
            self.wf(),
            self.is_valid(i as int),
        ensures
            r == (if self.is_node(i as int) { Some(self.node(i as int).var) } else { None }),
    {
        if i == 0 || i == 1 {
            None
        } else {
            Some(self.get_node(i).var)
        }
    }

    fn opt_min(&self, a: Option<isize>, b: Option<isize>) -> (r: Option<isize>)
        ensures
            r == (match (a, b) {
                (Some(x), Some(y)) => Some(if x <= y { x } else { y }),
                (Some(x), None) => Some(x),
                (None, _) => b,
            }),
    {
        match a {
            Some(i) => match b {
                Some(n) => Some(if i <= n { i } else { n }),
                None => a,
            },
            None => b,
        }
    }

    /// The smallest rank tested at the root of `f`, `g` or `h`.
    fn top_var(&self, f: BDD, g: BDD, h: BDD) -> (r: VarId)
        requires
            self.wf(),
            self.is_valid(f as int),
            self.is_valid(g as int),
            self.is_valid(h as int),
            self.is_node(f as int) || self.is_node(g as int) || self.is_node(h as int),
        ensures
            r == self.min_level(f as int, g as int, h as int),
            0 <= r < self.nvars(),
    {
        let nf = self.get_var(f);
        let ng = self.get_var(g);
        let nh = self.get_var(h);
        let x = self.opt_min(nf, ng);
        let r = self.opt_min(x, nh);
        proof {
            if self.is_node(f as int) {
                self.lemma_wf_node(f as int);
            }
            if self.is_node(g as int) {
                self.lemma_wf_node(g as int);
            }
            if self.is_node(h as int) {
                self.lemma_wf_node(h as int);
            }
        }
        r.unwrap()
    }

    /// `n` with the variable of rank `v` fixed to `val`: the child on that side
    /// when the root of `n` tests `v`, and `n` itself otherwise.
    fn fix(&self, v: VarId, val: bool, n: BDD) -> (r: BDD)
        requires
            self.wf(),
            self.is_valid(n as int),
        ensures
            r == self.spec_fix(v as int, val, n as int),
    {
        if n == 0 || n == 1 {
            return n;
        }
        let node = self.get_node(n);
        if node.var == v {
            if val {
                node.t
            } else {
                node.f
            }
        } else {
            n
        }
    }

    pub open spec fn spec_fix(&self, v: int, val: bool, n: int) -> int {
        if self.is_node(n) && self.node(n).var == v {
            if val { self.node(n).t as int } else { self.node(n).f as int }
        } else {
            n
        }
    }

    proof fn lemma_fix(&self, v: int, val: bool, n: int)
        requires
            self.wf(),
            self.is_valid(n),
            v <= self.level(n),
            v < self.nvars(),
        ensures
            self.is_valid(self.spec_fix(v, val, n)),
            0 <= self.spec_fix(v, val, n) <= n,
            self.level(n) == v ==> self.spec_fix(v, val, n) < n,
            self.level(self.spec_fix(v, val, n)) > v,
            self.level(self.spec_fix(v, val, n)) <= self.nvars(),
            forall|a: Assignment| a(v) == val ==> #[trigger] self.value(self.spec_fix(v, val, n), a)
                == self.value(n, a),
    {
        if self.is_node(n) {
            self.lemma_wf_node(n);
        }
        let c = self.spec_fix(v, val, n);
        if self.is_node(c) {
            self.lemma_wf_node(c);
        }
    }

    fn terminal_case(&self, p: BDD, t: BDD, f: BDD) -> (r: Option<BDD>)
        ensures
            r == (if p == 1 {
                Some(t)
            } else if p == 0 {
                Some(f)
            } else if t == 1 && f == 0 {
                Some(p)
            } else {
                None
            }),
    {
        if p == 1 {
            Some(t)
        } else if p == 0 {
            Some(f)
        } else if t == 1 && f == 0 {
            Some(p)
        } else {
            None
        }
    }

    fn lookup_computed(&self, p: BDD, t: BDD, f: BDD) -> (r: Option<BDD>)
        requires
            self.wf(),
        ensures
            r == (if self.cache().contains_key((p, t, f)) {
                Some(self.cache()[(p, t, f)])
            } else {
                None
            }),
    {
        match self.computed.get(&(p, t, f)) {
            Some(r) => Some(*r),
            None => None,
        }
    }

    fn add_computed(&mut self, r: BDD, f: BDD, g: BDD, h: BDD)
        requires
            old(self).wf(),
            !old(self).cache().contains_key((f, g, h)),
            old(self).entry_ok((f, g, h), r),
        ensures
            final(self).wf(),
            final(self).extends(old(self)),
            final(self).arena() == old(self).arena(),
            final(self).cache() == old(self).cache().insert((f, g, h), r),
    {
        reveal(Context::wf);
        let ghost pre = *self;
        self.computed.insert((f, g, h), r);
        proof {
            assert(self.arena().subrange(0, self.arena().len() as int) =~= self.arena());
            assert(self.arena() == pre.arena());
            assert(self.extends(&pre));
            self.lemma_frame(&pre);
            assert forall|k: (BDD, BDD, BDD)| #[trigger] self.cache().contains_key(k) implies
                self.entry_ok(k, self.cache()[k]) by {
                if k != (f, g, h) {
                    assert(pre.entry_ok(k, pre.cache()[k]));
                    assert(self.cache()[k] == pre.cache()[k]);
                } else {
                    assert(self.cache()[k] == r);
                }
                let x = self.cache()[k];
                assert(pre.entry_ok(k, x));
                assert forall|a: Assignment| #[trigger] self.value(x as int, a) == if self.value(k.0 as int, a) {
                    self.value(k.1 as int, a)
                } else {
                    self.value(k.2 as int, a)
                } by {
                    assert(pre.value(x as int, a) == if pre.value(k.0 as int, a) {
                        pre.value(k.1 as int, a)
                    } else {
                        pre.value(k.2 as int, a)
                    });
                }
            }
            assert forall|n: int| #![trigger self.node(n)] self.is_node(n) implies self.node_ok(n) by {
                assert(pre.node_ok(n));
            }
        }
    }

    /// Room in the arena for every node a recursion from `(f, g, h)` can add.
    spec fn has_room(&self, f: int, g: int, h: int) -> bool {
        self.spec_size() + box_set(f, g, h).difference(self.cache().dom()).len() <= isize::MAX
    }

    /// What a recursion from `(f, g, h)` that started in `old` and returned `r`
    /// leaves behind.
    spec fn ite_post(&self, old: &Context, r: int, f: int, g: int, h: int) -> bool {
        &&& self.wf()
        &&& self.extends(old)
        &&& self.is_valid(r)
        &&& self.is_ite(r, f, g, h)
        &&& self.level(r) >= old.min_level(f, g, h)
        &&& forall|k: Key| #[trigger]
            self.cache().contains_key(k) && !old.cache().contains_key(k) ==> in_box(k, f, g, h)
        &&& self.spec_size() - old.spec_size() <= self.cache().dom().len()
            - old.cache().dom().len()
    }

    fn ite_true(&mut self, v: VarId, f: BDD, g: BDD, h: BDD) -> (r: BDD)
        requires
            old(self).wf(),
            old(self).is_valid(f as int),
            old(self).is_valid(g as int),
            old(self).is_valid(h as int),
            v == old(self).min_level(f as int, g as int, h as int) < old(self).nvars(),
            old(self).has_room(
                old(self).spec_fix(v as int, true, f as int),
                old(self).spec_fix(v as int, true, g as int),
                old(self).spec_fix(v as int, true, h as int),
            ),
        ensures
            final(self).ite_post(
                old(self),
                r as int,
                old(self).spec_fix(v as int, true, f as int),
                old(self).spec_fix(v as int, true, g as int),
                old(self).spec_fix(v as int, true, h as int),
            ),
        decreases old(self).nvars() - v, 0int,
    {
        let f1 = self.fix(v, true, f);
        let g1 = self.fix(v, true, g);
        let h1 = self.fix(v, true, h);
        proof {
            self.lemma_fix(v as int, true, f as int);
            self.lemma_fix(v as int, true, g as int);
            self.lemma_fix(v as int, true, h as int);
        }
        self.ite_rec(f1, g1, h1)
    }

    fn ite_false(&mut self, v: VarId, f: BDD, g: BDD, h: BDD) -> (r: BDD)
        requires
            old(self).wf(),
            old(self).is_valid(f as int),
            old(self).is_valid(g as int),
            old(self).is_valid(h as int),
            v == old(self).min_level(f as int, g as int, h as int) < old(self).nvars(),
            old(self).has_room(
                old(self).spec_fix(v as int, false, f as int),
                old(self).spec_fix(v as int, false, g as int),
                old(self).spec_fix(v as int, false, h as int),
            ),
        ensures
            final(self).ite_post(
                old(self),
                r as int,
                old(self).spec_fix(v as int, false, f as int),
                old(self).spec_fix(v as int, false, g as int),
                old(self).spec_fix(v as int, false, h as int),
            ),
        decreases old(self).nvars() - v, 0int,
    {
        let f1 = self.fix(v, false, f);
        let g1 = self.fix(v, false, g);
        let h1 = self.fix(v, false, h);
        proof {
            self.lemma_fix(v as int, false, f as int);
            self.lemma_fix(v as int, false, g as int);
            self.lemma_fix(v as int, false, h as int);
        }
        self.ite_rec(f1, g1, h1)
    }

    /// The memoized, hash-consed "if `f` then `g` else `h`".
    fn ite_rec(&mut self, f: BDD, g: BDD, h: BDD) -> (r: BDD)
        requires
            old(self).wf(),
            old(self).is_valid(f as int),
            old(self).is_valid(g as int),
            old(self).is_valid(h as int),
            old(self).has_room(f as int, g as int, h as int),
        ensures
            final(self).ite_post(old(self), r as int, f as int, g as int, h as int),
            f == 1 ==> r == g && *final(self) == *old(self),
            f == 0 ==> r == h && *final(self) == *old(self),
            g == 1 && h == 0 ==> r == f && *final(self) == *old(self),
        decreases old(self).nvars() - old(self).min_level(f as int, g as int, h as int), 1int,
    {
        let ghost s0 = *self;
        proof {
            assert(self.arena().subrange(0, self.arena().len() as int) =~= self.arena());
            assert(self.cache().dom().difference(s0.cache().dom()) =~= Set::empty());
        }
        match self.terminal_case(f, g, h) {
            Some(res) => {
                return res;
            },
            None => {},
        }
        match self.lookup_computed(f, g, h) {
            Some(res) => {
                proof {
                    self.lemma_wf_cache((f, g, h));
                }
                return res;
            },
            None => {},
        }
        proof {
            self.lemma_wf_node(f as int);
        }
        let v = self.top_var(f, g, h);
        let ghost k: Key = (f, g, h);
        let ghost b = box_set(f as int, g as int, h as int);
        let ghost (f1, g1, h1) = (
            s0.spec_fix(v as int, true, f as int),
            s0.spec_fix(v as int, true, g as int),
            s0.spec_fix(v as int, true, h as int),
        );
        let ghost (f0, g0, h0) = (
            s0.spec_fix(v as int, false, f as int),
            s0.spec_fix(v as int, false, g as int),
            s0.spec_fix(v as int, false, h as int),
        );
        proof {
            s0.lemma_fix(v as int, true, f as int);
            s0.lemma_fix(v as int, true, g as int);
            s0.lemma_fix(v as int, true, h as int);
            s0.lemma_fix(v as int, false, f as int);
            s0.lemma_fix(v as int, false, g as int);
            s0.lemma_fix(v as int, false, h as int);
            lemma_box_len(f as int, g as int, h as int);
            assert(!box_set(f1, g1, h1).contains(k));
            assert(!box_set(f0, g0, h0).contains(k));
            assert(box_set(f1, g1, h1).subset_of(b));
            assert(box_set(f0, g0, h0).subset_of(b));
            lemma_room(b, s0.cache().dom(), s0.cache().dom(), box_set(f1, g1, h1), k);
        }
        let t_branch = self.ite_true(v, f, g, h);
        let ghost s1 = *self;
        proof {
            s1.lemma_frame(&s0);
            assert(s1.cache().dom().difference(s0.cache().dom()).subset_of(b));
            lemma_room(b, s0.cache().dom(), s1.cache().dom(), box_set(f0, g0, h0), k);
            assert(box_set(f0, g0, h0).difference(s0.cache().dom()).len() <= b.difference(
                s0.cache().dom(),
            ).len()) by {
                lemma_room(b, s0.cache().dom(), s0.cache().dom(), box_set(f0, g0, h0), k);
            }
        }
        let f_branch = self.ite_false(v, f, g, h);
        let ghost s2 = *self;
        proof {
            s2.lemma_frame(&s1);
            s2.lemma_extends_trans(&s1, &s0);
            s2.lemma_frame(&s0);
            assert(s2.cache().dom().difference(s0.cache().dom()).subset_of(b));
            lemma_room(b, s0.cache().dom(), s2.cache().dom(), Set::empty(), k);
            s2.lemma_extends_refl();
            Context::lemma_branch(&s2, &s1, &s0, v as int, true, f as int, g as int, h as int, t_branch as int);
            Context::lemma_branch(&s2, &s2, &s0, v as int, false, f as int, g as int, h as int, f_branch as int);
        }
        if t_branch == f_branch {
            proof {
                Context::lemma_join(&s2, &s0, v as int, f as int, g as int, h as int, t_branch as int, f_branch as int, t_branch as int);
            }
            t_branch
        } else {
            let r = self.add_unique(v, t_branch, f_branch);
            let ghost s3 = *self;
            proof {
                s3.lemma_frame(&s2);
                s3.lemma_extends_trans(&s2, &s0);
                s3.lemma_node_value(r as int);
                s3.lemma_wf_node(r as int);
                Context::lemma_join(&s3, &s0, v as int, f as int, g as int, h as int, t_branch as int, f_branch as int, r as int);
                assert(!s3.cache().contains_key(k));
            }
            self.add_computed(r, f, g, h);
            proof {
                self.lemma_extends_trans(&s3, &s0);
                self.lemma_frame(&s3);
                assert(self.cache().dom() =~= s3.cache().dom().insert(k));
            }
            r
        }
    }

    /// The number of handles in use: `2` plus the number of nodes.
    pub fn size(&self) -> (r: isize)
        requires
            self.wf(),
        ensures
            r == self.spec_size(),
    {
        reveal(Context::wf);
        self.next
    }

    /// The constant true.
    pub fn tru(&self) -> (r: BDD)
        ensures
            r == 1,
    {
        1
    }

    /// The constant false.
    pub fn fls(&self) -> (r: BDD)
        ensures
            r == 0,
    {
        0
    }

    /// The rank of `name` in the ordering.
    pub fn rank_of(&self, name: &str) -> (r: Result<VarId, BddError>)
        requires
            self.wf(),
        ensures
            self.ranks().contains_key(name@) ==> r == Ok::<VarId, BddError>(self.ranks()[name@]),
            !self.ranks().contains_key(name@) ==> r == Err::<VarId, BddError>(
                BddError::UnknownVariable,
            ),
    {
        match self.vars.get(name) {
            Some(v) => Ok(*v),
            None => Err(BddError::UnknownVariable),
        }
    }

    /// What `var(name)` does when called on `self`: `post` is the engine after
    /// the call and `r` its result.
    pub open spec fn var_step(&self, name: Seq<char>, post: &Context, r: BDD) -> bool {
        let v = self.ranks()[name];
        &&& post.wf()
        &&& post.extends(self)
        &&& post.is_node(r as int)
        &&& post.node(r as int) == (Node { var: v, t: 1, f: 0 })
        &&& post.table().contains_key((v, 1, 0))
        &&& post.table()[(v, 1, 0)] == r
        &&& forall|a: Assignment| #[trigger] post.value(r as int, a) == a(v as int)
        &&& self.table().contains_key((v, 1, 0)) ==> *post == *self
        &&& !self.table().contains_key((v, 1, 0)) ==> post.spec_size() == self.spec_size() + 1
            && r == self.spec_size()
    }

    /// The diagram of the single variable `name`.
    pub fn var(&mut self, name: &str) -> (r: BDD)
        requires
            old(self).wf(),
            old(self).ranks().contains_key(name@),
            old(self).spec_size() < isize::MAX,
        ensures
            old(self).var_step(name@, final(self), r),
            final(self).spec_size() >= old(self).spec_size(),
    {
        let vid = match self.vars.get(name) {
            Some(v) => *v,
            None => 0,
        };
        proof {
            reveal(Context::wf);
        }
        let r = self.add_unique(vid, 1, 0);
        proof {
            self.lemma_node_value(r as int);
        }
        r
    }

    /// "If `f` then `g` else `h`", memoized and hash-consed.
    ///
    /// Each node the call adds is recorded in the cache under an operand
    /// triple bounded componentwise by `(f, g, h)`, so at most
    /// `(f + 1) * (g + 1) * (h + 1)` are added; the handles must still fit in
    /// an `isize` afterwards.
    pub fn ite(&mut self, f: BDD, g: BDD, h: BDD) -> (r: BDD)
        requires
            old(self).wf(),
            old(self).is_valid(f as int),
            old(self).is_valid(g as int),
            old(self).is_valid(h as int),
            old(self).spec_size() + (f + 1) * (g + 1) * (h + 1) <= isize::MAX,
        ensures
            final(self).wf(),
            final(self).extends(old(self)),
            old(self).spec_size() <= final(self).spec_size() <= old(self).spec_size() + (f + 1) * (g
                + 1) * (h + 1),
            final(self).is_valid(r as int),
            final(self).is_ite(r as int, f as int, g as int, h as int),
            f == 1 ==> r == g && *final(self) == *old(self),
            f == 0 ==> r == h && *final(self) == *old(self),
            g == 1 && h == 0 ==> r == f && *final(self) == *old(self),
    {
        let ghost s0 = *self;
        let ghost b = box_set(f as int, g as int, h as int);
        proof {
            lemma_box_len(f as int, g as int, h as int);
            lemma_len_difference(b, self.cache().dom());
        }
        let r = self.ite_rec(f, g, h);
        proof {
            let d0 = s0.cache().dom();
            let d1 = self.cache().dom();
            assert(d1.difference(d0).subset_of(b));
            lemma_len_subset(d1.difference(d0), b);
            lemma_set_difference_len(d1, d0);
            assert(d1.intersect(d0) =~= d0);
        }
        r
    }

    /// Conjunction.
    pub fn and(&mut self, f: BDD, g: BDD) -> (r: BDD)
        requires
            old(self).wf(),
            old(self).is_valid(f as int),
            old(self).is_valid(g as int),
            old(self).spec_size() + (f + 1) * (g + 1) <= isize::MAX,
        ensures
            final(self).wf(),
            final(self).extends(old(self)),
            old(self).spec_size() <= final(self).spec_size() <= old(self).spec_size() + (f + 1) * (g
                + 1),
            final(self).is_valid(r as int),
            forall|a: Assignment| #[trigger] final(self).value(r as int, a)
                == (final(self).value(f as int, a) && final(self).value(g as int, a)),
    {
        let h = self.fls();
        assert((f + 1) * (g + 1) * (h + 1) == (f + 1) * (g + 1)) by (nonlinear_arith)
            requires
                h == 0,
        ;
        let r = self.ite(f, g, h);
        proof {
            assert forall|a: Assignment| #[trigger] self.value(r as int, a)
                == (self.value(f as int, a) && self.value(g as int, a)) by {
                assert(self.value(r as int, a) == if self.value(f as int, a) {
                    self.value(g as int, a)
                } else {
                    self.value(h as int, a)
                });
            }
        }
        r
    }

    /// Disjunction.
    pub fn or(&mut self, f: BDD, h: BDD) -> (r: BDD)
        requires
            old(self).wf(),
            old(self).is_valid(f as int),
            old(self).is_valid(h as int),
            old(self).spec_size() + (f + 1) * 2 * (h + 1) <= isize::MAX,
        ensures
            final(self).wf(),
            final(self).extends(old(self)),
            old(self).spec_size() <= final(self).spec_size() <= old(self).spec_size() + (f + 1) * 2
                * (h + 1),
            final(self).is_valid(r as int),
            forall|a: Assignment| #[trigger] final(self).value(r as int, a)
                == (final(self).value(f as int, a) || final(self).value(h as int, a)),
    {
        let g = self.tru();
        let r = self.ite(f, g, h);
        proof {
            assert forall|a: Assignment| #[trigger] self.value(r as int, a)
                == (self.value(f as int, a) || self.value(h as int, a)) by {
                assert(self.value(r as int, a) == if self.value(f as int, a) {
                    self.value(g as int, a)
                } else {
                    self.value(h as int, a)
                });
            }
        }
        r
    }

    /// Negation.
    pub fn not(&mut self, f: BDD) -> (r: BDD)
        requires
            old(self).wf(),
            old(self).is_valid(f as int),
            old(self).spec_size() + (f + 1) * 2 <= isize::MAX,
        ensures
            final(self).wf(),
            final(self).extends(old(self)),
            old(self).spec_size() <= final(self).spec_size() <= old(self).spec_size() + (f + 1) * 2,
            final(self).is_valid(r as int),
            forall|a: Assignment| #[trigger] final(self).value(r as int, a)
                == !final(self).value(f as int, a),
    {
        assert((f + 1) * (0 + 1) * (1 + 1) == (f + 1) * 2) by (nonlinear_arith);
        let r = self.ite(f, 0, 1);
        proof {
            assert forall|a: Assignment| #[trigger] self.value(r as int, a)
                == !self.value(f as int, a) by {
                assert(self.value(r as int, a) == if self.value(f as int, a) {
                    self.value(0, a)
                } else {
                    self.value(1, a)
                });
            }
        }
        r
    }

    /// `ite`, reporting a handle that names neither a terminal nor a node of
    /// this engine instead of requiring it away.
    pub fn try_ite(&mut self, f: BDD, g: BDD, h: BDD) -> (r: Result<BDD, BddError>)
        requires
            old(self).wf(),
            old(self).is_valid(f as int) && old(self).is_valid(g as int) && old(self).is_valid(
                h as int,
            ) ==> old(self).spec_size() + (f + 1) * (g + 1) * (h + 1) <= isize::MAX,
        ensures
            final(self).wf(),
            final(self).extends(old(self)),
            !(old(self).is_valid(f as int) && old(self).is_valid(g as int) && old(self).is_valid(
                h as int,
            )) ==> r == Err::<BDD, BddError>(BddError::InvalidHandle) && *final(self) == *old(self),
            old(self).is_valid(f as int) && old(self).is_valid(g as int) && old(self).is_valid(
                h as int,
            ) ==> match r {
                Ok(x) => final(self).is_valid(x as int) && final(self).is_ite(
                    x as int,
                    f as int,
                    g as int,
                    h as int,
                ),
                Err(_) => false,
            },
    {
        let size = self.size();
        if f < 0 || f >= size || g < 0 || g >= size || h < 0 || h >= size {
            proof {
                self.lemma_extends_refl();
            }
            return Err(BddError::InvalidHandle);
        }
        Ok(self.ite(f, g, h))
    }
}

} // verus!
