use vstd::prelude::*;
use vstd::arithmetic::div_mod::lemma_fundamental_div_mod_converse;
use vstd::set_lib::{
    lemma_int_range, lemma_len_subset, lemma_map_size_bound, lemma_set_difference_len,
    lemma_set_disjoint_lens, set_int_range,
};

verus! {

/// An operand triple of the computed cache.
pub type Key = (isize, isize, isize);

/// Each component of `k` is a handle no greater than the matching bound.
pub open spec fn in_box(k: Key, f: int, g: int, h: int) -> bool {
    &&& 0 <= k.0 <= f
    &&& 0 <= k.1 <= g
    &&& 0 <= k.2 <= h
}

/// Every operand triple that a recursion from `(f, g, h)` can meet: the
/// cofactors of a handle are never greater than the handle.
pub open spec fn box_set(f: int, g: int, h: int) -> Set<Key> {
    Set::new(|k: Key| in_box(k, f, g, h))
}

spec fn decode(e: int, g1: int, h1: int) -> Key {
    ((e / h1 / g1) as isize, (e / h1 % g1) as isize, (e % h1) as isize)
}

/// There are at most `(f + 1) * (g + 1) * (h + 1)` such triples.
pub proof fn lemma_box_len(f: int, g: int, h: int)
    requires
        0 <= f <= isize::MAX,
        0 <= g <= isize::MAX,
        0 <= h <= isize::MAX,
    ensures
        box_set(f, g, h).finite(),
        box_set(f, g, h).len() <= (f + 1) * (g + 1) * (h + 1),
{
    let g1 = g + 1;
    let h1 = h + 1;
    let n = (f + 1) * g1 * h1;
    let x = set_int_range(0, n);
    assert(n >= 0) by (nonlinear_arith)
        requires
            f >= 0,
            g1 >= 1,
            h1 >= 1,
            n == (f + 1) * g1 * h1,
    ;
    lemma_int_range(0, n);
    let dec = |e: int| decode(e, g1, h1);
    let y = x.map(dec);
    lemma_map_size_bound(x, y, dec);
    assert forall|k: Key| #[trigger] box_set(f, g, h).contains(k) implies y.contains(k) by {
        let a = k.0 as int;
        let b = k.1 as int;
        let c = k.2 as int;
        let q = a * g1 + b;
        let e = q * h1 + c;
        assert(0 <= e < n) by (nonlinear_arith)
            requires
                0 <= a <= f,
                0 <= b < g1,
                0 <= c < h1,
                q == a * g1 + b,
                e == q * h1 + c,
                n == (f + 1) * g1 * h1,
        ;
        lemma_fundamental_div_mod_converse(e, h1, q, c);
        lemma_fundamental_div_mod_converse(q, g1, a, b);
        assert(dec(e) == k);
        assert(x.contains(e));
    }
    lemma_len_subset(box_set(f, g, h), y);
}

/// Keys added to the cache since `d0`, together with the part of `b2` not yet
/// cached in `d1`, fit in what `b` left uncached in `d0`, less the key `k`.
pub proof fn lemma_room(b: Set<Key>, d0: Set<Key>, d1: Set<Key>, b2: Set<Key>, k: Key)
    requires
        b.finite(),
        d0.finite(),
        d1.finite(),
        d0.subset_of(d1),
        d1.difference(d0).subset_of(b),
        b2.subset_of(b),
        b.contains(k),
        !b2.contains(k),
        !d1.contains(k),
    ensures
        d1.len() - d0.len() + b2.difference(d1).len() <= b.difference(d0).len() - 1,
{
    let n = d1.difference(d0);
    let m = b2.difference(d1);
    let room = b.difference(d0);
    lemma_len_subset(room, b);
    lemma_len_subset(n, b);
    lemma_len_subset(m, b);
    assert(n.disjoint(m));
    lemma_set_disjoint_lens(n, m);
    assert((n + m).subset_of(room.remove(k)));
    lemma_len_subset(n + m, room.remove(k));
    lemma_set_difference_len(d1, d0);
    assert(d1.intersect(d0) =~= d0);
}

} // verus!
