use bddrs::{BddError, Context};

#[test]
fn empty_size() {
    let ctx = Context::new(vec![]);
    assert!(ctx.size() == 2)
}

#[test]
fn simple() {
    let mut ctx = Context::new(vec!["foo"]);
    let t = ctx.tru();
    let f = ctx.fls();
    let res = ctx.ite(t, t, f);
    assert!(res == t)
}

#[test]
fn var_test() {
    let mut ctx = Context::new(vec!["foo"]);
    let t = ctx.tru();
    let f = ctx.fls();
    let foo = ctx.var("foo");
    let res = ctx.ite(foo, t, f);
    assert!(res == foo)
}

#[test]
fn and_test() {
    let mut ctx = Context::new(vec!["foo", "bar"]);
    let foo = ctx.var("foo");
    let bar = ctx.var("bar");
    let nfoo = ctx.not(foo);
    let or = ctx.or(foo, nfoo);
    let res = ctx.and(or, bar);
    assert!(res == bar)
}

#[test]
fn terminals_are_zero_and_one() {
    let ctx = Context::new(vec!["foo"]);
    assert_eq!(ctx.fls(), 0);
    assert_eq!(ctx.tru(), 1);
    assert_eq!(ctx.size(), 2);
}

#[test]
fn ite_false_condition_returns_else() {
    let mut ctx = Context::new(vec!["foo", "bar"]);
    let foo = ctx.var("foo");
    let bar = ctx.var("bar");
    let f = ctx.fls();
    let t = ctx.tru();
    assert_eq!(ctx.ite(f, foo, bar), bar);
    assert_eq!(ctx.ite(t, foo, bar), foo);
    assert_eq!(ctx.size(), 4);
}

#[test]
fn var_twice_allocates_once() {
    let mut ctx = Context::new(vec!["foo", "bar"]);
    let a = ctx.var("bar");
    assert_eq!(a, 2);
    assert_eq!(ctx.size(), 3);
    let b = ctx.var("bar");
    assert_eq!(a, b);
    assert_eq!(ctx.size(), 3);
}

#[test]
fn contradiction_and_excluded_middle() {
    let mut ctx = Context::new(vec!["x", "y"]);
    for name in ["x", "y"] {
        let x = ctx.var(name);
        let nx = ctx.not(x);
        assert_eq!(ctx.and(x, nx), ctx.fls());
        assert_eq!(ctx.or(x, nx), ctx.tru());
    }
}

#[test]
fn conjunction_is_canonical() {
    let mut ctx = Context::new(vec!["foo", "bar"]);
    let foo = ctx.var("foo");
    let bar = ctx.var("bar");
    let ab = ctx.and(foo, bar);
    assert_eq!(ctx.size(), 5);
    let ba = ctx.and(bar, foo);
    assert_eq!(ab, ba);
    assert_eq!(ctx.size(), 5);
    // De Morgan: not(or(not foo, not bar)) is the same conjunction.
    let nfoo = ctx.not(foo);
    let nbar = ctx.not(bar);
    let o = ctx.or(nfoo, nbar);
    let no = ctx.not(o);
    assert_eq!(no, ab);
}

#[test]
fn double_negation_is_identity() {
    let mut ctx = Context::new(vec!["foo"]);
    let foo = ctx.var("foo");
    let n = ctx.not(foo);
    assert_ne!(n, foo);
    assert_eq!(n, 3);
    let nn = ctx.not(n);
    assert_eq!(nn, foo);
}

#[test]
fn size_never_shrinks() {
    let mut ctx = Context::new(vec!["a", "b", "c"]);
    let mut last = ctx.size();
    let a = ctx.var("a");
    assert!(ctx.size() >= last);
    last = ctx.size();
    let b = ctx.var("b");
    assert!(ctx.size() >= last);
    last = ctx.size();
    let c = ctx.var("c");
    let ab = ctx.or(a, b);
    assert!(ctx.size() >= last);
    last = ctx.size();
    let r = ctx.and(ab, c);
    assert!(ctx.size() >= last);
    let again = ctx.and(ab, c);
    assert_eq!(r, again);
}

#[test]
fn rank_of_known_and_unknown() {
    let ctx = Context::new(vec!["foo", "bar"]);
    assert_eq!(ctx.rank_of("foo"), Ok(0));
    assert_eq!(ctx.rank_of("bar"), Ok(1));
    assert_eq!(ctx.rank_of("baz"), Err(BddError::UnknownVariable));
}

#[test]
fn try_ite_rejects_foreign_handles() {
    let mut ctx = Context::new(vec!["foo"]);
    let foo = ctx.var("foo");
    assert_eq!(ctx.try_ite(foo, 1, 0), Ok(foo));
    assert_eq!(ctx.try_ite(7, 1, 0), Err(BddError::InvalidHandle));
    assert_eq!(ctx.try_ite(foo, -1, 0), Err(BddError::InvalidHandle));
    assert_eq!(ctx.size(), 3);
}

#[test]
fn exclusive_or_of_two_variables() {
    let mut ctx = Context::new(vec!["p", "q"]);
    let p = ctx.var("p");
    let q = ctx.var("q");
    let nq = ctx.not(q);
    let x = ctx.ite(p, nq, q);
    let np = ctx.not(p);
    let y = ctx.ite(q, np, p);
    assert_eq!(x, y);
    assert_ne!(x, p);
    assert_ne!(x, q);
}
