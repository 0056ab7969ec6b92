use congruence::cc::CongruenceClosure;
use congruence::term::Term;

const F: u64 = 1;
const G: u64 = 2;
const H: u64 = 3;
const PAIR: u64 = 4;

fn a() -> Term {
    Term::atom(10)
}

fn b() -> Term {
    Term::atom(11)
}

fn c() -> Term {
    Term::atom(12)
}

fn f1(x: Term) -> Term {
    Term::unary(F, x)
}

fn f2(x: Term, y: Term) -> Term {
    Term::binary(F, x, y)
}

fn g2(x: Term, y: Term) -> Term {
    Term::binary(G, x, y)
}

fn h1(x: Term) -> Term {
    Term::unary(H, x)
}

fn pair(x: Term, y: Term) -> Term {
    Term::binary(PAIR, x, y)
}

#[test]
fn token_stability() {
    let mut cc = CongruenceClosure::new();
    let t1 = cc.add(a());
    let t2 = cc.add(b());
    let t3 = cc.add(a());
    assert_eq!(t1, t3);
    assert_ne!(t1, t2);
    cc.merge(a(), b());
    cc.add(f1(a()));
    let t4 = cc.add(a());
    assert_eq!(t1, t4);
    assert_eq!(t2, cc.add(b()));
}

#[test]
fn merged_reflexive() {
    let mut cc = CongruenceClosure::new();
    cc.add(a());
    assert!(cc.merged(a(), a()));
    // reflexivity holds even for a term never added before
    assert!(cc.merged(f1(b()), f1(b())));
}

#[test]
fn merged_symmetric() {
    let mut cc = CongruenceClosure::new();
    assert_eq!(cc.merged(a(), b()), cc.merged(b(), a()));
    cc.merge(a(), b());
    assert!(cc.merged(a(), b()));
    assert!(cc.merged(b(), a()));
    assert_eq!(cc.merged(a(), c()), cc.merged(c(), a()));
}

#[test]
fn merged_transitive() {
    let mut cc = CongruenceClosure::new();
    cc.merge(a(), b());
    cc.merge(b(), c());
    assert!(cc.merged(a(), c()));
}

#[test]
fn merged_monotone() {
    let mut cc = CongruenceClosure::new();
    cc.merge(a(), b());
    assert!(cc.merged(a(), b()));
    cc.add(f1(a()));
    cc.add(g2(a(), c()));
    cc.merge(b(), c());
    cc.merge(h1(a()), h1(h1(a())));
    assert!(cc.merged(a(), b()));
}

#[test]
fn positional_congruence() {
    let mut cc = CongruenceClosure::new();
    cc.add(f2(a(), b()));
    cc.add(f2(b(), a()));
    assert!(!cc.merged(f2(a(), b()), f2(b(), a())));
    cc.merge(a(), b());
    assert!(cc.merged(f2(a(), b()), f2(b(), a())));
}

#[test]
fn merge_idempotent() {
    let mut cc = CongruenceClosure::new();
    cc.add(f1(a()));
    cc.add(f1(b()));
    cc.merge(a(), b());
    let fab = cc.merged(f1(a()), f1(b()));
    let ac = cc.merged(a(), c());
    cc.merge(a(), b());
    cc.merge(a(), b());
    assert_eq!(cc.merged(f1(a()), f1(b())), fab);
    assert_eq!(cc.merged(a(), c()), ac);
    assert!(cc.merged(a(), b()));
}

#[test]
fn simple_congruence() {
    let mut cc = CongruenceClosure::new();
    cc.add(f1(a()));
    cc.add(f1(b()));
    cc.add(a());
    cc.add(b());
    assert!(!cc.merged(f1(a()), f1(b())));
    cc.merge(a(), b());
    assert!(cc.merged(f1(a()), f1(b())));
}

#[test]
fn transitive_subterm_propagation() {
    let x = || Term::atom(20);
    let y = || Term::atom(21);
    let u = || Term::atom(22);
    let v = || Term::atom(23);
    let mut cc = CongruenceClosure::new();
    cc.add(g2(x(), y()));
    cc.add(g2(u(), v()));
    cc.merge(x(), u());
    assert!(!cc.merged(g2(x(), y()), g2(u(), v())));
    cc.merge(y(), v());
    assert!(cc.merged(g2(x(), y()), g2(u(), v())));
}

#[test]
fn insertion_order_symmetry() {
    let mut cc = CongruenceClosure::new();
    cc.merge(a(), b());
    cc.add(f1(a()));
    cc.add(f1(b()));
    assert!(cc.merged(f1(a()), f1(b())));
}

#[test]
fn no_spurious_merge() {
    let a1 = || Term::atom(30);
    let b1 = || Term::atom(31);
    let mut cc = CongruenceClosure::new();
    cc.add(pair(a(), b()));
    cc.add(pair(a1(), b1()));
    cc.merge(a(), a1());
    assert!(!cc.merged(pair(a(), b()), pair(a1(), b1())));
    assert!(cc.merged(a(), a1()));
    assert!(!cc.merged(b(), b1()));
}

#[test]
fn cascade() {
    let mut cc = CongruenceClosure::new();
    cc.add(h1(h1(a())));
    cc.add(h1(h1(b())));
    cc.add(h1(a()));
    cc.add(h1(b()));
    cc.add(a());
    cc.add(b());
    assert!(!cc.merged(h1(h1(a())), h1(h1(b()))));
    cc.merge(a(), b());
    assert!(cc.merged(h1(a()), h1(b())));
    assert!(cc.merged(h1(h1(a())), h1(h1(b()))));
}

#[test]
fn latent_equivalence() {
    let mut cc = CongruenceClosure::new();
    cc.add(a());
    cc.add(b());
    cc.merge(a(), b());
    assert!(cc.merged(f1(a()), f1(b())));
}

#[test]
fn distinct_shapes_stay_apart() {
    let mut cc = CongruenceClosure::new();
    cc.add(f1(a()));
    cc.add(h1(a()));
    assert!(!cc.merged(f1(a()), h1(a())));
    // different arity under the same label is never congruent
    cc.add(f2(a(), a()));
    assert!(!cc.merged(f1(a()), f2(a(), a())));
}
