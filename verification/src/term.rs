//! A small concrete term language implementing [`Key`](crate::cc::Key).
//!
//! A term is a labelled constructor of arity zero, one or two. Shape
//! equality compares the label only, so `Unary(7, x)` and `Unary(7, y)`
//! are shallow-equal for any `x`, `y`.

use vstd::prelude::*;

use crate::cc::Key;

verus! {

/// A labelled term with at most two immediate sub-terms.
pub enum Term {
    Atom(u64),
    Unary(u64, Box<Term>),
    Binary(u64, Box<Term>, Box<Term>),
}

impl Term {
    /// The label of the outermost constructor.
    pub open spec fn label_spec(self) -> u64 {
        match self {
            Term::Atom(l) => l,
            Term::Unary(l, _) => l,
            Term::Binary(l, _, _) => l,
        }
    }

    pub fn label(&self) -> (l: u64)
        ensures
            l == self.label_spec(),
    {
        match self {
            Term::Atom(l) => *l,
            Term::Unary(l, _) => *l,
            Term::Binary(l, _, _) => *l,
        }
    }

    /// Build a leaf term.
    pub fn atom(l: u64) -> (t: Term)
        ensures
            t == Term::Atom(l),
    {
        Term::Atom(l)
    }

    /// Build a one-argument term.
    pub fn unary(l: u64, a: Term) -> (t: Term)
        ensures
            t.label_spec() == l,
            t.successors_spec() == seq![a],
    {
        let t = Term::Unary(l, Box::new(a));
        proof {
            assert(t.successors_spec() =~= seq![a]);
        }
        t
    }

    /// Build a two-argument term.
    pub fn binary(l: u64, a: Term, b: Term) -> (t: Term)
        ensures
            t.label_spec() == l,
            t.successors_spec() == seq![a, b],
    {
        let t = Term::Binary(l, Box::new(a), Box::new(b));
        proof {
            assert(t.successors_spec() =~= seq![a, b]);
        }
        t
    }
}

impl Key for Term {
    /// Shape equality: the label alone, never the sub-terms.
    open spec fn shallow_eq_spec(self, other: Self) -> bool {
        self.label_spec() == other.label_spec()
    }

    open spec fn successors_spec(self) -> Seq<Term> {
        match self {
            Term::Atom(_) => Seq::empty(),
            Term::Unary(_, a) => seq![*a],
            Term::Binary(_, a, b) => seq![*a, *b],
        }
    }

    open spec fn depth(self) -> nat
        decreases self,
    {
        match self {
            Term::Atom(_) => 0,
            Term::Unary(_, a) => (*a).depth() + 1,
            Term::Binary(_, a, b) => 1 + if (*a).depth() > (*b).depth() {
                (*a).depth()
            } else {
                (*b).depth()
            },
        }
    }

    proof fn lemma_successors_depth(self) {
    }

    proof fn lemma_shallow_sym(self, other: Self) {
    }

    proof fn lemma_shallow_nullary(self, other: Self) {
        match self {
            Term::Atom(l1) => {
                match other {
                    Term::Atom(l2) => {
                        assert(l1 == l2);
                    },
                    Term::Unary(_, _) => {
                        assert(other.successors_spec().len() == 1);
                    },
                    Term::Binary(_, _, _) => {
                        assert(other.successors_spec().len() == 2);
                    },
                }
            },
            Term::Unary(_, _) => {
                assert(self.successors_spec().len() == 1);
            },
            Term::Binary(_, _, _) => {
                assert(self.successors_spec().len() == 2);
            },
        }
    }

    fn key_eq(&self, other: &Self) -> (r: bool)
        decreases *self,
    {
        match (self, other) {
            (Term::Atom(l1), Term::Atom(l2)) => *l1 == *l2,
            (Term::Unary(l1, a1), Term::Unary(l2, a2)) => *l1 == *l2 && (**a1).key_eq(&**a2),
            (Term::Binary(l1, a1, b1), Term::Binary(l2, a2, b2)) => *l1 == *l2 && (**a1).key_eq(
                &**a2,
            ) && (**b1).key_eq(&**b2),
            _ => false,
        }
    }

    fn shallow_eq(&self, other: &Self) -> (r: bool) {
        self.label() == other.label()
    }

    fn successors(&self) -> (r: Vec<Term>) {
        match self {
            Term::Atom(_) => {
                let r: Vec<Term> = Vec::new();
                proof {
                    assert(r@ =~= self.successors_spec());
                }
                r
            },
            Term::Unary(_, a) => {
                let mut r: Vec<Term> = Vec::new();
                r.push((**a).clone_key());
                proof {
                    assert(r@ =~= self.successors_spec());
                }
                r
            },
            Term::Binary(_, a, b) => {
                let mut r: Vec<Term> = Vec::new();
                r.push((**a).clone_key());
                r.push((**b).clone_key());
                proof {
                    assert(r@ =~= self.successors_spec());
                }
                r
            },
        }
    }

    fn clone_key(&self) -> (r: Term)
        decreases *self,
    {
        match self {
            Term::Atom(l) => Term::Atom(*l),
            Term::Unary(l, a) => Term::Unary(*l, Box::new((**a).clone_key())),
            Term::Binary(l, a, b) => Term::Binary(
                *l,
                Box::new((**a).clone_key()),
                Box::new((**b).clone_key()),
            ),
        }
    }
}

} // verus!
