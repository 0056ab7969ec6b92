//! The congruence-closure engine.
//!
//! Terms are interned into dense integer tokens. Token `i` owns the key at
//! index `i` of `keys`, the successor-token list at index `i` of `succs`,
//! and the union–find slot `i` of `table`: the three structures share one
//! index space. `add` interns a term and its sub-terms, `merge` asserts an
//! equality, and both propagate candidate parent merges through
//! `maybe_merge` until the induced congruences are recorded.

use vstd::prelude::*;

use crate::union_find::UnionTable;
use crate::union_find::count_roots;
use crate::union_find::lemma_root_props;
use crate::union_find::root_of;

verus! {

/// An opaque dense token, stable for the lifetime of the engine. It is the
/// shared index of the key, the successor list, and the union–find slot.
/// Tokens are numbered densely from zero in interning order; a composite
/// term's not-yet-interned sub-terms are interned before the term itself,
/// so a freshly added term receives the largest token of its `add` call.
#[derive(Copy, Clone, Debug, PartialEq, Eq, Structural)]
pub struct Token {
    pub index: usize,
}

impl Token {
    pub fn new(index: usize) -> (t: Token)
        ensures
            t.index == index,
    {
        Token { index }
    }
}

/// The contract a user term type must meet.
///
/// `shallow_eq` compares only the outermost constructor of a term, never
/// its sub-terms, and must be an equivalence relation; `successors` returns
/// the immediate sub-terms in a fixed, positionally significant order; both
/// must be deterministic. `depth` is any measure under which every
/// successor is strictly smaller; it bounds the interning recursion.
pub trait Key: Sized {
    /// Shape equality: outermost constructor only.
    spec fn shallow_eq_spec(self, other: Self) -> bool;

    /// The immediate sub-terms, in order.
    spec fn successors_spec(self) -> Seq<Self>;

    /// A structural measure: successors are strictly smaller.
    spec fn depth(self) -> nat;

    /// Every successor is strictly smaller than its parent.
    proof fn lemma_successors_depth(self)
        ensures
            forall|i: int|
                0 <= i < self.successors_spec().len() ==> (#[trigger] self.successors_spec()[i]).depth()
                    < self.depth(),
    ;

    /// Shape equality is symmetric.
    proof fn lemma_shallow_sym(self, other: Self)
        ensures
            self.shallow_eq_spec(other) == other.shallow_eq_spec(self),
    ;

    /// Two shape-equal terms without successors are the same term: a
    /// nullary constructor is determined by its shape alone.
    proof fn lemma_shallow_nullary(self, other: Self)
        requires
            self.shallow_eq_spec(other),
            self.successors_spec().len() == 0,
            other.successors_spec().len() == 0,
        ensures
            self == other,
    ;

    /// Decidable value equality, agreeing with logical equality.
    fn key_eq(&self, other: &Self) -> (r: bool)
        ensures
            r == (*self == *other),
    ;

    fn shallow_eq(&self, other: &Self) -> (r: bool)
        ensures
            r == self.shallow_eq_spec(*other),
    ;

    fn successors(&self) -> (r: Vec<Self>)
        ensures
            r@ == self.successors_spec(),
    ;

    fn clone_key(&self) -> (r: Self)
        ensures
            r == *self,
    ;
}

/// `post` keeps every element of `pre` at its place: interning only
/// appends, so tokens are stable.
pub open spec fn seq_extends<T>(post: Seq<T>, pre: Seq<T>) -> bool {
    pre.len() <= post.len() && forall|i: int| 0 <= i < pre.len() ==> post[i] == pre[i]
}

/// The predecessor-product pairs not yet considered by a merge: row `i`
/// from column `j` on, and every later row.
spec fn prod_pairs(up: Seq<usize>, vp: Seq<usize>, i: int, j: int) -> Set<(int, int)> {
    Set::new(
        |pr: (int, int)|
            exists|a: int, b: int|
                0 <= a < up.len() && 0 <= b < vp.len() && (a > i || (a == i && b >= j)) && pr == ((
                #[trigger] up[a]) as int, (#[trigger] vp[b]) as int),
    )
}

/// The pairs of a new node against a predecessor list from entry `m` on.
spec fn list_pairs(t: int, pl: Seq<usize>, m: int) -> Set<(int, int)> {
    Set::new(|pr: (int, int)| exists|k: int| m <= k < pl.len() && pr == (t, (#[trigger] pl[k]) as int))
}

/// Every pair with the given token on either side.
spec fn tok_pairs(t: int) -> Set<(int, int)> {
    Set::new(|pr: (int, int)| pr.0 == t || pr.1 == t)
}

/// The engine: an interner, a successor graph, and a union–find table over
/// one shared dense index space.
pub struct CongruenceClosure<K> {
    /// Token `i` was interned from `keys[i]`; keys are pairwise distinct.
    pub keys: Vec<K>,
    /// `succs[i]` are the tokens of `keys[i]`'s successors, in order.
    /// A node's list is fixed when the node is added.
    pub succs: Vec<Vec<usize>>,
    /// One union–find slot per token.
    pub table: UnionTable,
    /// The token pairs explicitly declared equal by `merge`, kept to state
    /// that the engine never merges more than those equalities entail.
    pub asserted: Ghost<Set<(int, int)>>,
}

impl<K: Key> CongruenceClosure<K> {
    /// `s` is `t` itself or a term reachable from `t` through successors:
    /// the terms an `add` of `t` may intern.
    pub open spec fn subterm_of(s: K, t: K) -> bool
        decreases t.depth(),
        via Self::subterm_of_decreases
    {
        s == t || exists|i: int|
            0 <= i < t.successors_spec().len() && Self::subterm_of(
                s,
                #[trigger] t.successors_spec()[i],
            )
    }

    #[via_fn]
    proof fn subterm_of_decreases(s: K, t: K) {
        t.lemma_successors_depth();
    }

    /// Number of interned terms.
    pub open spec fn num_tokens(&self) -> nat {
        self.keys@.len()
    }

    /// Whether `k` has a token.
    pub open spec fn interned(&self, k: K) -> bool {
        exists|i: int| 0 <= i < self.keys@.len() && #[trigger] self.keys@[i] == k
    }

    /// The token of an interned key (unique by key distinctness).
    pub open spec fn token_of(&self, k: K) -> int {
        choose|i: int| 0 <= i < self.keys@.len() && #[trigger] self.keys@[i] == k
    }

    /// Tokens `a` and `b` are currently in the same equivalence class.
    pub open spec fn tokens_unioned(&self, a: int, b: int) -> bool {
        self.table.same(a, b)
    }

    /// Keys `a` and `b` are interned and currently equated.
    pub open spec fn key_merged(&self, a: K, b: K) -> bool {
        self.interned(a) && self.interned(b) && self.tokens_unioned(
            self.token_of(a),
            self.token_of(b),
        )
    }

    /// Structural well-formedness: the three structures share one index
    /// space; successor tokens point strictly downward and carry exactly
    /// the successor keys; keys are pairwise distinct.
    pub open spec fn wf(&self) -> bool {
        &&& self.table.wf()
        &&& self.table.len_spec() == self.keys@.len()
        &&& self.succs@.len() == self.keys@.len()
        &&& forall|i: int|
            0 <= i < self.keys@.len() ==> (#[trigger] self.succs@[i])@.len()
                == self.keys@[i].successors_spec().len()
        &&& forall|i: int, j: int|
            0 <= i < self.keys@.len() && 0 <= j < self.succs@[i]@.len() ==> ((
            #[trigger] self.succs@[i]@[j]) as int) < i
        &&& forall|i: int, j: int|
            0 <= i < self.keys@.len() && 0 <= j < self.succs@[i]@.len()
                ==> self.keys@[#[trigger] self.succs@[i]@[j] as int]
                == self.keys@[i].successors_spec()[j]
        &&& forall|i: int, j: int|
            0 <= i < j < self.keys@.len() ==> #[trigger] self.keys@[i] != #[trigger] self.keys@[j]
    }

    /// Positional congruence of two tokens: equal arity and pairwise
    /// equated successors.
    pub open spec fn congruent_spec(&self, a: int, b: int) -> bool {
        &&& self.succs@[a]@.len() == self.succs@[b]@.len()
        &&& forall|i: int|
            0 <= i < self.succs@[a]@.len() ==> self.table.same(
                (#[trigger] self.succs@[a]@[i]) as int,
                self.succs@[b]@[i] as int,
            )
    }

    /// Token `p` has an edge into the current class of `u`.
    pub open spec fn is_pred_of_class(&self, p: int, u: int) -> bool {
        exists|jj: int|
            0 <= jj < self.succs@[p]@.len() && self.table.same(
                (#[trigger] self.succs@[p]@[jj]) as int,
                u,
            )
    }

    /// Shape equality of the keys carried by two tokens.
    pub open spec fn shallow_at(&self, x: int, y: int) -> bool {
        self.keys@[x].shallow_eq_spec(self.keys@[y])
    }

    /// A missing congruence: two shape-equal, positionally congruent
    /// tokens that are not yet in one class.
    pub open spec fn violator(&self, x: int, y: int) -> bool {
        &&& 0 <= x < self.keys@.len()
        &&& 0 <= y < self.keys@.len()
        &&& self.shallow_at(x, y)
        &&& self.congruent_spec(x, y)
        &&& !self.table.same(x, y)
    }

    /// The congruence-closure invariant: whenever two tokens carry
    /// shape-equal keys of the same arity and all their positionally
    /// aligned successors are equated, the tokens are equated.
    pub open spec fn congruence_closed(&self) -> bool {
        forall|x: int, y: int| !(#[trigger] self.violator(x, y))
    }

    /// Closure up to a pending set: every missing congruence is one of
    /// the pairs still waiting to be considered.
    pub open spec fn closed_except(&self, ps: Set<(int, int)>) -> bool {
        forall|x: int, y: int|
            #[trigger] self.violator(x, y) ==> ps.contains((x, y)) || ps.contains((y, x))
    }

    /// `r` is a candidate explanation of the engine's equalities: an
    /// equivalence over the tokens that contains every asserted pair and is
    /// closed under congruence over the term graph.
    pub open spec fn respects(&self, r: spec_fn(int, int) -> bool) -> bool {
        &&& forall|x: int| 0 <= x < self.keys@.len() ==> #[trigger] r(x, x)
        &&& forall|x: int, y: int| #[trigger] r(x, y) ==> r(y, x)
        &&& forall|x: int, y: int, z: int| #[trigger] r(x, y) && #[trigger] r(y, z) ==> r(x, z)
        &&& forall|x: int, y: int| self.asserted@.contains((x, y)) ==> #[trigger] r(x, y)
        &&& forall|x: int, y: int|
            0 <= x < self.keys@.len() && 0 <= y < self.keys@.len() && self.shallow_at(x, y)
                && self.succs@[x]@.len() == self.succs@[y]@.len() && (forall|i: int|
                0 <= i < self.succs@[x]@.len() ==> r(
                    (#[trigger] self.succs@[x]@[i]) as int,
                    (self.succs@[y]@[i]) as int,
                )) ==> #[trigger] r(x, y)
    }

    /// The minimality invariant: the engine's relation is contained in
    /// every candidate explanation, so no merge is spurious.
    pub open spec fn entailed(&self) -> bool {
        forall|r: spec_fn(int, int) -> bool|
            #[trigger] self.respects(r) ==> forall|x: int, y: int|
                0 <= x < self.keys@.len() && 0 <= y < self.keys@.len() && #[trigger] self.table.same(
                    x,
                    y,
                ) ==> r(x, y)
    }

    /// A smaller pending set means a stronger closure statement.
    proof fn lemma_closed_except_subset(self, ps: Set<(int, int)>, qs: Set<(int, int)>)
        requires
            self.closed_except(ps),
            ps.subset_of(qs),
        ensures
            self.closed_except(qs),
    {
    }

    /// Positional congruence is symmetric.
    proof fn lemma_congruent_sym(self, x: int, y: int)
        requires
            0 <= x < self.succs@.len(),
            0 <= y < self.succs@.len(),
        ensures
            self.congruent_spec(x, y) == self.congruent_spec(y, x),
    {
    }

    /// A union justified against every candidate explanation keeps the
    /// relation entailed.
    proof fn lemma_entailed_after_union(pre: Self, post: Self, u: int, v: int)
        requires
            post.keys@ == pre.keys@,
            post.succs@ == pre.succs@,
            post.asserted@ == pre.asserted@,
            0 <= u < pre.keys@.len(),
            0 <= v < pre.keys@.len(),
            pre.entailed(),
            forall|r: spec_fn(int, int) -> bool| #[trigger] pre.respects(r) ==> r(u, v),
            forall|a: int, b: int|
                0 <= a < pre.keys@.len() && 0 <= b < pre.keys@.len() ==> (post.table.same(a, b)
                    <==> (pre.table.same(a, b) || (pre.table.same(a, u) && pre.table.same(b, v))
                    || (pre.table.same(a, v) && pre.table.same(b, u)))),
        ensures
            post.entailed(),
    {
        assert forall|r: spec_fn(int, int) -> bool| #[trigger] post.respects(r) implies (forall|
            x: int,
            y: int,
        |
            0 <= x < post.keys@.len() && 0 <= y < post.keys@.len() && #[trigger] post.table.same(
                x,
                y,
            ) ==> r(x, y)) by {
            assert(pre.respects(r));
            assert forall|x: int, y: int|
                0 <= x < post.keys@.len() && 0 <= y < post.keys@.len() && #[trigger] post.table.same(
                    x,
                    y,
                ) implies r(x, y) by {
                assert(r(u, v));
                if pre.table.same(x, y) {
                    assert(r(x, y));
                } else if pre.table.same(x, u) && pre.table.same(y, v) {
                    assert(r(x, u));
                    assert(r(y, v));
                    assert(r(u, v));
                    assert(r(x, v));
                    assert(r(v, y));
                } else {
                    assert(pre.table.same(x, v) && pre.table.same(y, u));
                    assert(r(x, v));
                    assert(r(y, u));
                    assert(r(v, u));
                    assert(r(x, u));
                    assert(r(u, y));
                }
            }
        }
    }

    /// Appending a fresh singleton node keeps the relation entailed: any
    /// candidate explanation of the grown graph also explains the old one,
    /// and the new token is related only to itself.
    proof fn lemma_entailed_after_alloc(pre: Self, post: Self, t: usize)
        requires
            pre.wf(),
            t as int == pre.keys@.len(),
            post.keys@.len() == pre.keys@.len() + 1,
            forall|i: int| 0 <= i < pre.keys@.len() ==> post.keys@[i] == pre.keys@[i],
            post.succs@.len() == pre.succs@.len() + 1,
            forall|i: int| 0 <= i < pre.succs@.len() ==> post.succs@[i] == pre.succs@[i],
            post.asserted@ == pre.asserted@,
            pre.entailed(),
            post.table.parent@ == pre.table.parent@.push(t),
        ensures
            post.entailed(),
    {
        let ti = t as int;
        assert(root_of(post.table.parent@, ti) == ti);
        assert forall|a: int|
            0 <= a < pre.keys@.len() implies root_of(post.table.parent@, a) == root_of(
            pre.table.parent@,
            a,
        ) && root_of(pre.table.parent@, a) <= a by {
            crate::union_find::lemma_root_push(pre.table.parent@, t, a);
            lemma_root_props(pre.table.parent@, a);
        }
        assert forall|a: int, b: int|
            0 <= a < post.keys@.len() && 0 <= b < post.keys@.len() implies (post.table.same(a, b)
                <==> (a == b || (a < pre.keys@.len() && b < pre.keys@.len() && pre.table.same(
            a,
            b,
        )))) by {
            assert(post.keys@.len() == pre.keys@.len() + 1);
        }
        assert forall|r: spec_fn(int, int) -> bool| #[trigger] post.respects(r) implies (forall|
            x: int,
            y: int,
        |
            0 <= x < post.keys@.len() && 0 <= y < post.keys@.len() && #[trigger] post.table.same(
                x,
                y,
            ) ==> r(x, y)) by {
            assert(pre.respects(r)) by {
                assert forall|x: int, y: int|
                    0 <= x < pre.keys@.len() && 0 <= y < pre.keys@.len() && pre.shallow_at(x, y)
                        && pre.succs@[x]@.len() == pre.succs@[y]@.len() && (forall|i: int|
                        0 <= i < pre.succs@[x]@.len() ==> r(
                            (#[trigger] pre.succs@[x]@[i]) as int,
                            (pre.succs@[y]@[i]) as int,
                        )) implies #[trigger] r(x, y) by {
                    assert(post.succs@[x] == pre.succs@[x]);
                    assert(post.succs@[y] == pre.succs@[y]);
                    assert(post.shallow_at(x, y));
                    assert forall|i: int| 0 <= i < post.succs@[x]@.len() implies r(
                        (#[trigger] post.succs@[x]@[i]) as int,
                        (post.succs@[y]@[i]) as int,
                    ) by {
                        assert(r((pre.succs@[x]@[i]) as int, (pre.succs@[y]@[i]) as int));
                    }
                }
            }
            assert forall|x: int, y: int|
                0 <= x < post.keys@.len() && 0 <= y < post.keys@.len() && #[trigger] post.table.same(
                    x,
                    y,
                ) implies r(x, y) by {
                if x == y {
                    assert(r(x, x));
                } else {
                    assert(x < pre.keys@.len() && y < pre.keys@.len() && pre.table.same(x, y));
                }
            }
        }
    }

    /// Interning is closed under sub-terms: the engine never holds a term
    /// without also holding every term reachable through its successors.
    pub proof fn lemma_interned_subterms(self, s: K, t: K)
        requires
            self.wf(),
            self.interned(t),
            Self::subterm_of(s, t),
        ensures
            self.interned(s),
        decreases t.depth(),
    {
        if s != t {
            let i = choose|i: int|
                0 <= i < t.successors_spec().len() && Self::subterm_of(
                    s,
                    #[trigger] t.successors_spec()[i],
                );
            let tt = choose|k: int| 0 <= k < self.keys@.len() && #[trigger] self.keys@[k] == t;
            assert(self.succs@[tt]@.len() == t.successors_spec().len());
            let st = self.succs@[tt]@[i];
            assert(self.keys@[st as int] == t.successors_spec()[i]);
            assert(self.interned(t.successors_spec()[i]));
            t.lemma_successors_depth();
            self.lemma_interned_subterms(s, t.successors_spec()[i]);
        }
    }

    /// A key stays interned when the key sequence is only extended.
    proof fn lemma_interned_extends(pre: Self, post: Self, s: K)
        requires
            seq_extends(post.keys@, pre.keys@),
            pre.interned(s),
        ensures
            post.interned(s),
    {
        let w = choose|i: int| 0 <= i < pre.keys@.len() && #[trigger] pre.keys@[i] == s;
        assert(post.keys@[w] == s);
    }

    /// An interned key's token is exactly the index that carries it.
    pub proof fn lemma_token_of_is(self, i: int, k: K)
        requires
            self.wf(),
            0 <= i < self.keys@.len(),
            self.keys@[i] == k,
        ensures
            self.interned(k),
            self.token_of(k) == i,
    {
        assert(self.interned(k));
        let j = self.token_of(k);
        if j != i {
            if i < j {
                assert(self.keys@[i] != self.keys@[j]);
            } else {
                assert(self.keys@[j] != self.keys@[i]);
            }
        }
    }

    /// Monotonicity of the key-level relation: if a later state keeps every
    /// key at its token and every token-level equation, it keeps every
    /// key-level equation. No operation of the engine un-merges.
    pub proof fn lemma_key_merged_monotone(pre: Self, post: Self)
        requires
            pre.wf(),
            post.wf(),
            seq_extends(post.keys@, pre.keys@),
            forall|a: int, b: int|
                0 <= a < pre.keys@.len() && 0 <= b < pre.keys@.len() && pre.tokens_unioned(a, b)
                    ==> post.tokens_unioned(a, b),
        ensures
            forall|a: K, b: K| pre.key_merged(a, b) ==> post.key_merged(a, b),
    {
        assert forall|a: K, b: K| pre.key_merged(a, b) implies post.key_merged(a, b) by {
            let ta = pre.token_of(a);
            let tb = pre.token_of(b);
            assert(0 <= ta < pre.keys@.len() && pre.keys@[ta] == a);
            assert(0 <= tb < pre.keys@.len() && pre.keys@[tb] == b);
            post.lemma_token_of_is(ta, a);
            post.lemma_token_of_is(tb, b);
        }
    }

    /// Reflexivity: an interned key is merged with itself.
    pub proof fn lemma_merged_reflexive(self, k: K)
        requires
            self.wf(),
            self.interned(k),
        ensures
            self.key_merged(k, k),
    {
    }

    /// Symmetry: the merged relation does not depend on argument order.
    pub proof fn lemma_merged_symmetric(self, a: K, b: K)
        requires
            self.wf(),
        ensures
            self.key_merged(a, b) == self.key_merged(b, a),
    {
    }

    /// Transitivity: equated classes compose.
    pub proof fn lemma_merged_transitive(self, a: K, b: K, c: K)
        requires
            self.wf(),
            self.key_merged(a, b),
            self.key_merged(b, c),
        ensures
            self.key_merged(a, c),
    {
    }

    /// Congruence closure at the level of keys: two interned, shape-equal
    /// terms of equal arity whose positionally aligned successors are all
    /// merged are themselves merged. (In particular, a term of two merged
    /// arguments in matching positions is merged with its counterpart.)
    pub proof fn lemma_congruence_closed_keys(self, u: K, v: K)
        requires
            self.wf(),
            self.congruence_closed(),
            self.interned(u),
            self.interned(v),
            u.shallow_eq_spec(v),
            u.successors_spec().len() == v.successors_spec().len(),
            forall|i: int|
                0 <= i < u.successors_spec().len() ==> self.key_merged(
                    #[trigger] u.successors_spec()[i],
                    v.successors_spec()[i],
                ),
        ensures
            self.key_merged(u, v),
    {
        let tu = self.token_of(u);
        let tv = self.token_of(v);
        assert(0 <= tu < self.keys@.len() && self.keys@[tu] == u);
        assert(0 <= tv < self.keys@.len() && self.keys@[tv] == v);
        assert forall|i: int| 0 <= i < self.succs@[tu]@.len() implies self.table.same(
            (#[trigger] self.succs@[tu]@[i]) as int,
            (self.succs@[tv]@[i]) as int,
        ) by {
            let su = u.successors_spec()[i];
            let sv = v.successors_spec()[i];
            assert(self.keys@[self.succs@[tu]@[i] as int] == su);
            assert(self.keys@[self.succs@[tv]@[i] as int] == sv);
            assert(self.key_merged(su, sv));
            self.lemma_token_of_is((self.succs@[tu]@[i]) as int, su);
            self.lemma_token_of_is((self.succs@[tv]@[i]) as int, sv);
        }
        assert(self.congruent_spec(tu, tv));
        assert(self.shallow_at(tu, tv));
        assert(!self.violator(tu, tv));
    }

    /// No spurious merges: an equation the engine reports holds in every
    /// candidate explanation of the asserted pairs, so the relation is
    /// exactly the congruence closure of what `merge` was given.
    pub proof fn lemma_no_spurious_merge(self, a: K, b: K, r: spec_fn(int, int) -> bool)
        requires
            self.wf(),
            self.entailed(),
            self.respects(r),
            self.key_merged(a, b),
        ensures
            r(self.token_of(a), self.token_of(b)),
    {
        let ta = self.token_of(a);
        let tb = self.token_of(b);
        assert(0 <= ta < self.keys@.len() && self.keys@[ta] == a);
        assert(0 <= tb < self.keys@.len() && self.keys@[tb] == b);
        assert(self.table.same(ta, tb));
    }

    /// Create an empty engine.
    pub fn new() -> (cc: CongruenceClosure<K>)
        ensures
            cc.wf(),
            cc.congruence_closed(),
            cc.entailed(),
            cc.num_tokens() == 0,
            cc.asserted@ == Set::<(int, int)>::empty(),
    {
        CongruenceClosure {
            keys: Vec::new(),
            succs: Vec::new(),
            table: UnionTable::new(),
            asserted: Ghost(Set::empty()),
        }
    }

    /// Linear scan of the interner.
    fn lookup(&self, key: &K) -> (r: Option<usize>)
        requires
            self.wf(),
        ensures
            match r {
                Some(i) => (i as int) < self.keys@.len() && self.keys@[i as int] == *key,
                None => !self.interned(*key),
            },
    {
        let n = self.keys.len();
        let mut i: usize = 0;
        while i < n
            invariant
                n == self.keys@.len(),
                i <= n,
                forall|j: int| 0 <= j < i ==> #[trigger] self.keys@[j] != *key,
            decreases n - i,
        {
            if self.keys[i].key_eq(key) {
                return Some(i);
            }
            i += 1;
        }
        None
    }

    /// Collect every node with an edge into the current class of `u`: the
    /// union of predecessor sets over all class members. The walk is
    /// materialized before any union mutates class membership.
    fn all_preds(&self, u: usize) -> (r: Vec<usize>)
        requires
            self.wf(),
            (u as int) < self.keys@.len(),
        ensures
            forall|k: int| 0 <= k < r@.len() ==> ((#[trigger] r@[k]) as int) < self.keys@.len(),
            forall|p: int|
                0 <= p < self.keys@.len() && #[trigger] self.is_pred_of_class(p, u as int)
                    ==> exists|k: int| 0 <= k < r@.len() && ((#[trigger] r@[k]) as int) == p,
            forall|k: int|
                0 <= k < r@.len() ==> self.is_pred_of_class((#[trigger] r@[k]) as int, u as int),
    {
        let mut r: Vec<usize> = Vec::new();
        let n = self.keys.len();
        let mut p: usize = 0;
        while p < n
            invariant
                self.wf(),
                n == self.keys@.len(),
                p <= n,
                (u as int) < self.keys@.len(),
                forall|k: int| 0 <= k < r@.len() ==> ((#[trigger] r@[k]) as int) < self.keys@.len(),
                forall|q: int|
                    0 <= q < p && #[trigger] self.is_pred_of_class(q, u as int) ==> exists|k: int|
                        0 <= k < r@.len() && ((#[trigger] r@[k]) as int) == q,
                forall|k: int|
                    0 <= k < r@.len() ==> self.is_pred_of_class((#[trigger] r@[k]) as int, u as int),
            decreases n - p,
        {
            let row_len = self.succs[p].len();
            let mut j: usize = 0;
            let mut hit = false;
            while j < row_len
                invariant
                    self.wf(),
                    n == self.keys@.len(),
                    (p as int) < self.keys@.len(),
                    (u as int) < self.keys@.len(),
                    row_len == self.succs@[p as int]@.len(),
                    j <= row_len,
                    hit == (exists|jj: int|
                        0 <= jj < j && self.table.same(
                            (#[trigger] self.succs@[p as int]@[jj]) as int,
                            u as int,
                        )),
                decreases row_len - j,
            {
                let s = self.succs[p][j];
                if self.table.unioned(s, u) {
                    hit = true;
                    proof {
                        assert(self.table.same((self.succs@[p as int]@[j as int]) as int, u as int));
                    }
                } else {
                    proof {
                        assert forall|jj: int|
                            0 <= jj < j + 1 && self.table.same(
                                (self.succs@[p as int]@[jj]) as int,
                                u as int,
                            ) implies jj < j by {}
                    }
                }
                j += 1;
            }
            let ghost r_old = r@;
            if hit {
                r.push(p);
            }
            proof {
                if hit {
                    let jw = choose|jj: int|
                        0 <= jj < j && self.table.same(
                            (#[trigger] self.succs@[p as int]@[jj]) as int,
                            u as int,
                        );
                    assert(self.is_pred_of_class(p as int, u as int));
                }
                assert forall|q: int|
                    0 <= q < p + 1 && #[trigger] self.is_pred_of_class(q, u as int) implies exists|
                    k: int,
                |
                    0 <= k < r@.len() && ((#[trigger] r@[k]) as int) == q by {
                    if q == p as int {
                        assert(hit) by {
                            let jw = choose|jj: int|
                                0 <= jj < self.succs@[q]@.len() && self.table.same(
                                    (#[trigger] self.succs@[q]@[jj]) as int,
                                    u as int,
                                );
                            assert(self.table.same(
                                (self.succs@[p as int]@[jw]) as int,
                                u as int,
                            ));
                        }
                        assert((r@[r@.len() - 1] as int) == q);
                    } else {
                        let k0 = choose|k: int|
                            0 <= k < r_old.len() && ((#[trigger] r_old[k]) as int) == q;
                        assert(0 <= k0 < r@.len() && (r@[k0] as int) == q);
                    }
                }
                assert forall|k: int|
                    0 <= k < r@.len() implies self.is_pred_of_class(
                    (#[trigger] r@[k]) as int,
                    u as int,
                ) by {
                    if k < r_old.len() {
                        assert(r@[k] == r_old[k]);
                        assert(self.is_pred_of_class((r_old[k]) as int, u as int));
                    } else {
                        assert(r@[k] == p);
                    }
                }
            }
            p += 1;
        }
        r
    }

    /// Shape equality of the keys carried by two tokens.
    fn shallow_eq_at(&self, a: usize, b: usize) -> (r: bool)
        requires
            self.wf(),
            (a as int) < self.keys@.len(),
            (b as int) < self.keys@.len(),
        ensures
            r == self.keys@[a as int].shallow_eq_spec(self.keys@[b as int]),
    {
        self.keys[a].shallow_eq(&self.keys[b])
    }

    /// Positional congruence test: equal arity and every pair of aligned
    /// successors already in the same class.
    fn congruent(&self, a: usize, b: usize) -> (r: bool)
        requires
            self.wf(),
            (a as int) < self.keys@.len(),
            (b as int) < self.keys@.len(),
        ensures
            r == self.congruent_spec(a as int, b as int),
    {
        let la = self.succs[a].len();
        let lb = self.succs[b].len();
        if la != lb {
            return false;
        }
        let mut i: usize = 0;
        while i < la
            invariant
                self.wf(),
                (a as int) < self.keys@.len(),
                (b as int) < self.keys@.len(),
                la == self.succs@[a as int]@.len(),
                la == self.succs@[b as int]@.len(),
                i <= la,
                forall|k: int|
                    0 <= k < i ==> self.table.same(
                        (#[trigger] self.succs@[a as int]@[k]) as int,
                        self.succs@[b as int]@[k] as int,
                    ),
            decreases la - i,
        {
            let sa = self.succs[a][i];
            let sb = self.succs[b][i];
            if !self.table.unioned(sa, sb) {
                return false;
            }
            i += 1;
        }
        true
    }

    /// Assert equality of two tokens and restore closure among their
    /// predecessors: snapshot the predecessor sets of both classes, union
    /// the classes, then consider every candidate parent pair. Idempotent:
    /// already-equal tokens leave the engine untouched.
    fn merge_tokens(&mut self, u: usize, v: usize, Ghost(ps): Ghost<Set<(int, int)>>)
        requires
            old(self).wf(),
            (u as int) < old(self).keys@.len(),
            (v as int) < old(self).keys@.len(),
            old(self).closed_except(ps.insert((u as int, v as int))),
            old(self).entailed(),
            forall|r: spec_fn(int, int) -> bool|
                #[trigger] old(self).respects(r) ==> r(u as int, v as int),
        ensures
            final(self).closed_except(ps),
            final(self).entailed(),
            final(self).asserted@ == old(self).asserted@,
            final(self).wf(),
            final(self).keys@ == old(self).keys@,
            final(self).succs@ == old(self).succs@,
            final(self).tokens_unioned(u as int, v as int),
            forall|a: int, b: int|
                0 <= a < old(self).keys@.len() && 0 <= b < old(self).keys@.len() && old(self).tokens_unioned(a, b) ==> final(self).tokens_unioned(a, b),
            count_roots(final(self).table.parent@) <= count_roots(old(self).table.parent@),
            old(self).tokens_unioned(u as int, v as int) ==> *final(self) == *old(self),
        decreases count_roots(old(self).table.parent@), 0int,
    {
        let ghost pre = *self;
        if self.table.unioned(u, v) {
            proof {
                assert forall|x: int, y: int| self.violator(x, y) implies ps.contains((x, y))
                    || ps.contains((y, x)) by {
                    assert(pre.violator(x, y));
                    if (x, y) == (u as int, v as int) || (y, x) == (u as int, v as int) {
                        assert(pre.table.same(x, y));
                    }
                }
            }
            return ;
        }
        let u_preds = self.all_preds(u);
        let v_preds = self.all_preds(v);
        self.table.union(u, v);
        let ghost mid = *self;
        proof {
            Self::lemma_entailed_after_union(pre, mid, u as int, v as int);
            let prod0 = prod_pairs(u_preds@, v_preds@, 0, 0);
            assert forall|x: int, y: int| mid.violator(x, y) implies ps.union(prod0).contains(
                (x, y),
            ) || ps.union(prod0).contains((y, x)) by {
                if pre.table.same(x, y) {
                    assert(mid.table.same(x, y));
                    assert(false);
                }
                if pre.congruent_spec(x, y) {
                    assert(pre.violator(x, y));
                    if (x, y) == (u as int, v as int) || (y, x) == (u as int, v as int) {
                        assert(mid.table.same(u as int, v as int));
                        assert(false);
                    }
                    assert(ps.contains((x, y)) || ps.contains((y, x)));
                } else {
                    assert(pre.succs@[x]@.len() == pre.succs@[y]@.len());
                    let i2 = choose|i2: int|
                        0 <= i2 < pre.succs@[x]@.len() && !pre.table.same(
                            (#[trigger] pre.succs@[x]@[i2]) as int,
                            (pre.succs@[y]@[i2]) as int,
                        );
                    let sx = (pre.succs@[x]@[i2]) as int;
                    let sy = (pre.succs@[y]@[i2]) as int;
                    assert(mid.table.same(sx, sy));
                    assert((pre.table.same(sx, u as int) && pre.table.same(sy, v as int)) || (
                    pre.table.same(sx, v as int) && pre.table.same(sy, u as int)));
                    if pre.table.same(sx, u as int) && pre.table.same(sy, v as int) {
                        assert(pre.is_pred_of_class(x, u as int));
                        assert(pre.is_pred_of_class(y, v as int));
                        assert(exists|k: int|
                            0 <= k < u_preds@.len() && ((#[trigger] u_preds@[k]) as int) == x);
                        assert(exists|k: int|
                            0 <= k < v_preds@.len() && ((#[trigger] v_preds@[k]) as int) == y);
                        let ka = choose|k: int|
                            0 <= k < u_preds@.len() && ((#[trigger] u_preds@[k]) as int) == x;
                        let kb = choose|k: int|
                            0 <= k < v_preds@.len() && ((#[trigger] v_preds@[k]) as int) == y;
                        assert(prod0.contains((x, y)));
                    } else {
                        assert(pre.is_pred_of_class(y, u as int));
                        assert(pre.is_pred_of_class(x, v as int));
                        assert(exists|k: int|
                            0 <= k < u_preds@.len() && ((#[trigger] u_preds@[k]) as int) == y);
                        assert(exists|k: int|
                            0 <= k < v_preds@.len() && ((#[trigger] v_preds@[k]) as int) == x);
                        let ka = choose|k: int|
                            0 <= k < u_preds@.len() && ((#[trigger] u_preds@[k]) as int) == y;
                        let kb = choose|k: int|
                            0 <= k < v_preds@.len() && ((#[trigger] v_preds@[k]) as int) == x;
                        assert(prod0.contains((y, x)));
                    }
                }
            }
            assert(mid.closed_except(ps.union(prod0)));
        }
        let mut i: usize = 0;
        while i < u_preds.len()
            invariant
                self.wf(),
                self.keys@ == pre.keys@,
                self.succs@ == pre.succs@,
                (u as int) < self.keys@.len(),
                (v as int) < self.keys@.len(),
                i <= u_preds@.len(),
                forall|k: int|
                    0 <= k < u_preds@.len() ==> ((#[trigger] u_preds@[k]) as int)
                        < self.keys@.len(),
                forall|k: int|
                    0 <= k < v_preds@.len() ==> ((#[trigger] v_preds@[k]) as int)
                        < self.keys@.len(),
                count_roots(mid.table.parent@) + 1 == count_roots(pre.table.parent@),
                count_roots(self.table.parent@) <= count_roots(mid.table.parent@),
                count_roots(self.table.parent@) < count_roots(old(self).table.parent@),
                forall|a: int, b: int|
                    0 <= a < self.keys@.len() && 0 <= b < self.keys@.len() && mid.tokens_unioned(
                        a,
                        b,
                    ) ==> self.tokens_unioned(a, b),
                mid.keys@ == pre.keys@,
                mid.succs@ == pre.succs@,
                mid.wf(),
                forall|a: int, b: int|
                    0 <= a < pre.keys@.len() && 0 <= b < pre.keys@.len() && pre.tokens_unioned(
                        a,
                        b,
                    ) ==> mid.tokens_unioned(a, b),
                mid.tokens_unioned(u as int, v as int),
                self.closed_except(ps.union(prod_pairs(u_preds@, v_preds@, i as int, 0))),
                self.entailed(),
                self.asserted@ == pre.asserted@,
            decreases u_preds@.len() - i,
        {
            let mut j: usize = 0;
            while j < v_preds.len()
                invariant
                    self.wf(),
                    self.keys@ == pre.keys@,
                    self.succs@ == pre.succs@,
                    (i as int) < u_preds@.len(),
                    j <= v_preds@.len(),
                    forall|k: int|
                        0 <= k < u_preds@.len() ==> ((#[trigger] u_preds@[k]) as int)
                            < self.keys@.len(),
                    forall|k: int|
                        0 <= k < v_preds@.len() ==> ((#[trigger] v_preds@[k]) as int)
                            < self.keys@.len(),
                    count_roots(mid.table.parent@) + 1 == count_roots(pre.table.parent@),
                    count_roots(self.table.parent@) <= count_roots(mid.table.parent@),
                    count_roots(self.table.parent@) < count_roots(old(self).table.parent@),
                    forall|a: int, b: int|
                        0 <= a < self.keys@.len() && 0 <= b
                            < self.keys@.len() && mid.tokens_unioned(a, b) ==> self.tokens_unioned(
                            a,
                            b,
                        ),
                    mid.keys@ == pre.keys@,
                    self.closed_except(ps.union(prod_pairs(u_preds@, v_preds@, i as int, j as int))),
                    self.entailed(),
                    self.asserted@ == pre.asserted@,
                decreases v_preds@.len() - j,
            {
                proof {
                    let cur = ps.union(prod_pairs(u_preds@, v_preds@, i as int, j as int));
                    let nxt = ps.union(prod_pairs(u_preds@, v_preds@, i as int, j as int + 1));
                    let pair = ((u_preds@[i as int]) as int, (v_preds@[j as int]) as int);
                    assert forall|pr: (int, int)| cur.contains(pr) implies nxt.insert(
                        pair,
                    ).contains(pr) by {
                        if !ps.contains(pr) {
                            let (a, b) = choose|a: int, b: int|
                                0 <= a < u_preds@.len() && 0 <= b < v_preds@.len() && (a > i as int
                                    || (a == i as int && b >= j as int)) && pr == ((
                                #[trigger] u_preds@[a]) as int, (#[trigger] v_preds@[b]) as int);
                            if a == i as int && b == j as int {
                                assert(pr == pair);
                            } else {
                                assert(prod_pairs(u_preds@, v_preds@, i as int, j as int + 1)
                                    .contains(pr));
                            }
                        }
                    }
                    self.lemma_closed_except_subset(cur, nxt.insert(pair));
                }
                self.maybe_merge(
                    u_preds[i],
                    v_preds[j],
                    Ghost(ps.union(prod_pairs(u_preds@, v_preds@, i as int, j as int + 1))),
                );
                j += 1;
            }
            proof {
                let cur = ps.union(prod_pairs(u_preds@, v_preds@, i as int, v_preds@.len() as int));
                let nxt = ps.union(prod_pairs(u_preds@, v_preds@, i as int + 1, 0));
                assert forall|pr: (int, int)| cur.contains(pr) implies nxt.contains(pr) by {
                    if !ps.contains(pr) {
                        let (a, b) = choose|a: int, b: int|
                            0 <= a < u_preds@.len() && 0 <= b < v_preds@.len() && (a > i as int || (
                            a == i as int && b >= v_preds@.len())) && pr == ((
                            #[trigger] u_preds@[a]) as int, (#[trigger] v_preds@[b]) as int);
                        assert(a > i as int);
                        assert(prod_pairs(u_preds@, v_preds@, i as int + 1, 0).contains(pr));
                    }
                }
                self.lemma_closed_except_subset(cur, nxt);
            }
            i += 1;
        }
        proof {
            let cur = ps.union(prod_pairs(u_preds@, v_preds@, u_preds@.len() as int, 0));
            assert forall|x: int, y: int| self.violator(x, y) implies ps.contains((x, y))
                || ps.contains((y, x)) by {
                assert(cur.contains((x, y)) || cur.contains((y, x)));
                assert forall|pr: (int, int)|
                    prod_pairs(u_preds@, v_preds@, u_preds@.len() as int, 0).contains(
                    pr,
                ) implies false by {
                    let (a, b) = choose|a: int, b: int|
                        0 <= a < u_preds@.len() && 0 <= b < v_preds@.len() && (a
                            > u_preds@.len() as int || (a == u_preds@.len() as int && b >= 0)) && pr
                            == ((#[trigger] u_preds@[a]) as int, (#[trigger] v_preds@[b]) as int);
                }
            }
        }
    }

    /// Merge two candidate parents only when they are not yet equal, are
    /// shape-equal, and are positionally congruent.
    fn maybe_merge(&mut self, pu: usize, pv: usize, Ghost(ps): Ghost<Set<(int, int)>>)
        requires
            old(self).wf(),
            (pu as int) < old(self).keys@.len(),
            (pv as int) < old(self).keys@.len(),
            old(self).closed_except(ps.insert((pu as int, pv as int))),
            old(self).entailed(),
        ensures
            final(self).closed_except(ps),
            final(self).entailed(),
            final(self).asserted@ == old(self).asserted@,
            old(self).tokens_unioned(pu as int, pv as int) || !old(self).shallow_at(
                pu as int,
                pv as int,
            ) || !old(self).congruent_spec(pu as int, pv as int) ==> *final(self) == *old(self),
            final(self).wf(),
            final(self).keys@ == old(self).keys@,
            final(self).succs@ == old(self).succs@,
            forall|a: int, b: int|
                0 <= a < old(self).keys@.len() && 0 <= b < old(self).keys@.len() && old(self).tokens_unioned(a, b) ==> final(self).tokens_unioned(a, b),
            count_roots(final(self).table.parent@) <= count_roots(old(self).table.parent@),
        decreases count_roots(old(self).table.parent@), 1int,
    {
        let already = self.table.unioned(pu, pv);
        if already {
            proof {
                assert forall|x: int, y: int| self.violator(x, y) implies ps.contains((x, y))
                    || ps.contains((y, x)) by {
                    if (x, y) == (pu as int, pv as int) || (y, x) == (pu as int, pv as int) {
                        assert(self.table.same(x, y));
                    }
                }
            }
            return ;
        }
        let sh = self.shallow_eq_at(pu, pv);
        let cg = if sh {
            self.congruent(pu, pv)
        } else {
            false
        };
        if sh && cg {
            proof {
                assert forall|r: spec_fn(int, int) -> bool| #[trigger] self.respects(r) implies r(
                    pu as int,
                    pv as int,
                ) by {
                    assert forall|i: int| 0 <= i < self.succs@[pu as int]@.len() implies r(
                        (#[trigger] self.succs@[pu as int]@[i]) as int,
                        (self.succs@[pv as int]@[i]) as int,
                    ) by {
                        assert(self.table.same(
                            (self.succs@[pu as int]@[i]) as int,
                            (self.succs@[pv as int]@[i]) as int,
                        ));
                    }
                }
            }
            self.merge_tokens(pu, pv, Ghost(ps));
        } else {
            proof {
                assert forall|x: int, y: int| self.violator(x, y) implies ps.contains((x, y))
                    || ps.contains((y, x)) by {
                    if (x, y) == (pu as int, pv as int) {
                        if !sh {
                            assert(self.shallow_at(x, y));
                            assert(false);
                        } else {
                            assert(self.congruent_spec(x, y));
                            assert(false);
                        }
                    }
                    if (y, x) == (pu as int, pv as int) {
                        self.keys@[pu as int].lemma_shallow_sym(self.keys@[pv as int]);
                        self.lemma_congruent_sym(pu as int, pv as int);
                        if !sh {
                            assert(self.shallow_at(x, y));
                            assert(false);
                        } else {
                            assert(self.congruent_spec(x, y));
                            assert(false);
                        }
                    }
                }
            }
        }
    }

    /// Intern `key` and, recursively, its successors; then consider merging
    /// the new node with the existing predecessors of each successor's
    /// class. Interning an already-present key changes nothing.
    fn add_rec(&mut self, key: &K) -> (t: usize)
        requires
            old(self).wf(),
            old(self).congruence_closed(),
            old(self).entailed(),
        ensures
            final(self).congruence_closed(),
            final(self).entailed(),
            final(self).asserted@ == old(self).asserted@,
            final(self).wf(),
            seq_extends(final(self).keys@, old(self).keys@),
            (t as int) < final(self).keys@.len(),
            final(self).keys@[t as int] == *key,
            forall|a: int, b: int|
                0 <= a < old(self).keys@.len() && 0 <= b < old(self).keys@.len() && old(self).tokens_unioned(a, b) ==> final(self).tokens_unioned(a, b),
            old(self).interned(*key) ==> *final(self) == *old(self),
            !old(self).interned(*key) ==> (t as int) == final(self).keys@.len() - 1,
            forall|j: int|
                old(self).keys@.len() <= j < final(self).keys@.len() ==> (#[trigger] final(self).keys@[j]).depth() <= key.depth(),
            forall|j: int|
                old(self).keys@.len() <= j < final(self).keys@.len() ==> Self::subterm_of(
                    #[trigger] final(self).keys@[j],
                    *key,
                ),
            forall|s: K| #[trigger] Self::subterm_of(s, *key) ==> final(self).interned(s),
        decreases key.depth(),
    {
        let ghost pre = *self;
        match self.lookup(key) {
            Some(i) => {
                proof {
                    assert forall|s: K| #[trigger] Self::subterm_of(s, *key) implies self.interned(
                        s,
                    ) by {
                        self.lemma_interned_subterms(s, *key);
                    }
                }
                return i;
            },
            None => {},
        }
        let ss = key.successors();
        let mut toks: Vec<usize> = Vec::new();
        let mut idx: usize = 0;
        while idx < ss.len()
            invariant
                self.wf(),
                seq_extends(self.keys@, pre.keys@),
                ss@ == key.successors_spec(),
                idx <= ss@.len(),
                toks@.len() == idx as int,
                forall|j: int|
                    0 <= j < idx ==> ((#[trigger] toks@[j]) as int) < self.keys@.len()
                        && self.keys@[toks@[j] as int] == ss@[j],
                forall|a: int, b: int|
                    0 <= a < pre.keys@.len() && 0 <= b < pre.keys@.len() && pre.tokens_unioned(
                        a,
                        b,
                    ) ==> self.tokens_unioned(a, b),
                forall|j: int|
                    pre.keys@.len() <= j < self.keys@.len() ==> (#[trigger] self.keys@[j]).depth()
                        < key.depth(),
                !self.interned(*key),
                self.congruence_closed(),
                self.entailed(),
                self.asserted@ == pre.asserted@,
                forall|j: int|
                    pre.keys@.len() <= j < self.keys@.len() ==> Self::subterm_of(
                        #[trigger] self.keys@[j],
                        *key,
                    ),
                forall|s: K, j2: int|
                    0 <= j2 < idx && #[trigger] Self::subterm_of(s, ss@[j2]) ==> self.interned(s),
            decreases ss@.len() - idx,
        {
            proof {
                key.lemma_successors_depth();
            }
            let ghost before = *self;
            let tk = self.add_rec(&ss[idx]);
            proof {
                assert forall|j: int|
                    pre.keys@.len() <= j < self.keys@.len() implies (#[trigger] self.keys@[j]).depth()
                    < key.depth() by {
                    if j < before.keys@.len() {
                        assert(self.keys@[j] == before.keys@[j]);
                    } else {
                        assert(self.keys@[j].depth() <= ss@[idx as int].depth());
                    }
                }
                if self.interned(*key) {
                    let w = choose|i: int|
                        0 <= i < self.keys@.len() && #[trigger] self.keys@[i] == *key;
                    if w < before.keys@.len() {
                        assert(before.keys@[w] == self.keys@[w]);
                        assert(before.interned(*key));
                    } else {
                        assert(self.keys@[w].depth() < key.depth());
                    }
                    assert(false);
                }
                assert forall|j2: int|
                    pre.keys@.len() <= j2 < self.keys@.len() implies Self::subterm_of(
                    #[trigger] self.keys@[j2],
                    *key,
                ) by {
                    if j2 < before.keys@.len() {
                        assert(self.keys@[j2] == before.keys@[j2]);
                    } else {
                        assert(Self::subterm_of(self.keys@[j2], ss@[idx as int]));
                        assert(key.successors_spec()[idx as int] == ss@[idx as int]);
                    }
                }
                assert forall|s: K, j2: int|
                    0 <= j2 < idx + 1 && #[trigger] Self::subterm_of(s, ss@[j2]) implies self.interned(
                    s,
                ) by {
                    if j2 < idx {
                        assert(before.interned(s));
                        let w = choose|i: int|
                            0 <= i < before.keys@.len() && #[trigger] before.keys@[i] == s;
                        assert(self.keys@[w] == s);
                    }
                }
            }
            toks.push(tk);
            idx += 1;
        }
        let token = self.keys.len();
        let kc = key.clone_key();
        let ghost grown = *self;
        let ghost toks_view = toks@;
        self.keys.push(kc);
        self.succs.push(toks);
        let fresh = self.table.new_key();
        proof {
            assert(fresh == token);
            assert(self.keys@ == grown.keys@.push(*key));
            assert(self.succs@.len() == grown.succs@.len() + 1);
            assert(self.succs@[token as int]@ == toks_view);
            assert(forall|i: int| 0 <= i < grown.succs@.len() ==> self.succs@[i] == grown.succs@[i]);
            assert forall|i: int|
                0 <= i < self.keys@.len() implies (#[trigger] self.succs@[i])@.len()
                == self.keys@[i].successors_spec().len() by {
                if i < grown.keys@.len() {
                    assert(self.succs@[i] == grown.succs@[i]);
                    assert(self.keys@[i] == grown.keys@[i]);
                }
            }
            assert forall|i: int, j: int|
                0 <= i < self.keys@.len() && 0 <= j < self.succs@[i]@.len() implies ((
            #[trigger] self.succs@[i]@[j]) as int) < i by {
                if i < grown.keys@.len() {
                    assert(self.succs@[i] == grown.succs@[i]);
                }
            }
            assert forall|i: int, j: int|
                0 <= i < self.keys@.len() && 0 <= j < self.succs@[i]@.len() implies self.keys@[(
            #[trigger] self.succs@[i]@[j]) as int] == self.keys@[i].successors_spec()[j] by {
                if i < grown.keys@.len() {
                    assert(self.succs@[i] == grown.succs@[i]);
                    assert(grown.succs@[i]@[j] == self.succs@[i]@[j]);
                    assert((grown.succs@[i]@[j] as int) < i);
                    assert(self.keys@[grown.succs@[i]@[j] as int] == grown.keys@[grown.succs@[i]@[j]
                        as int]);
                } else {
                    assert(self.succs@[i]@ == toks_view);
                    assert((toks_view[j] as int) < grown.keys@.len());
                }
            }
            assert forall|i: int, j: int|
                0 <= i < j < self.keys@.len() implies #[trigger] self.keys@[i]
                != #[trigger] self.keys@[j] by {
                if j < grown.keys@.len() {
                    assert(self.keys@[i] == grown.keys@[i] && self.keys@[j] == grown.keys@[j]);
                } else {
                    assert(self.keys@[j] == *key);
                    if self.keys@[i] == *key {
                        assert(grown.keys@[i] == *key);
                        assert(grown.interned(*key));
                    }
                }
            }
            assert(self.wf());
            assert forall|a: int, b: int|
                0 <= a < pre.keys@.len() && 0 <= b < pre.keys@.len() && pre.tokens_unioned(
                a,
                b,
            ) implies self.tokens_unioned(a, b) by {
                assert(grown.tokens_unioned(a, b));
            }
            assert forall|x: int, y: int| self.violator(x, y) implies tok_pairs(
                token as int,
            ).contains((x, y)) || tok_pairs(token as int).contains((y, x)) by {
                if x != token as int && y != token as int {
                    assert(self.succs@[x] == grown.succs@[x]);
                    assert(self.succs@[y] == grown.succs@[y]);
                    assert(grown.congruent_spec(x, y)) by {
                        assert forall|i2: int|
                            0 <= i2 < grown.succs@[x]@.len() implies grown.table.same(
                            (#[trigger] grown.succs@[x]@[i2]) as int,
                            (grown.succs@[y]@[i2]) as int,
                        ) by {
                            assert(self.table.same(
                                (self.succs@[x]@[i2]) as int,
                                (self.succs@[y]@[i2]) as int,
                            ));
                        }
                    }
                    assert(!grown.table.same(x, y));
                    assert(grown.violator(x, y));
                    assert(false);
                }
            }
            assert(self.closed_except(tok_pairs(token as int)));
            Self::lemma_entailed_after_alloc(grown, *self, token);
        }
        let ghost mid = *self;
        let arity = self.succs[token].len();
        let mut j: usize = 0;
        while j < arity
            invariant
                self.wf(),
                self.keys@ == mid.keys@,
                self.succs@ == mid.succs@,
                (token as int) < self.keys@.len(),
                pre.keys@.len() <= self.keys@.len(),
                arity == self.succs@[token as int]@.len(),
                j <= arity,
                forall|a: int, b: int|
                    0 <= a < self.keys@.len() && 0 <= b < self.keys@.len() && mid.tokens_unioned(
                        a,
                        b,
                    ) ==> self.tokens_unioned(a, b),
                forall|a: int, b: int|
                    0 <= a < pre.keys@.len() && 0 <= b < pre.keys@.len() && pre.tokens_unioned(
                        a,
                        b,
                    ) ==> self.tokens_unioned(a, b),
                self.closed_except(tok_pairs(token as int)),
                j > 0 ==> self.congruence_closed(),
                self.entailed(),
                self.asserted@ == pre.asserted@,
            decreases arity - j,
        {
            let s = self.succs[token][j];
            let plist = self.all_preds(s);
            proof {
                let lp0 = list_pairs(token as int, plist@, 0);
                assert forall|x: int, y: int| self.violator(x, y) implies lp0.contains((x, y))
                    || lp0.contains((y, x)) by {
                    assert(tok_pairs(token as int).contains((x, y)) || tok_pairs(
                        token as int,
                    ).contains((y, x)));
                    if x == token as int {
                        let w = y;
                        assert(self.congruent_spec(token as int, w));
                        assert(self.table.same(
                            (self.succs@[token as int]@[j as int]) as int,
                            (self.succs@[w]@[j as int]) as int,
                        ));
                        assert(self.table.same((self.succs@[w]@[j as int]) as int, s as int));
                        assert(self.is_pred_of_class(w, s as int));
                        assert(exists|k: int|
                            0 <= k < plist@.len() && ((#[trigger] plist@[k]) as int) == w);
                        let kw = choose|k: int|
                            0 <= k < plist@.len() && ((#[trigger] plist@[k]) as int) == w;
                        assert(lp0.contains((token as int, w)));
                    } else {
                        let w = x;
                        assert(y == token as int);
                        assert(self.congruent_spec(w, token as int));
                        assert(self.table.same(
                            (self.succs@[w]@[j as int]) as int,
                            (self.succs@[token as int]@[j as int]) as int,
                        ));
                        assert(self.table.same((self.succs@[w]@[j as int]) as int, s as int));
                        assert(self.is_pred_of_class(w, s as int));
                        assert(exists|k: int|
                            0 <= k < plist@.len() && ((#[trigger] plist@[k]) as int) == w);
                        let kw = choose|k: int|
                            0 <= k < plist@.len() && ((#[trigger] plist@[k]) as int) == w;
                        assert(lp0.contains((token as int, w)));
                    }
                }
                assert(self.closed_except(lp0));
            }
            let mut m: usize = 0;
            while m < plist.len()
                invariant
                    self.wf(),
                    self.keys@ == mid.keys@,
                    self.succs@ == mid.succs@,
                    (token as int) < self.keys@.len(),
                    pre.keys@.len() <= self.keys@.len(),
                    m <= plist@.len(),
                    forall|k: int|
                        0 <= k < plist@.len() ==> ((#[trigger] plist@[k]) as int)
                            < self.keys@.len(),
                    forall|a: int, b: int|
                        0 <= a < self.keys@.len() && 0 <= b
                            < self.keys@.len() && mid.tokens_unioned(a, b) ==> self.tokens_unioned(
                            a,
                            b,
                        ),
                    forall|a: int, b: int|
                        0 <= a < pre.keys@.len() && 0 <= b
                            < pre.keys@.len() && pre.tokens_unioned(a, b) ==> self.tokens_unioned(
                            a,
                            b,
                        ),
                    self.closed_except(list_pairs(token as int, plist@, m as int)),
                    self.entailed(),
                    self.asserted@ == pre.asserted@,
                decreases plist@.len() - m,
            {
                proof {
                    let cur = list_pairs(token as int, plist@, m as int);
                    let nxt = list_pairs(token as int, plist@, m as int + 1);
                    let pair = (token as int, (plist@[m as int]) as int);
                    assert forall|pr: (int, int)| cur.contains(pr) implies nxt.insert(
                        pair,
                    ).contains(pr) by {
                        let k = choose|k: int|
                            m as int <= k < plist@.len() && pr == (
                            token as int,
                            (#[trigger] plist@[k]) as int,
                            );
                        if k == m as int {
                            assert(pr == pair);
                        } else {
                            assert(nxt.contains(pr));
                        }
                    }
                    self.lemma_closed_except_subset(cur, nxt.insert(pair));
                }
                self.maybe_merge(
                    token,
                    plist[m],
                    Ghost(list_pairs(token as int, plist@, m as int + 1)),
                );
                m += 1;
            }
            proof {
                assert forall|x: int, y: int| !(#[trigger] self.violator(x, y)) by {
                    if self.violator(x, y) {
                        let lp = list_pairs(token as int, plist@, plist@.len() as int);
                        assert(lp.contains((x, y)) || lp.contains((y, x)));
                        assert forall|pr: (int, int)| lp.contains(pr) implies false by {
                            let k = choose|k: int|
                                plist@.len() as int <= k < plist@.len() && pr == (
                                token as int,
                                (#[trigger] plist@[k]) as int,
                                );
                        }
                    }
                }
                assert(self.congruence_closed());
            }
            j += 1;
        }
        proof {
            if arity == 0 {
                assert forall|x: int, y: int| !(#[trigger] self.violator(x, y)) by {
                    if self.violator(x, y) {
                        assert(tok_pairs(token as int).contains((x, y)) || tok_pairs(
                            token as int,
                        ).contains((y, x)));
                        if y == token as int {
                            assert(self.succs@[x]@.len() == 0);
                            self.keys@[x].lemma_shallow_nullary(self.keys@[token as int]);
                            assert(self.keys@[x] == self.keys@[token as int]);
                            self.lemma_token_of_is(x, self.keys@[x]);
                            self.lemma_token_of_is(token as int, self.keys@[x]);
                            assert(x == token as int);
                            assert(false);
                        } else {
                            assert(x == token as int);
                            assert(self.succs@[y]@.len() == 0);
                            self.keys@[token as int].lemma_shallow_nullary(self.keys@[y]);
                            assert(self.keys@[y] == self.keys@[token as int]);
                            self.lemma_token_of_is(y, self.keys@[y]);
                            self.lemma_token_of_is(token as int, self.keys@[y]);
                            assert(y == token as int);
                            assert(false);
                        }
                    }
                }
            }
            assert(self.congruence_closed());
            assert forall|j2: int|
                pre.keys@.len() <= j2 < self.keys@.len() implies Self::subterm_of(
                #[trigger] self.keys@[j2],
                *key,
            ) by {
                if j2 < grown.keys@.len() {
                    assert(self.keys@[j2] == grown.keys@[j2]);
                } else {
                    assert(self.keys@[j2] == *key);
                }
            }
            assert forall|s: K| #[trigger] Self::subterm_of(s, *key) implies self.interned(s) by {
                if s == *key {
                    assert(self.keys@[token as int] == *key);
                } else {
                    let i2 = choose|i2: int|
                        0 <= i2 < key.successors_spec().len() && Self::subterm_of(
                            s,
                            #[trigger] key.successors_spec()[i2],
                        );
                    assert(Self::subterm_of(s, ss@[i2]));
                    assert(grown.interned(s));
                    let w = choose|i3: int|
                        0 <= i3 < grown.keys@.len() && #[trigger] grown.keys@[i3] == s;
                    assert(self.keys@[w] == s);
                }
            }
        }
        token
    }

    /// Intern a term, recursively interning its successors, and return its
    /// stable token. Only sub-terms of `key` are interned, each exactly
    /// once, the fresh sub-terms before `key` itself, which therefore
    /// takes the last new index. Re-adding a key returns the same token
    /// and leaves the engine untouched; no equation is ever dropped.
    pub fn add(&mut self, key: K) -> (t: Token)
        requires
            old(self).wf(),
            old(self).congruence_closed(),
            old(self).entailed(),
        ensures
            final(self).wf(),
            final(self).congruence_closed(),
            final(self).entailed(),
            final(self).asserted@ == old(self).asserted@,
            seq_extends(final(self).keys@, old(self).keys@),
            (t.index as int) < final(self).keys@.len(),
            final(self).keys@[t.index as int] == key,
            final(self).interned(key),
            t.index as int == final(self).token_of(key),
            old(self).interned(key) ==> *final(self) == *old(self),
            !old(self).interned(key) ==> t.index as int == final(self).keys@.len() - 1,
            forall|j: int|
                old(self).keys@.len() <= j < final(self).keys@.len() ==> Self::subterm_of(
                    #[trigger] final(self).keys@[j],
                    key,
                ) && !old(self).interned(final(self).keys@[j]),
            forall|s: K| #[trigger] Self::subterm_of(s, key) ==> final(self).interned(s),
            forall|a: int, b: int|
                0 <= a < old(self).keys@.len() && 0 <= b < old(self).keys@.len() && old(self).tokens_unioned(a, b) ==> final(self).tokens_unioned(a, b),
            forall|a: K, b: K| old(self).key_merged(a, b) ==> final(self).key_merged(a, b),
    {
        let i = self.add_rec(&key);
        proof {
            self.lemma_token_of_is(i as int, key);
            Self::lemma_key_merged_monotone(*old(self), *self);
            assert forall|j: int|
                old(self).keys@.len() <= j < self.keys@.len() implies !old(self).interned(
                #[trigger] self.keys@[j],
            ) by {
                if old(self).interned(self.keys@[j]) {
                    let w = choose|i2: int|
                        0 <= i2 < old(self).keys@.len() && #[trigger] old(self).keys@[i2]
                            == self.keys@[j];
                    assert(self.keys@[w] == self.keys@[j]);
                }
            }
        }
        Token::new(i)
    }

    /// Intern both terms, record the asserted equality, and declare the
    /// tokens equal; the induced congruences on parent terms are propagated
    /// before returning. Idempotent: if the two terms are already merged,
    /// the interner, the graph and the table are untouched.
    pub fn merge(&mut self, key1: K, key2: K)
        requires
            old(self).wf(),
            old(self).congruence_closed(),
            old(self).entailed(),
        ensures
            final(self).wf(),
            final(self).congruence_closed(),
            final(self).entailed(),
            final(self).asserted@ == old(self).asserted@.insert(
                (final(self).token_of(key1), final(self).token_of(key2)),
            ),
            seq_extends(final(self).keys@, old(self).keys@),
            final(self).key_merged(key1, key2),
            forall|j: int|
                old(self).keys@.len() <= j < final(self).keys@.len() ==> (Self::subterm_of(
                    #[trigger] final(self).keys@[j],
                    key1,
                ) || Self::subterm_of(final(self).keys@[j], key2)) && !old(self).interned(
                    final(self).keys@[j],
                ),
            forall|s: K|
                #![trigger Self::subterm_of(s, key1)]
                #![trigger Self::subterm_of(s, key2)]
                Self::subterm_of(s, key1) || Self::subterm_of(s, key2) ==> final(self).interned(s),
            forall|a: int, b: int|
                0 <= a < old(self).keys@.len() && 0 <= b < old(self).keys@.len() && old(self).tokens_unioned(a, b) ==> final(self).tokens_unioned(a, b),
            forall|a: K, b: K| old(self).key_merged(a, b) ==> final(self).key_merged(a, b),
            old(self).key_merged(key1, key2) ==> final(self).keys@ == old(self).keys@ && final(self).succs@ == old(self).succs@ && final(self).table == old(self).table,
    {
        let t1 = self.add_rec(&key1);
        let ghost s1 = *self;
        let t2 = self.add_rec(&key2);
        proof {
            assert(self.keys@[t1 as int] == key1);
            let pre_ins = *self;
            self.asserted@ = self.asserted@.insert((t1 as int, t2 as int));
            assert(self.entailed()) by {
                assert forall|r: spec_fn(int, int) -> bool| #[trigger] self.respects(
                    r,
                ) implies (forall|x: int, y: int|
                    0 <= x < self.keys@.len() && 0 <= y
                        < self.keys@.len() && #[trigger] self.table.same(x, y) ==> r(x, y)) by {
                    assert(pre_ins.respects(r)) by {
                        assert forall|x: int, y: int|
                            pre_ins.asserted@.contains((x, y)) implies #[trigger] r(x, y) by {
                            assert(self.asserted@.contains((x, y)));
                        }
                    }
                }
            }
            assert forall|r: spec_fn(int, int) -> bool| #[trigger] self.respects(r) implies r(
                t1 as int,
                t2 as int,
            ) by {
                assert(self.asserted@.contains((t1 as int, t2 as int)));
            }
            assert forall|x: int, y: int| !(#[trigger] self.violator(x, y)) by {
                assert(!pre_ins.violator(x, y));
            }
        }
        self.merge_tokens(t1, t2, Ghost(Set::empty()));
        proof {
            assert forall|x: int, y: int| !(#[trigger] self.violator(x, y)) by {
                if self.violator(x, y) {
                    assert(Set::<(int, int)>::empty().contains((x, y)) || Set::<(
                        int,
                        int,
                    )>::empty().contains((y, x)));
                }
            }
            self.lemma_token_of_is(t1 as int, key1);
            self.lemma_token_of_is(t2 as int, key2);
            Self::lemma_key_merged_monotone(*old(self), *self);
            if old(self).key_merged(key1, key2) {
                old(self).lemma_token_of_is(t1 as int, key1);
                old(self).lemma_token_of_is(t2 as int, key2);
            }
            assert forall|j: int|
                old(self).keys@.len() <= j < self.keys@.len() implies (Self::subterm_of(
                #[trigger] self.keys@[j],
                key1,
            ) || Self::subterm_of(self.keys@[j], key2)) && !old(self).interned(self.keys@[j]) by {
                if j < s1.keys@.len() {
                    assert(self.keys@[j] == s1.keys@[j]);
                }
                if old(self).interned(self.keys@[j]) {
                    let w = choose|i2: int|
                        0 <= i2 < old(self).keys@.len() && #[trigger] old(self).keys@[i2]
                            == self.keys@[j];
                    assert(self.keys@[w] == self.keys@[j]);
                }
            }
            assert forall|s: K|
                #![trigger Self::subterm_of(s, key1)]
                #![trigger Self::subterm_of(s, key2)]
                Self::subterm_of(s, key1) || Self::subterm_of(s, key2) implies self.interned(
                s,
            ) by {
                if Self::subterm_of(s, key1) {
                    assert(s1.interned(s));
                    Self::lemma_interned_extends(s1, *self, s);
                }
            }
        }
    }

    /// Intern both terms (their successors may already be equated even if
    /// the terms themselves were never added) and report whether they are
    /// in the same equivalence class after propagation.
    pub fn merged(&mut self, key1: K, key2: K) -> (r: bool)
        requires
            old(self).wf(),
            old(self).congruence_closed(),
            old(self).entailed(),
        ensures
            final(self).wf(),
            final(self).congruence_closed(),
            final(self).entailed(),
            final(self).asserted@ == old(self).asserted@,
            seq_extends(final(self).keys@, old(self).keys@),
            r == final(self).key_merged(key1, key2),
            final(self).interned(key1),
            final(self).interned(key2),
            forall|j: int|
                old(self).keys@.len() <= j < final(self).keys@.len() ==> (Self::subterm_of(
                    #[trigger] final(self).keys@[j],
                    key1,
                ) || Self::subterm_of(final(self).keys@[j], key2)) && !old(self).interned(
                    final(self).keys@[j],
                ),
            forall|s: K|
                #![trigger Self::subterm_of(s, key1)]
                #![trigger Self::subterm_of(s, key2)]
                Self::subterm_of(s, key1) || Self::subterm_of(s, key2) ==> final(self).interned(s),
            forall|a: int, b: int|
                0 <= a < old(self).keys@.len() && 0 <= b < old(self).keys@.len() && old(self).tokens_unioned(a, b) ==> final(self).tokens_unioned(a, b),
            forall|a: K, b: K| old(self).key_merged(a, b) ==> final(self).key_merged(a, b),
            old(self).interned(key1) && old(self).interned(key2) ==> *final(self) == *old(self),
            key1 == key2 ==> r,
    {
        let t1 = self.add_rec(&key1);
        let ghost s1 = *self;
        let t2 = self.add_rec(&key2);
        proof {
            assert(self.keys@[t1 as int] == key1);
            self.lemma_token_of_is(t1 as int, key1);
            self.lemma_token_of_is(t2 as int, key2);
            Self::lemma_key_merged_monotone(*old(self), *self);
            if key1 == key2 {
                self.lemma_token_of_is(t1 as int, key2);
            }
            assert forall|j: int|
                old(self).keys@.len() <= j < self.keys@.len() implies (Self::subterm_of(
                #[trigger] self.keys@[j],
                key1,
            ) || Self::subterm_of(self.keys@[j], key2)) && !old(self).interned(self.keys@[j]) by {
                if j < s1.keys@.len() {
                    assert(self.keys@[j] == s1.keys@[j]);
                }
                if old(self).interned(self.keys@[j]) {
                    let w = choose|i2: int|
                        0 <= i2 < old(self).keys@.len() && #[trigger] old(self).keys@[i2]
                            == self.keys@[j];
                    assert(self.keys@[w] == self.keys@[j]);
                }
            }
            assert forall|s: K|
                #![trigger Self::subterm_of(s, key1)]
                #![trigger Self::subterm_of(s, key2)]
                Self::subterm_of(s, key1) || Self::subterm_of(s, key2) implies self.interned(
                s,
            ) by {
                if Self::subterm_of(s, key1) {
                    assert(s1.interned(s));
                    Self::lemma_interned_extends(s1, *self, s);
                }
            }
        }
        let r = self.table.unioned(t1, t2);
        r
    }
}

} // verus!
