use vstd::prelude::*;
use crate::uf::Unionfind;

verus! {

/// The index of an e-class in a [`crate::uf::Unionfind`].
#[derive(PartialEq, Eq, Clone, Copy, Hash, Debug)]
pub struct Id(pub usize);

/// The result of canonicalizing an e-node: either a (canonical) e-node, or an
/// existing e-class that the e-node is already known to be equal to.
#[derive(PartialEq, Eq, Debug, Clone)]
pub enum Either<L, R> {
    L(L),
    R(R),
}

/// Elements `g` that act on e-classes, written `g*x`.
///
/// Composition is left-multiplication: `compose(g1, g2)*x == g1*(g2*x)`.
/// The spec functions `op`, `inv` and `unit` say, on views, what the
/// executable operations compute.
pub trait Group: View + Sized {
    spec fn op(l: Self::V, r: Self::V) -> Self::V;

    spec fn inv(g: Self::V) -> Self::V;

    spec fn unit() -> Self::V;

    fn compose(l: &Self, r: &Self) -> (res: Self)
        ensures
            res@ == Self::op(l@, r@),
    ;

    fn inverse(&self) -> (res: Self)
        ensures
            res@ == Self::inv(self@),
    ;

    fn identity() -> (res: Self)
        ensures
            res@ == Self::unit(),
    ;

    /// A copy of `self`, with the same view.
    fn duplicate(&self) -> (res: Self)
        ensures
            res@ == self@,
    ;

    /// Whether `self` is the unit.
    fn is_unit(&self) -> (res: bool)
        ensures
            res == (self@ == Self::unit()),
    ;
}

/// The group laws, for the groups that obey them.
pub trait GroupLaws: Group {
    proof fn lemma_assoc(a: Self::V, b: Self::V, c: Self::V)
        ensures
            Self::op(Self::op(a, b), c) == Self::op(a, Self::op(b, c)),
    ;

    proof fn lemma_unit(a: Self::V)
        ensures
            Self::op(Self::unit(), a) == a,
            Self::op(a, Self::unit()) == a,
    ;

    proof fn lemma_inverse(a: Self::V)
        ensures
            Self::op(Self::inv(a), a) == Self::unit(),
            Self::op(a, Self::inv(a)) == Self::unit(),
    ;

    proof fn lemma_inv_inv(a: Self::V)
        ensures
            Self::inv(Self::inv(a)) == a,
    ;

    proof fn lemma_inv_op(a: Self::V, b: Self::V)
        ensures
            Self::inv(Self::op(a, b)) == Self::op(Self::inv(b), Self::inv(a)),
    ;
}

/// Per-e-class data, on which the group acts.
///
/// The self-edges `g` of an e-class (those with `g*x == x`) form a subgroup;
/// the data records it. `merge` and `insert_self_edge` may refuse some inputs
/// (for a constant, two different values): `mergeable` and `edge_insertable`
/// say which inputs they accept.
pub trait Semilattice: Sized {
    type G: Group;

    spec fn acted(g: <Self::G as View>::V, s: Self) -> Self;

    spec fn join(self, other: Self) -> Self;

    spec fn mergeable(self, other: Self) -> bool;

    spec fn stabilizes(self, g: <Self::G as View>::V) -> bool;

    spec fn with_self_edge(self, g: <Self::G as View>::V) -> Self;

    spec fn edge_insertable(self, g: <Self::G as View>::V) -> bool;

    /// How far `self` has been refined: joins and new self-edges raise it,
    /// and it is bounded, so refinement ends.
    spec fn height(self) -> nat;

    spec fn max_height() -> nat;

    proof fn lemma_height_bound(s: Self)
        ensures
            s.height() <= Self::max_height(),
    ;

    proof fn lemma_join_height(s: Self, o: Self)
        requires
            s.mergeable(o),
        ensures
            s.join(o).height() >= s.height(),
            s.join(o) != s ==> s.join(o).height() > s.height(),
    ;

    proof fn lemma_insert_height(s: Self, g: <Self::G as View>::V)
        requires
            s.edge_insertable(g),
            !s.stabilizes(g),
        ensures
            s.with_self_edge(g).height() > s.height(),
    ;

    fn act(g: &Self::G, s: &Self) -> (res: Self)
        ensures
            res == Self::acted(g@, *s),
    ;

    /// Joins `other` into `self`; returns whether `self` changed.
    fn merge(&mut self, other: Self) -> (changed: bool)
        requires
            old(self).mergeable(other),
        ensures
            *final(self) == old(self).join(other),
            changed == (*final(self) != *old(self)),
    ;

    fn insert_self_edge(&mut self, g: Self::G)
        requires
            old(self).edge_insertable(g@),
        ensures
            *final(self) == old(self).with_self_edge(g@),
    ;

    fn contains_self_edge(&self, g: &Self::G) -> (res: bool)
        ensures
            res == self.stabilizes(g@),
    ;

    fn can_merge(&self, other: &Self) -> (res: bool)
        ensures
            res == self.mergeable(*other),
    ;

    fn can_insert_self_edge(&self, g: &Self::G) -> (res: bool)
        ensures
            res == self.edge_insertable(g@),
    ;

    /// An exact copy of `self`.
    fn duplicate(&self) -> (res: Self)
        ensures
            res == *self,
    ;
}

/// Laws about self-edges, for the data types that obey them.
pub trait SemilatticeLaws: Semilattice {
    /// The unit is a self-edge of every e-class.
    proof fn lemma_unit_stabilizes(s: Self)
        ensures
            s.stabilizes(<Self::G as Group>::unit()),
    ;

    /// An inserted self-edge is then contained.
    proof fn lemma_inserted_edge(s: Self, g: <Self::G as View>::V)
        requires
            s.edge_insertable(g),
        ensures
            s.with_self_edge(g).stabilizes(g),
    ;

    /// Self-edges are closed under inversion.
    proof fn lemma_stabilizes_inv(s: Self, h: <Self::G as View>::V)
        requires
            s.stabilizes(h),
        ensures
            s.stabilizes(<Self::G as Group>::inv(h)),
    ;

    /// Self-edges are closed under composition.
    proof fn lemma_stabilizes_op(s: Self, h1: <Self::G as View>::V, h2: <Self::G as View>::V)
        requires
            s.stabilizes(h1),
            s.stabilizes(h2),
        ensures
            s.stabilizes(<Self::G as Group>::op(h1, h2)),
    ;

    /// A join keeps the self-edges of both sides.
    proof fn lemma_join_keeps(s: Self, o: Self, h: <Self::G as View>::V)
        requires
            s.mergeable(o),
            s.stabilizes(h) || o.stabilizes(h),
        ensures
            s.join(o).stabilizes(h),
    ;

    /// Inserting a self-edge keeps the others.
    proof fn lemma_edge_keeps(s: Self, g: <Self::G as View>::V, h: <Self::G as View>::V)
        requires
            s.edge_insertable(g),
            s.stabilizes(h),
        ensures
            s.with_self_edge(g).stabilizes(h),
    ;

    /// If `h*x == x` then `(g*h*g⁻¹)*(g*x) == g*x`.
    proof fn lemma_acted_stabilizes(s: Self, g: <Self::G as View>::V, h: <Self::G as View>::V)
        requires
            s.stabilizes(h),
        ensures
            Self::acted(g, s).stabilizes(
                <Self::G as Group>::op(<Self::G as Group>::op(g, h), <Self::G as Group>::inv(g)),
            ),
    ;
}

/// A language of e-nodes together with its analysis: how an e-node is put
/// into canonical form, and which data it gives to its e-class.
pub trait Analysis: Sized {
    type G: Group;

    type S: Semilattice<G = Self::G>;

    type L;

    /// What `canon` returns: `(g, m)` with `n == g*m`, where `m` is either a
    /// canonical e-node or an e-class that `n` is already known to equal.
    spec fn canon_spec(n: Self::L, uf: Unionfind<Self::S>) -> (
        <Self::G as View>::V,
        Either<Self::L, Id>,
    );

    /// What `mk` returns: the data that e-node `n` gives its e-class.
    spec fn mk_spec(n: Self::L, id: Id, uf: Unionfind<Self::S>) -> Self::S;

    /// Whether two e-nodes are the same, children included.
    spec fn same(a: Self::L, b: Self::L) -> bool;

    /// The children of `n`, in order.
    spec fn kids_of(n: Self::L) -> Seq<(Self::G, Id)>;

    /// `n` with the children `k` in place of its own.
    spec fn replace_kids(n: Self::L, k: Seq<(Self::G, Id)>) -> Self::L;

    /// Every child of `n` is an e-class below `len`.
    spec fn children_below(n: Self::L, len: nat) -> bool;

    /// Whether `a` and `b` are the same e-node once their children are left
    /// out.
    spec fn same_shape(a: Self::L, b: Self::L) -> bool;

    proof fn lemma_children_below(n: Self::L, len: nat)
        ensures
            Self::children_below(n, len) <==> forall|i: int|
                0 <= i < Self::kids_of(n).len() ==> (#[trigger] Self::kids_of(n)[i]).1.0 < len,
    ;

    /// Replacing the children replaces them and nothing else of what is seen
    /// of them.
    /// `same` is reflexive.
    proof fn lemma_same_refl(n: Self::L)
        ensures
            Self::same(n, n),
    ;

    /// `canon` looks only at the e-classes below the children of `n`: a
    /// union-find that keeps them as they are gives the same canonical form.
    proof fn lemma_canon_stable(n: Self::L, old: Unionfind<Self::S>, new: Unionfind<Self::S>)
        requires
            old.wf(),
            new.wf(),
            Self::children_below(n, old.len()),
            old.len() <= new.len(),
            forall|i: nat|
                i < old.len() ==> new.parent(i) == old.parent(i) && new.edge(i) == old.edge(i)
                    && new.data(i) == old.data(i),
        ensures
            Self::canon_spec(n, new) == Self::canon_spec(n, old),
    ;

    proof fn lemma_replace_kids(n: Self::L, k: Seq<(Self::G, Id)>)
        requires
            k.len() == Self::kids_of(n).len(),
        ensures
            Self::kids_of(Self::replace_kids(n, k)) == k,
    ;

    fn canon(n: &Self::L, uf: &Unionfind<Self::S>) -> (res: (Self::G, Either<Self::L, Id>))
        requires
            uf.wf(),
            Self::children_below(*n, uf.len()),
        ensures
            res.0@ == Self::canon_spec(*n, *uf).0,
            res.1 == Self::canon_spec(*n, *uf).1,
            match res.1 {
                Either::L(m) => Self::children_below(m, uf.len()) && forall|i: int|
                    0 <= i < Self::kids_of(m).len() ==> uf.is_root(
                        (#[trigger] Self::kids_of(m)[i]).1.0 as nat,
                    ),
                Either::R(x) => x.0 < uf.len(),
            },
    ;

    fn mk(n: &Self::L, id: Id, uf: &Unionfind<Self::S>) -> (res: Self::S)
        requires
            uf.wf(),
            Self::children_below(*n, uf.len()),
        ensures
            res == Self::mk_spec(*n, id, *uf),
    ;

    fn node_eq(a: &Self::L, b: &Self::L) -> (res: bool)
        ensures
            res == Self::same(*a, *b),
    ;

    /// Whether `a` and `b` are the same e-node once their children are left
    /// out.
    fn nodes_match(a: &Self::L, b: &Self::L) -> (res: bool)
        ensures
            res == Self::same_shape(*a, *b),
    ;

    /// An exact copy of `n`.
    fn dup_node(n: &Self::L) -> (res: Self::L)
        ensures
            res == *n,
    ;

    /// The children of `n`, in order.
    fn children(n: &Self::L) -> (res: Vec<(Self::G, Id)>)
        ensures
            res@ == Self::kids_of(*n),
    ;

    /// `n` with the children `k` in place of its own.
    fn set_children(n: &Self::L, k: Vec<(Self::G, Id)>) -> (res: Self::L)
        requires
            k@.len() == Self::kids_of(*n).len(),
        ensures
            res == Self::replace_kids(*n, k@),
    ;
}

} // verus!
