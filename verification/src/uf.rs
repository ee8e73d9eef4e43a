use vstd::prelude::*;
use crate::api::{Group, GroupLaws, Id, Semilattice, SemilatticeLaws};

verus! {

/// One entry of a union-find: the data `s` of the e-class, and its leader
/// edge: this e-class equals `leader.0 * leader.1`.
pub struct UFClass<S: Semilattice> {
    pub s: S,
    pub leader: (S::G, Id),
}

/// A union-find whose edges carry group elements: each e-class `x` is known to
/// equal `g*p` for its leader `p`. A root is its own leader.
///
/// `rank` (ghost) strictly increases along leader edges, which bounds the
/// length of every leader chain by `max_rank`.
pub struct Unionfind<S: Semilattice> {
    v: Vec<UFClass<S>>,
    rank: Ghost<Seq<nat>>,
    max_rank: Ghost<nat>,
}

impl<S: Semilattice> Unionfind<S> {
    /// The number of e-classes.
    pub closed spec fn len(&self) -> nat {
        self.v@.len()
    }

    /// The leader of e-class `i`.
    pub closed spec fn parent(&self, i: nat) -> nat {
        self.v@[i as int].leader.1.0 as nat
    }

    /// The group element on the leader edge of `i`: `i == edge(i) * parent(i)`.
    pub closed spec fn edge(&self, i: nat) -> <S::G as View>::V {
        self.v@[i as int].leader.0@
    }

    /// The data stored at `i` (meaningful at roots).
    pub closed spec fn data(&self, i: nat) -> S {
        self.v@[i as int].s
    }

    pub open spec fn is_root(&self, i: nat) -> bool {
        self.parent(i) == i
    }

    /// Well-formedness: leaders are in range and ranks grow along leader edges.
    pub closed spec fn wf(&self) -> bool {
        &&& self.rank@.len() == self.v@.len()
        &&& forall|i: int|
            0 <= i < self.v@.len() ==> (#[trigger] self.v@[i]).leader.1.0 < self.v@.len()
        &&& forall|i: int|
            0 <= i < self.v@.len() ==> #[trigger] self.rank@[i] <= self.max_rank@
        &&& forall|i: int|
            0 <= i < self.v@.len() && (#[trigger] self.v@[i]).leader.1.0 != i ==> self.rank@[i]
                < self.rank@[self.v@[i].leader.1.0 as int]
    }

    /// How many more leader edges can follow `x` at most.
    pub closed spec fn chain_measure(&self, x: nat) -> int {
        self.max_rank@ - self.rank@[x as int]
    }

    /// Following leader edges from `g*x`: the root `r` and the accumulated
    /// group element `g'` with `g*x == g'*r`.
    pub closed spec fn find_from(&self, g: <S::G as View>::V, x: nat) -> (<S::G as View>::V, Id)
        decreases self.chain_measure(x),
    {
        if self.wf() && x < self.len() && self.parent(x) != x {
            proof {
                let _ = self.v@[x as int];
            }
            self.find_from(S::G::op(g, self.edge(x)), self.parent(x))
        } else {
            (g, Id(x as usize))
        }
    }

    /// The share of e-class `i` in the potential: what its data can still
    /// rise, and one more while it is a root.
    pub open spec fn term(&self, i: nat) -> nat {
        (S::max_height() + 1 - self.data(i).height()) as nat + if self.is_root(i) { 1nat } else { 0nat }
    }

    /// The potential: it falls with every union or refinement that changes
    /// something, which bounds how long `EGraph::rebuild` runs.
    pub open spec fn potential(&self) -> nat {
        sum_upto(self.terms(), self.len())
    }

    pub open spec fn terms(&self) -> spec_fn(nat) -> nat {
        |i: nat| self.term(i)
    }

    /// The root of `x`.
    pub open spec fn root(&self, x: nat) -> nat {
        self.find_from(S::G::unit(), x).1.0 as nat
    }

    /// Whether `x1` and `x2` are in the same e-class.
    pub open spec fn same_class(&self, x1: nat, x2: nat) -> bool {
        self.root(x1) == self.root(x2)
    }

    /// The group element between `g1*x1` and `g2*x2`, seen from their roots.
    pub open spec fn g_between(&self, x1: (S::G, Id), x2: (S::G, Id)) -> <S::G as View>::V {
        S::G::op(
            S::G::inv(self.find_from(x1.0@, x1.1.0 as nat).0),
            self.find_from(x2.0@, x2.1.0 as nat).0,
        )
    }

    /// Whether `g1*x1 == g2*x2` is known: they reach the same root, and the
    /// element between them is a self-edge of that root.
    pub open spec fn equal(&self, x1: (S::G, Id), x2: (S::G, Id)) -> bool {
        &&& self.find_from(x1.0@, x1.1.0 as nat).1 == self.find_from(x2.0@, x2.1.0 as nat).1
        &&& self.data(self.find_from(x1.0@, x1.1.0 as nat).1.0 as nat).stabilizes(
            self.g_between(x1, x2),
        )
    }

    /// What `makeset(s)` does, from `old` to `new`, returning `res`: a new
    /// root with data `s`, and nothing else changed.
    pub open spec fn makeset_post(old: Self, new: Self, s: S, res: Id) -> bool {
        &&& res.0 == old.len()
        &&& new.len() == old.len() + 1
        &&& new.is_root(res.0 as nat)
        &&& new.edge(res.0 as nat) == S::G::unit()
        &&& new.data(res.0 as nat) == s
        &&& forall|i: nat|
            i < old.len() ==> new.parent(i) == old.parent(i) && new.edge(i) == old.edge(i)
                && new.data(i) == old.data(i)
    }

    /// What `merge_s(gx, s)` does, from `old` to `new`, returning `changed`.
    pub open spec fn merge_post(old: Self, new: Self, gx: (S::G, Id), s: S, changed: bool) -> bool {
        let x = gx.1.0 as nat;
        &&& new.len() == old.len()
        &&& new.data(x) == old.data(x).join(S::acted(S::G::inv(gx.0@), s))
        &&& changed == (new.data(x) != old.data(x))
        &&& forall|i: nat|
            i < old.len() ==> new.parent(i) == old.parent(i) && new.edge(i) == old.edge(i)
        &&& forall|i: nat| i < old.len() && i != x ==> new.data(i) == old.data(i)
    }

    /// What `union` accepts: the data of the two roots can be merged, or,
    /// in one e-class, the new self-edge can be inserted.
    pub open spec fn union_ok(&self, x1: (S::G, Id), x2: (S::G, Id)) -> bool {
        self.union_ok_v(x1.0@, x1.1, x2.0@, x2.1)
    }

    /// `union_ok`, on the views of the group elements.
    pub open spec fn union_ok_v(&self, h1: <S::G as View>::V, y1: Id, h2: <S::G as View>::V, y2: Id) -> bool {
        let (g1, r1) = self.find_from(h1, y1.0 as nat);
        let (g2, r2) = self.find_from(h2, y2.0 as nat);
        let gg = S::G::op(S::G::inv(g1), g2);
        if r1 == r2 {
            !self.data(r1.0 as nat).stabilizes(gg) ==> self.data(r1.0 as nat).edge_insertable(gg)
        } else {
            self.data(r2.0 as nat).mergeable(S::acted(S::G::inv(gg), self.data(r1.0 as nat)))
        }
    }

    pub proof fn lemma_find_from_in_range(&self, g: <S::G as View>::V, x: nat)
        requires
            self.wf(),
            x < self.len(),
        ensures
            self.find_from(g, x).1.0 < self.len(),
            self.is_root(self.find_from(g, x).1.0 as nat),
            self.find_from(g, x).1.0 as nat == self.root(x),
        decreases self.chain_measure(x),
    {
        let _ = self.v@[x as int];
        if self.parent(x) != x {
            self.lemma_find_from_in_range(S::G::op(g, self.edge(x)), self.parent(x));
            self.lemma_find_from_in_range(S::G::op(S::G::unit(), self.edge(x)), self.parent(x));
        }
    }

    /// A root is found at once.
    pub proof fn lemma_find_root(&self, g: <S::G as View>::V, x: nat)
        requires
            self.wf(),
            x < self.len(),
            self.is_root(x),
        ensures
            self.find_from(g, x) == (g, Id(x as usize)),
    {
    }

    pub fn new() -> (res: Self)
        ensures
            res.wf(),
            res.len() == 0,
    {
        Unionfind { v: Vec::new(), rank: Ghost(Seq::empty()), max_rank: Ghost(0) }
    }

    /// The id that the next `makeset` will return.
    pub fn next_id(&self) -> (res: Id)
        ensures
            res.0 == self.len(),
    {
        Id(self.v.len())
    }

    /// Adds a new e-class with data `s`; it is its own root.
    pub fn makeset(&mut self, s: S) -> (res: Id)
        requires
            old(self).wf(),
        ensures
            final(self).wf(),
            Self::makeset_post(*old(self), *final(self), s, res),
    {
        let i = self.next_id();
        self.v.push(UFClass { s, leader: (S::G::identity(), i) });
        self.rank = Ghost(self.rank@.push(0));
        proof {
            assert forall|j: int| 0 <= j < self.v@.len() implies (#[trigger] self.v@[j]).leader.1.0
                < self.v@.len() by {
                if j < old(self).v@.len() {
                    assert(old(self).v@[j] == self.v@[j]);
                }
            }
            assert forall|j: int|
                0 <= j < self.v@.len() && (#[trigger] self.v@[j]).leader.1.0 != j implies self.rank@[j]
                < self.rank@[self.v@[j].leader.1.0 as int] by {
                assert(old(self).v@[j] == self.v@[j]);
            }
            assert forall|j: int| 0 <= j < self.v@.len() implies #[trigger] self.rank@[j]
                <= self.max_rank@ by {
                if j < old(self).v@.len() {
                    assert(old(self).rank@[j] == self.rank@[j]);
                }
            }
        }
        i
    }

    /// Finds the root of `x`, with the group element accumulated from `x`'s own
    /// leader edge.
    pub fn find1(&self, x: Id) -> (res: (S::G, Id))
        requires
            self.wf(),
            x.0 < self.len(),
        ensures
            res.0@ == self.find_from(self.edge(x.0 as nat), self.parent(x.0 as nat)).0,
            res.1 == self.find_from(self.edge(x.0 as nat), self.parent(x.0 as nat)).1,
    {
        let (g, y) = &self.v[x.0].leader;
        self.find((g.duplicate(), *y))
    }

    /// Follows leader edges from `g*x` to the root `r`; returns `(g', r)` with
    /// `g*x == g'*r`.
    pub fn find(&self, gx: (S::G, Id)) -> (res: (S::G, Id))
        requires
            self.wf(),
            gx.1.0 < self.len(),
        ensures
            res.0@ == self.find_from(gx.0@, gx.1.0 as nat).0,
            res.1 == self.find_from(gx.0@, gx.1.0 as nat).1,
            res.1.0 < self.len(),
            self.is_root(res.1.0 as nat),
    {
        let (mut g, mut x) = gx;
        proof {
            self.lemma_find_from_in_range(gx.0@, gx.1.0 as nat);
        }
        loop
            invariant
                self.wf(),
                x.0 < self.len(),
                self.find_from(g@, x.0 as nat) == self.find_from(gx.0@, gx.1.0 as nat),
            decreases self.max_rank@ - self.rank@[x.0 as int],
        {
            let (g2, x2) = &self.v[x.0].leader;
            if x2.0 == x.0 {
                return (g, x);
            }
            g = S::G::compose(&g, g2);
            x = *x2;
        }
    }

    /// Joins `s`, seen from `g*x`, into the data of `x`: the data of `x`
    /// becomes `join(data(x), g⁻¹*s)`. Returns whether it changed.
    pub fn merge_s(&mut self, gx: (S::G, Id), s: S) -> (changed: bool)
        requires
            old(self).wf(),
            gx.1.0 < old(self).len(),
            old(self).data(gx.1.0 as nat).mergeable(S::acted(S::G::inv(gx.0@), s)),
        ensures
            final(self).wf(),
            Self::merge_post(*old(self), *final(self), gx, s, changed),
    {
        let (g, x) = gx;
        let s = S::act(&g.inverse(), &s);
        let ghost old_v = self.v@;
        let changed = self.v[x.0].s.merge(s);
        proof {
            assert(self.v@ == old_v.update(x.0 as int, self.v@[x.0 as int]));
            self.lemma_same_shape(old_v);
        }
        changed
    }

    /// If only the data of entries changed, well-formedness and all paths
    /// stay the same.
    proof fn lemma_same_shape(&self, old_v: Seq<UFClass<S>>)
        requires
            old_v.len() == self.v@.len(),
            forall|i: int| 0 <= i < old_v.len() ==> (#[trigger] old_v[i]).leader == self.v@[i].leader,
            self.rank@.len() == old_v.len(),
            forall|i: int| 0 <= i < old_v.len() ==> (#[trigger] old_v[i]).leader.1.0 < old_v.len(),
            forall|i: int| 0 <= i < old_v.len() ==> #[trigger] self.rank@[i] <= self.max_rank@,
            forall|i: int|
                0 <= i < old_v.len() && (#[trigger] old_v[i]).leader.1.0 != i ==> self.rank@[i]
                    < self.rank@[old_v[i].leader.1.0 as int],
        ensures
            self.wf(),
    {
        assert forall|i: int| 0 <= i < self.v@.len() implies (#[trigger] self.v@[i]).leader.1.0
            < self.v@.len() by {
            assert(old_v[i].leader == self.v@[i].leader);
        }
        assert forall|i: int|
            0 <= i < self.v@.len() && (#[trigger] self.v@[i]).leader.1.0 != i implies self.rank@[i]
            < self.rank@[self.v@[i].leader.1.0 as int] by {
            assert(old_v[i].leader == self.v@[i].leader);
        }
    }

    /// What `union(x1, x2)` does, from `old` to `new`, returning `changed`.
    pub open spec fn union_post(old: Self, new: Self, x1: (S::G, Id), x2: (S::G, Id), changed: bool) -> bool {
        let (g1, r1) = old.find_from(x1.0@, x1.1.0 as nat);
        let (g2, r2) = old.find_from(x2.0@, x2.1.0 as nat);
        let gg = S::G::op(S::G::inv(g1), g2);
        let r1 = r1.0 as nat;
        let r2 = r2.0 as nat;
        if r1 == r2 {
            &&& changed == !old.data(r1).stabilizes(gg)
            &&& new.data(r1) == (if changed {
                old.data(r1).with_self_edge(gg)
            } else {
                old.data(r1)
            })
            &&& forall|i: nat|
                i < old.len() ==> new.parent(i) == old.parent(i)
                    && new.edge(i) == old.edge(i)
            &&& forall|i: nat|
                i < old.len() && i != r1 ==> new.data(i) == old.data(i)
        } else {
            &&& changed
            &&& new.parent(r1) == r2
            &&& new.edge(r1) == gg
            &&& new.data(r2) == old.data(r2).join(
                S::acted(S::G::inv(gg), old.data(r1)),
            )
            &&& forall|i: nat|
                i < old.len() && i != r1 ==> new.parent(i) == old.parent(i)
                    && new.edge(i) == old.edge(i)
            &&& forall|i: nat|
                i < old.len() && i != r2 ==> new.data(i) == old.data(i)
        }
    }

    /// Records `x1 == x2`. Returns whether anything changed.
    ///
    /// With `g1*r1` and `g2*r2` the roots of `x1` and `x2`, and
    /// `gg = g1⁻¹*g2` (so `r1 == gg*r2`): in one e-class, `gg` becomes a
    /// self-edge of the root unless it already is one; otherwise `r1` gets
    /// the leader edge `(gg, r2)` and its data, moved by `gg⁻¹`, is joined into
    /// the data of `r2`.
    pub fn union(&mut self, x1: (S::G, Id), x2: (S::G, Id)) -> (changed: bool)
        requires
            old(self).wf(),
            x1.1.0 < old(self).len(),
            x2.1.0 < old(self).len(),
            old(self).union_ok(x1, x2),
        ensures
            final(self).wf(),
            final(self).len() == old(self).len(),
            Self::union_post(*old(self), *final(self), x1, x2, changed),
    {
        let (g1, r1) = self.find(x1);
        let (g2, r2) = self.find(x2);
        let gg = S::G::compose(&g1.inverse(), &g2);
        if r1.0 == r2.0 {
            if !self.v[r1.0].s.contains_self_edge(&gg) {
                let ghost old_v = self.v@;
                self.v[r1.0].s.insert_self_edge(gg);
                proof {
                    self.lemma_same_shape(old_v);
                }
                true
            } else {
                false
            }
        } else {
            let ghost old_v = self.v@;
            let ghost old_rank = self.rank@;
            let acted = S::act(&gg.inverse(), &self.v[r1.0].s);
            self.v[r2.0].s.merge(acted);
            self.v[r1.0].leader = (gg, r2);
            proof {
                let nr = if old_rank[r2.0 as int] > old_rank[r1.0 as int] + 1 {
                    old_rank[r2.0 as int]
                } else {
                    old_rank[r1.0 as int] + 1
                };
                self.rank@ = old_rank.update(r2.0 as int, nr);
                if self.max_rank@ < nr {
                    self.max_rank@ = nr;
                }
                assert forall|i: int| 0 <= i < self.v@.len() implies (#[trigger] self.v@[i]).leader.1.0
                    < self.v@.len() by {
                    assert(old_v[i].leader.1.0 < old_v.len());
                }
                assert forall|i: int| 0 <= i < self.v@.len() implies #[trigger] self.rank@[i]
                    <= self.max_rank@ by {
                    assert(old_rank[i] <= old(self).max_rank@);
                }
                assert forall|i: int|
                    0 <= i < self.v@.len() && (#[trigger] self.v@[i]).leader.1.0 != i implies self.rank@[i]
                    < self.rank@[self.v@[i].leader.1.0 as int] by {
                    if i != r1.0 {
                        assert(old_v[i].leader == self.v@[i].leader);
                        assert(old_v[i].leader.1.0 != i);
                    }
                }
            }
            true
        }
    }

    /// The data of `g*x`: the data of its root, moved by the accumulated element.
    pub fn get_semilattice(&self, gx: &(S::G, Id)) -> (res: S)
        requires
            self.wf(),
            gx.1.0 < self.len(),
        ensures
            res == S::acted(
                self.find_from(gx.0@, gx.1.0 as nat).0,
                self.data(self.find_from(gx.0@, gx.1.0 as nat).1.0 as nat),
            ),
    {
        let (g, x) = gx;
        let (g, x) = self.find((g.duplicate(), *x));
        S::act(&g, &self.v[x.0].s)
    }

    /// The data of `x`, seen without any offset.
    pub fn get_id_semilattice(&self, x: Id) -> (res: S)
        requires
            self.wf(),
            x.0 < self.len(),
        ensures
            res == S::acted(
                self.find_from(S::G::unit(), x.0 as nat).0,
                self.data(self.root(x.0 as nat)),
            ),
    {
        proof {
            self.lemma_find_from_in_range(S::G::unit(), x.0 as nat);
        }
        self.get_semilattice(&(S::G::identity(), x))
    }

    /// The data stored at a root.
    pub fn get_leader_semilattice(&self, x: Id) -> (res: &S)
        requires
            self.wf(),
            x.0 < self.len(),
            self.is_root(x.0 as nat),
        ensures
            *res == self.data(x.0 as nat),
    {
        &self.v[x.0].s
    }

    /// Whether `g1*x1 == g2*x2` is known: same root, and the element between
    /// them is a self-edge of the root.
    pub fn is_equal(&self, x1: (S::G, Id), x2: (S::G, Id)) -> (res: bool)
        requires
            self.wf(),
            x1.1.0 < self.len(),
            x2.1.0 < self.len(),
        ensures
            res == self.equal(x1, x2),
    {
        let (g1, x1) = self.find(x1);
        let (g2, x2) = self.find(x2);
        if x1.0 != x2.0 {
            return false;
        }
        let g = S::G::compose(&g1.inverse(), &g2);
        self.v[x1.0].s.contains_self_edge(&g)
    }

    /// With `x1` and `x2` found as `g1*r` and `g2*r` from a common root `r`:
    /// `g1⁻¹*g2`; `None` when their roots differ.
    pub fn get_g_between(&self, x1: (S::G, Id), x2: (S::G, Id)) -> (res: Option<S::G>)
        requires
            self.wf(),
            x1.1.0 < self.len(),
            x2.1.0 < self.len(),
        ensures
            res is Some <==> self.find_from(x1.0@, x1.1.0 as nat).1 == self.find_from(x2.0@, x2.1.0 as nat).1,
            res matches Some(g) ==> g@ == self.g_between(x1, x2),
    {
        let (g1, x1) = self.find(x1);
        let (g2, x2) = self.find(x2);
        if x1.0 != x2.0 {
            return None;
        }
        let g = S::G::compose(&g1.inverse(), &g2);
        Some(g)
    }

    /// Whether `merge_s(gx, s)` would accept its arguments.
    pub fn can_merge_s(&self, gx: &(S::G, Id), s: &S) -> (res: bool)
        requires
            self.wf(),
            gx.1.0 < self.len(),
        ensures
            res == self.data(gx.1.0 as nat).mergeable(S::acted(S::G::inv(gx.0@), *s)),
    {
        let acted = S::act(&gx.0.inverse(), s);
        self.v[gx.1.0].s.can_merge(&acted)
    }

    /// Whether `union(x1, x2)` would accept its arguments.
    pub fn can_union(&self, x1: (S::G, Id), x2: (S::G, Id)) -> (res: bool)
        requires
            self.wf(),
            x1.1.0 < self.len(),
            x2.1.0 < self.len(),
        ensures
            res == self.union_ok(x1, x2),
    {
        let (g1, r1) = self.find(x1);
        let (g2, r2) = self.find(x2);
        let gg = S::G::compose(&g1.inverse(), &g2);
        if r1.0 == r2.0 {
            self.v[r1.0].s.contains_self_edge(&gg) || self.v[r1.0].s.can_insert_self_edge(&gg)
        } else {
            let acted = S::act(&gg.inverse(), &self.v[r1.0].s);
            self.v[r2.0].s.can_merge(&acted)
        }
    }

    /// The roots, in increasing order.
    pub fn classes(&self) -> (res: Vec<Id>)
        requires
            self.wf(),
        ensures
            forall|k: int| 0 <= k < res@.len() ==> (#[trigger] res@[k]).0 < self.len() && self.is_root(res@[k].0 as nat),
            forall|i: nat| i < self.len() && self.is_root(i) ==> res@.contains(Id(i as usize)),
            forall|k1: int, k2: int| 0 <= k1 < k2 < res@.len() ==> res@[k1].0 < res@[k2].0,
    {
        let mut out: Vec<Id> = Vec::new();
        let mut i: usize = 0;
        while i < self.v.len()
            invariant
                i <= self.len(),
                self.wf(),
                forall|k: int| 0 <= k < out@.len() ==> (#[trigger] out@[k]).0 < i && self.is_root(out@[k].0 as nat),
                forall|j: nat| j < i && self.is_root(j) ==> out@.contains(Id(j as usize)),
                forall|k1: int, k2: int| 0 <= k1 < k2 < out@.len() ==> out@[k1].0 < out@[k2].0,
            decreases self.len() - i,
        {
            if self.v[i].leader.1.0 == i {
                let ghost prev = out@;
                out.push(Id(i));
                proof {
                    assert(out@[out@.len() - 1] == Id(i));
                    assert forall|j: nat| j < i + 1 && self.is_root(j) implies out@.contains(Id(j as usize)) by {
                        if j < i {
                            assert(prev.contains(Id(j as usize)));
                            let k = choose|k: int| 0 <= k < prev.len() && prev[k] == Id(j as usize);
                            assert(out@[k] == prev[k]);
                        } else {
                            assert(out@[out@.len() - 1] == Id(j as usize));
                        }
                    }
                }
            } else {
                proof {
                    assert(!self.is_root(i as nat));
                }
            }
            i += 1;
        }
        out
    }

    /// Paths depend only on leader edges: when `new` keeps the leader edges of
    /// the e-classes of `old`, it finds the same roots with the same elements.
    pub proof fn lemma_find_same_edges(old: Self, new: Self, g: <S::G as View>::V, x: nat)
        requires
            old.wf(),
            new.wf(),
            x < old.len(),
            old.len() <= new.len(),
            forall|i: nat|
                i < old.len() ==> new.parent(i) == old.parent(i) && new.edge(i) == old.edge(i),
        ensures
            new.find_from(g, x) == old.find_from(g, x),
        decreases old.chain_measure(x),
    {
        let _ = old.v@[x as int];
        let _ = new.v@[x as int];
        if old.parent(x) != x {
            Self::lemma_find_same_edges(old, new, S::G::op(g, old.edge(x)), old.parent(x));
        }
    }

    /// Linking root `r1` below root `r2` with element `gg` moves everything
    /// that reached `r1` on to `r2`, with `gg` appended; other paths stay.
    pub proof fn lemma_find_after_link(
        old: Self,
        new: Self,
        r1: nat,
        r2: nat,
        gg: <S::G as View>::V,
        g: <S::G as View>::V,
        x: nat,
    )
        requires
            old.wf(),
            new.wf(),
            old.len() == new.len(),
            x < old.len(),
            r1 < old.len(),
            r2 < old.len(),
            r1 != r2,
            old.is_root(r1),
            old.is_root(r2),
            new.parent(r1) == r2,
            new.edge(r1) == gg,
            forall|i: nat|
                i < old.len() && i != r1 ==> new.parent(i) == old.parent(i) && new.edge(i)
                    == old.edge(i),
        ensures
            new.find_from(g, x) == (if old.find_from(g, x).1.0 == r1 {
                (S::G::op(old.find_from(g, x).0, gg), Id(r2 as usize))
            } else {
                old.find_from(g, x)
            }),
        decreases old.chain_measure(x),
    {
        let _ = old.v@[x as int];
        let _ = new.v@[x as int];
        let _ = new.v@[r1 as int];
        let _ = new.v@[r2 as int];
        assert(new.parent(r2) == r2);
        if old.parent(x) != x {
            Self::lemma_find_after_link(old, new, r1, r2, gg, S::G::op(g, old.edge(x)), old.parent(x));
        } else if x == r1 {
            Self::lemma_find_root(&new, S::G::op(g, gg), r2);
        }
    }

    /// `union(x1, x2)` reports a change exactly when `x1 == x2` was not
    /// known; when it reports none, nothing changed.
    pub proof fn lemma_union_changed(old: Self, new: Self, x1: (S::G, Id), x2: (S::G, Id), changed: bool)
        requires
            old.wf(),
            new.len() == old.len(),
            x1.1.0 < old.len(),
            x2.1.0 < old.len(),
            Self::union_post(old, new, x1, x2, changed),
        ensures
            changed == !old.equal(x1, x2),
            !changed ==> forall|i: nat|
                i < old.len() ==> new.parent(i) == old.parent(i) && new.edge(i) == old.edge(i)
                    && new.data(i) == old.data(i),
    {
    }

    /// After `union(x1, x2)`, `x1` and `x2` are in one e-class.
    pub proof fn lemma_union_same_class(
        old: Self,
        new: Self,
        x1: (S::G, Id),
        x2: (S::G, Id),
        changed: bool,
    )
        requires
            old.wf(),
            new.wf(),
            new.len() == old.len(),
            x1.1.0 < old.len(),
            x2.1.0 < old.len(),
            Self::union_post(old, new, x1, x2, changed),
        ensures
            new.find_from(x1.0@, x1.1.0 as nat).1 == new.find_from(x2.0@, x2.1.0 as nat).1,
    {
        old.lemma_find_from_in_range(x1.0@, x1.1.0 as nat);
        old.lemma_find_from_in_range(x2.0@, x2.1.0 as nat);
        let (g1, r1) = old.find_from(x1.0@, x1.1.0 as nat);
        let (g2, r2) = old.find_from(x2.0@, x2.1.0 as nat);
        let gg = S::G::op(S::G::inv(g1), g2);
        if r1 == r2 {
            Self::lemma_find_same_edges(old, new, x1.0@, x1.1.0 as nat);
            Self::lemma_find_same_edges(old, new, x2.0@, x2.1.0 as nat);
        } else {
            Self::lemma_find_after_link(old, new, r1.0 as nat, r2.0 as nat, gg, x1.0@, x1.1.0 as nat);
            Self::lemma_find_after_link(old, new, r1.0 as nat, r2.0 as nat, gg, x2.0@, x2.1.0 as nat);
        }
    }

    /// After `union(x1, x2)`, `is_equal(x1, x2)` holds: `g1*x1 == g2*x2` is
    /// known. This rests on the group laws and on the laws of self-edges.
    pub proof fn lemma_union_then_equal(
        old: Self,
        new: Self,
        x1: (S::G, Id),
        x2: (S::G, Id),
        changed: bool,
    )
        where S: SemilatticeLaws, S::G: GroupLaws,
        requires
            old.wf(),
            new.wf(),
            new.len() == old.len(),
            x1.1.0 < old.len(),
            x2.1.0 < old.len(),
            old.union_ok(x1, x2),
            Self::union_post(old, new, x1, x2, changed),
        ensures
            new.equal(x1, x2),
    {
        Self::lemma_union_same_class(old, new, x1, x2, changed);
        old.lemma_find_from_in_range(x1.0@, x1.1.0 as nat);
        old.lemma_find_from_in_range(x2.0@, x2.1.0 as nat);
        let (g1, r1) = old.find_from(x1.0@, x1.1.0 as nat);
        let (g2, r2) = old.find_from(x2.0@, x2.1.0 as nat);
        let gg = S::G::op(S::G::inv(g1), g2);
        if r1 == r2 {
            Self::lemma_find_same_edges(old, new, x1.0@, x1.1.0 as nat);
            Self::lemma_find_same_edges(old, new, x2.0@, x2.1.0 as nat);
            assert(new.g_between(x1, x2) == gg);
            if changed {
                S::lemma_inserted_edge(old.data(r1.0 as nat), gg);
            }
        } else {
            Self::lemma_find_after_link(old, new, r1.0 as nat, r2.0 as nat, gg, x1.0@, x1.1.0 as nat);
            Self::lemma_find_after_link(old, new, r1.0 as nat, r2.0 as nat, gg, x2.0@, x2.1.0 as nat);
            S::G::lemma_assoc(g1, S::G::inv(g1), g2);
            S::G::lemma_inverse(g1);
            S::G::lemma_unit(g2);
            S::G::lemma_inverse(g2);
            assert(S::G::op(g1, gg) == g2);
            assert(new.g_between(x1, x2) == S::G::unit());
            S::lemma_unit_stabilizes(new.data(r2.0 as nat));
        }
    }
    /// Merging data into an e-class lowers the potential when it changes
    /// something, and keeps it otherwise.
    pub proof fn lemma_merge_potential(old: Self, new: Self, gx: (S::G, Id), s: S, changed: bool)
        requires
            old.wf(),
            new.wf(),
            gx.1.0 < old.len(),
            old.data(gx.1.0 as nat).mergeable(S::acted(S::G::inv(gx.0@), s)),
            Self::merge_post(old, new, gx, s, changed),
        ensures
            changed ==> new.potential() < old.potential(),
            !changed ==> new.potential() == old.potential(),
    {
        let x = gx.1.0 as nat;
        let n = old.len();
        assert forall|i: nat| i < n && i != x implies #[trigger] old.terms()(i) == new.terms()(i) by {
            assert(new.parent(i) == old.parent(i));
            assert(new.data(i) == old.data(i));
        }
        lemma_sum_update(old.terms(), new.terms(), n, x);
        S::lemma_join_height(old.data(x), S::acted(S::G::inv(gx.0@), s));
        S::lemma_height_bound(old.data(x));
        S::lemma_height_bound(new.data(x));
        assert(new.parent(x) == old.parent(x));
    }

    /// A union lowers the potential when it changes something, and keeps it
    /// otherwise: linking removes a root, and a new self-edge raises the data.
    pub proof fn lemma_union_potential(
        old: Self,
        new: Self,
        x1: (S::G, Id),
        x2: (S::G, Id),
        changed: bool,
    )
        requires
            old.wf(),
            new.wf(),
            new.len() == old.len(),
            x1.1.0 < old.len(),
            x2.1.0 < old.len(),
            old.union_ok(x1, x2),
            Self::union_post(old, new, x1, x2, changed),
        ensures
            changed ==> new.potential() < old.potential(),
            !changed ==> new.potential() == old.potential(),
    {
        old.lemma_find_from_in_range(x1.0@, x1.1.0 as nat);
        old.lemma_find_from_in_range(x2.0@, x2.1.0 as nat);
        let (g1, r1) = old.find_from(x1.0@, x1.1.0 as nat);
        let (g2, r2) = old.find_from(x2.0@, x2.1.0 as nat);
        let gg = S::G::op(S::G::inv(g1), g2);
        let r1 = r1.0 as nat;
        let r2 = r2.0 as nat;
        let n = old.len();
        if r1 == r2 {
            assert forall|i: nat| i < n && i != r1 implies #[trigger] old.terms()(i)
                == new.terms()(i) by {
                assert(new.parent(i) == old.parent(i));
                assert(new.data(i) == old.data(i));
            }
            lemma_sum_update(old.terms(), new.terms(), n, r1);
            assert(new.parent(r1) == old.parent(r1));
            S::lemma_height_bound(old.data(r1));
            S::lemma_height_bound(new.data(r1));
            if changed {
                S::lemma_insert_height(old.data(r1), gg);
            }
        } else {
            let h = |i: nat| if i == r1 { new.term(i) } else { old.term(i) };
            assert forall|i: nat| i < n && i != r1 implies #[trigger] old.terms()(i) == h(i) by {
            }
            lemma_sum_update(old.terms(), h, n, r1);
            assert forall|i: nat| i < n && i != r2 implies #[trigger] h(i) == new.terms()(i) by {
                if i != r1 {
                    assert(new.parent(i) == old.parent(i));
                    assert(new.data(i) == old.data(i));
                }
            }
            lemma_sum_update(h, new.terms(), n, r2);
            assert(new.data(r1) == old.data(r1));
            assert(new.parent(r2) == old.parent(r2));
            S::lemma_height_bound(old.data(r1));
            S::lemma_height_bound(old.data(r2));
            S::lemma_height_bound(new.data(r2));
            S::lemma_join_height(old.data(r2), S::acted(S::G::inv(gg), old.data(r1)));
        }
    }

    /// Every e-class equals itself.
    pub proof fn lemma_equal_refl(&self, x: (S::G, Id))
        where S: SemilatticeLaws, S::G: GroupLaws,
        requires
            self.wf(),
            x.1.0 < self.len(),
        ensures
            self.equal(x, x),
    {
        let h = self.find_from(x.0@, x.1.0 as nat).0;
        S::G::lemma_inverse(h);
        S::lemma_unit_stabilizes(self.data(self.find_from(x.0@, x.1.0 as nat).1.0 as nat));
    }

    /// Known equality is symmetric.
    pub proof fn lemma_equal_sym(&self, x: (S::G, Id), y: (S::G, Id))
        where S: SemilatticeLaws, S::G: GroupLaws,
        requires
            self.wf(),
            x.1.0 < self.len(),
            y.1.0 < self.len(),
            self.equal(x, y),
        ensures
            self.equal(y, x),
    {
        let hx = self.find_from(x.0@, x.1.0 as nat).0;
        let hy = self.find_from(y.0@, y.1.0 as nat).0;
        let d = self.data(self.find_from(x.0@, x.1.0 as nat).1.0 as nat);
        S::lemma_stabilizes_inv(d, S::G::op(S::G::inv(hx), hy));
        S::G::lemma_inv_op(S::G::inv(hx), hy);
        S::G::lemma_inv_inv(hx);
    }

    /// Known equality is transitive.
    pub proof fn lemma_equal_trans(&self, x: (S::G, Id), y: (S::G, Id), z: (S::G, Id))
        where S: SemilatticeLaws, S::G: GroupLaws,
        requires
            self.wf(),
            x.1.0 < self.len(),
            y.1.0 < self.len(),
            z.1.0 < self.len(),
            self.equal(x, y),
            self.equal(y, z),
        ensures
            self.equal(x, z),
    {
        let hx = self.find_from(x.0@, x.1.0 as nat).0;
        let hy = self.find_from(y.0@, y.1.0 as nat).0;
        let hz = self.find_from(z.0@, z.1.0 as nat).0;
        let d = self.data(self.find_from(x.0@, x.1.0 as nat).1.0 as nat);
        let a = S::G::inv(hx);
        S::lemma_stabilizes_op(d, S::G::op(a, hy), S::G::op(S::G::inv(hy), hz));
        S::G::lemma_assoc(a, hy, S::G::op(S::G::inv(hy), hz));
        S::G::lemma_assoc(hy, S::G::inv(hy), hz);
        S::G::lemma_inverse(hy);
        S::G::lemma_unit(hz);
    }

    /// A new e-class keeps every known equality.
    pub proof fn lemma_makeset_keeps_equal(old: Self, new: Self, s: S, id: Id, a: (S::G, Id), b: (S::G, Id))
        requires
            old.wf(),
            new.wf(),
            Self::makeset_post(old, new, s, id),
            a.1.0 < old.len(),
            b.1.0 < old.len(),
            old.equal(a, b),
        ensures
            new.equal(a, b),
    {
        Self::lemma_find_same_edges(old, new, a.0@, a.1.0 as nat);
        Self::lemma_find_same_edges(old, new, b.0@, b.1.0 as nat);
        old.lemma_find_from_in_range(a.0@, a.1.0 as nat);
    }

    /// Merging data keeps every known equality.
    pub proof fn lemma_merge_keeps_equal(
        old: Self,
        new: Self,
        gx: (S::G, Id),
        s: S,
        changed: bool,
        a: (S::G, Id),
        b: (S::G, Id),
    )
        where S: SemilatticeLaws,
        requires
            old.wf(),
            new.wf(),
            gx.1.0 < old.len(),
            a.1.0 < old.len(),
            b.1.0 < old.len(),
            old.data(gx.1.0 as nat).mergeable(S::acted(S::G::inv(gx.0@), s)),
            Self::merge_post(old, new, gx, s, changed),
            old.equal(a, b),
        ensures
            new.equal(a, b),
    {
        Self::lemma_find_same_edges(old, new, a.0@, a.1.0 as nat);
        Self::lemma_find_same_edges(old, new, b.0@, b.1.0 as nat);
        let r = old.find_from(a.0@, a.1.0 as nat).1.0 as nat;
        old.lemma_find_from_in_range(a.0@, a.1.0 as nat);
        if r == gx.1.0 {
            S::lemma_join_keeps(old.data(r), S::acted(S::G::inv(gx.0@), s), old.g_between(a, b));
        }
    }

    /// A union keeps every known equality.
    pub proof fn lemma_union_keeps_equal(
        old: Self,
        new: Self,
        x1: (S::G, Id),
        x2: (S::G, Id),
        changed: bool,
        a: (S::G, Id),
        b: (S::G, Id),
    )
        where S: SemilatticeLaws, S::G: GroupLaws,
        requires
            old.wf(),
            new.wf(),
            new.len() == old.len(),
            x1.1.0 < old.len(),
            x2.1.0 < old.len(),
            a.1.0 < old.len(),
            b.1.0 < old.len(),
            old.union_ok(x1, x2),
            Self::union_post(old, new, x1, x2, changed),
            old.equal(a, b),
        ensures
            new.equal(a, b),
    {
        old.lemma_find_from_in_range(x1.0@, x1.1.0 as nat);
        old.lemma_find_from_in_range(x2.0@, x2.1.0 as nat);
        old.lemma_find_from_in_range(a.0@, a.1.0 as nat);
        let (g1, r1) = old.find_from(x1.0@, x1.1.0 as nat);
        let (g2, r2) = old.find_from(x2.0@, x2.1.0 as nat);
        let gg = S::G::op(S::G::inv(g1), g2);
        let r1 = r1.0 as nat;
        let r2 = r2.0 as nat;
        let (ha, ra) = old.find_from(a.0@, a.1.0 as nat);
        let hb = old.find_from(b.0@, b.1.0 as nat).0;
        let ra = ra.0 as nat;
        let h = old.g_between(a, b);
        if r1 == r2 {
            Self::lemma_find_same_edges(old, new, a.0@, a.1.0 as nat);
            Self::lemma_find_same_edges(old, new, b.0@, b.1.0 as nat);
            if ra == r1 && changed {
                S::lemma_edge_keeps(old.data(r1), gg, h);
            }
        } else {
            Self::lemma_find_after_link(old, new, r1, r2, gg, a.0@, a.1.0 as nat);
            Self::lemma_find_after_link(old, new, r1, r2, gg, b.0@, b.1.0 as nat);
            let acted = S::acted(S::G::inv(gg), old.data(r1));
            if ra == r1 {
                let ig = S::G::inv(gg);
                S::lemma_acted_stabilizes(old.data(r1), ig, h);
                S::G::lemma_inv_inv(gg);
                S::G::lemma_inv_op(ha, gg);
                S::G::lemma_assoc(S::G::op(ig, S::G::inv(ha)), hb, gg);
                S::G::lemma_assoc(ig, S::G::inv(ha), hb);
                assert(new.g_between(a, b) == S::G::op(S::G::op(ig, h), S::G::inv(ig)));
                S::lemma_join_keeps(old.data(r2), acted, new.g_between(a, b));
            } else if ra == r2 {
                S::lemma_join_keeps(old.data(r2), acted, h);
            }
        }
    }
}

/// `f(0) + ... + f(n - 1)`.
pub open spec fn sum_upto(f: spec_fn(nat) -> nat, n: nat) -> nat
    decreases n,
{
    if n == 0 {
        0
    } else {
        sum_upto(f, (n - 1) as nat) + f((n - 1) as nat)
    }
}

/// Changing one term changes the sum by as much.
pub proof fn lemma_sum_update(f: spec_fn(nat) -> nat, g: spec_fn(nat) -> nat, n: nat, k: nat)
    requires
        k < n,
        forall|i: nat| i < n && i != k ==> #[trigger] f(i) == g(i),
    ensures
        sum_upto(f, n) + g(k) == sum_upto(g, n) + f(k),
    decreases n,
{
    if n - 1 == k {
        lemma_sum_same(f, g, k);
    } else {
        lemma_sum_update(f, g, (n - 1) as nat, k);
    }
}

/// Sums of agreeing terms agree.
pub proof fn lemma_sum_same(f: spec_fn(nat) -> nat, g: spec_fn(nat) -> nat, n: nat)
    requires
        forall|i: nat| i < n ==> #[trigger] f(i) == g(i),
    ensures
        sum_upto(f, n) == sum_upto(g, n),
    decreases n,
{
    if n > 0 {
        lemma_sum_same(f, g, (n - 1) as nat);
    }
}

} // verus!
