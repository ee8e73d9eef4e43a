use vstd::prelude::*;
use crate::offset::Offset;

verus! {

/// Elements that relate classes: `compose(a, b)` is `a` after `b`.
pub trait Grp: Sized + Copy + Eq {
    spec fn compose_spec(a: Self, b: Self) -> Self;

    spec fn inverse_spec(a: Self) -> Self;

    fn inverse(self) -> (res: Self)
        ensures
            res == Self::inverse_spec(self),
    ;

    fn compose(a: Self, b: Self) -> (res: Self)
        ensures
            res == Self::compose_spec(a, b),
    ;
}

/// Per-class facts on which the elements act: `mk(g)` is what a self-edge
/// `g` tells, and `join` puts two facts together.
pub trait Lat<G: Grp>: Sized + Copy + Eq {
    spec fn act_spec(g: G, l: Self) -> Self;

    spec fn mk_spec(g: G) -> Self;

    spec fn join_spec(a: Self, b: Self) -> Self;

    fn act(g: G, l: Self) -> (res: Self)
        ensures
            res == Self::act_spec(g, l),
    ;

    fn mk(g: G) -> (res: Self)
        ensures
            res == Self::mk_spec(g),
    ;

    fn join(a: Self, b: Self) -> (res: Self)
        ensures
            res == Self::join_spec(a, b),
    ;
}

/// A class index.
pub type Id = usize;

/// `a` after `b`, where both are known; `None` where either is unknown.
pub open spec fn opt_compose_spec<G: Grp>(a: Option<G>, b: Option<G>) -> Option<G> {
    match (a, b) {
        (Some(x), Some(y)) => Some(G::compose_spec(x, y)),
        _ => None,
    }
}

pub open spec fn opt_inverse_spec<G: Grp>(a: Option<G>) -> Option<G> {
    match a {
        Some(x) => Some(G::inverse_spec(x)),
        None => None,
    }
}

pub open spec fn opt_join_spec<G: Grp, L: Lat<G>>(a: Option<L>, b: Option<L>) -> Option<L> {
    match (a, b) {
        (Some(x), Some(y)) => Some(L::join_spec(x, y)),
        _ => None,
    }
}

pub open spec fn opt_mk_spec<G: Grp, L: Lat<G>>(g: Option<G>) -> Option<L> {
    match g {
        Some(x) => Some(L::mk_spec(x)),
        None => None,
    }
}

pub open spec fn opt_act_spec<G: Grp, L: Lat<G>>(g: Option<G>, l: Option<L>) -> Option<L> {
    match (g, l) {
        (Some(x), Some(y)) => Some(L::act_spec(x, y)),
        _ => None,
    }
}

pub fn opt_inverse<G: Grp>(g: Option<G>) -> (res: Option<G>)
    ensures
        res == opt_inverse_spec(g),
{
    match g {
        Some(x) => Some(x.inverse()),
        None => None,
    }
}

pub fn opt_compose<G: Grp>(g1: Option<G>, g2: Option<G>) -> (res: Option<G>)
    ensures
        res == opt_compose_spec(g1, g2),
{
    match (g1, g2) {
        (Some(x), Some(y)) => Some(G::compose(x, y)),
        _ => None,
    }
}

pub fn opt_join<G: Grp, L: Lat<G>>(l1: Option<L>, l2: Option<L>) -> (res: Option<L>)
    ensures
        res == opt_join_spec::<G, L>(l1, l2),
{
    match (l1, l2) {
        (Some(x), Some(y)) => Some(L::join(x, y)),
        _ => None,
    }
}

pub fn opt_mk<G: Grp, L: Lat<G>>(g: Option<G>) -> (res: Option<L>)
    ensures
        res == opt_mk_spec::<G, L>(g),
{
    match g {
        Some(x) => Some(L::mk(x)),
        None => None,
    }
}

pub fn opt_act<G: Grp, L: Lat<G>>(g: Option<G>, l: Option<L>) -> (res: Option<L>)
    ensures
        res == opt_act_spec::<G, L>(g, l),
{
    match (g, l) {
        (Some(x), Some(y)) => Some(L::act(x, y)),
        _ => None,
    }
}

/// One class: its facts, and its edge: this class is `gid.0 * gid.1`.
pub struct Class<G: Grp, L: Lat<G>> {
    pub lat: Option<L>,
    pub gid: (Option<G>, Id),
}

/// A union-find whose edges carry (possibly unknown) elements. A class
/// whose edge leads to itself is a leader.
///
/// `rank` (ghost) strictly increases along edges, which bounds every chain
/// of edges by `max_rank`.
pub struct GUF<G: Grp, L: Lat<G>> {
    classes: Vec<Class<G, L>>,
    rank: Ghost<Seq<nat>>,
    max_rank: Ghost<nat>,
}

impl<G: Grp, L: Lat<G>> View for GUF<G, L> {
    type V = Seq<Class<G, L>>;

    closed spec fn view(&self) -> Seq<Class<G, L>> {
        self.classes@
    }
}

impl<G: Grp, L: Lat<G>> GUF<G, L> {
    /// Well-formedness: edges lead to classes, and ranks grow along them.
    pub closed spec fn wf(&self) -> bool {
        &&& self.rank@.len() == self.classes@.len()
        &&& forall|i: int|
            0 <= i < self.classes@.len() ==> (#[trigger] self.classes@[i]).gid.1 < self.classes@.len()
        &&& forall|i: int| 0 <= i < self.classes@.len() ==> #[trigger] self.rank@[i] <= self.max_rank@
        &&& forall|i: int|
            0 <= i < self.classes@.len() && (#[trigger] self.classes@[i]).gid.1 != i ==> self.rank@[i]
                < self.rank@[self.classes@[i].gid.1 as int]
    }

    /// How many more edges can follow `x` at most.
    pub closed spec fn chain_measure(&self, x: nat) -> int {
        self.max_rank@ - self.rank@[x as int]
    }

    /// Following edges from `g*x`: the leader `r` and the accumulated
    /// element `g'` with `g*x == g'*r`.
    pub closed spec fn find_spec(&self, g: Option<G>, x: nat) -> (Option<G>, nat)
        decreases self.chain_measure(x),
    {
        if self.wf() && x < self.classes@.len() && self.classes@[x as int].gid.1 != x {
            proof {
                let _ = self.classes@[x as int];
            }
            self.find_spec(
                opt_compose_spec(g, self.classes@[x as int].gid.0),
                self.classes@[x as int].gid.1 as nat,
            )
        } else {
            (g, x)
        }
    }

    /// Where `x` leads: its edge followed to the leader.
    pub open spec fn found(&self, x: nat) -> (Option<G>, nat) {
        self.find_spec(self@[x as int].gid.0, self@[x as int].gid.1 as nat)
    }

    pub open spec fn is_leader(&self, x: nat) -> bool {
        self@[x as int].gid.1 == x
    }

    pub proof fn lemma_find_spec(&self, g: Option<G>, x: nat)
        requires
            self.wf(),
            x < self@.len(),
        ensures
            self.find_spec(g, x).1 < self@.len(),
            self.is_leader(self.find_spec(g, x).1),
            self.is_leader(x) ==> self.find_spec(g, x) == (g, x),
            !self.is_leader(x) ==> self.find_spec(g, x) == self.find_spec(
                opt_compose_spec(g, self@[x as int].gid.0),
                self@[x as int].gid.1 as nat,
            ),
        decreases self.chain_measure(x),
    {
        let _ = self.classes@[x as int];
        if self@[x as int].gid.1 != x {
            self.lemma_find_spec(
                opt_compose_spec(g, self@[x as int].gid.0),
                self@[x as int].gid.1 as nat,
            );
        }
    }
}

impl<G: Grp, L: Lat<G>> GUF<G, L> {
    /// Following edges from `g*x` finds the same leader and element in two
    /// union-finds whose edges agree on the classes of the first.
    pub proof fn lemma_find_same_edges(old: Self, new: Self, g: Option<G>, x: nat)
        requires
            old.wf(),
            new.wf(),
            x < old@.len(),
            old@.len() <= new@.len(),
            forall|i: int| 0 <= i < old@.len() ==> (#[trigger] new@[i]).gid == old@[i].gid,
        ensures
            new.find_spec(g, x) == old.find_spec(g, x),
        decreases old.chain_measure(x),
    {
        let _ = old.classes@[x as int];
        let _ = new.classes@[x as int];
        assert(new@[x as int].gid == old@[x as int].gid);
        if old@[x as int].gid.1 != x {
            Self::lemma_find_same_edges(old, new, opt_compose_spec(g, old@[x as int].gid.0), old@[x as int].gid.1 as nat);
        }
    }

    /// Linking the leader `r1` below the leader `r2` with element `gg`
    /// moves everything that reached `r1` on to `r2`, with `gg` composed on;
    /// other paths stay.
    pub proof fn lemma_find_after_link(old: Self, new: Self, r1: nat, r2: nat, gg: Option<G>, g: Option<G>, x: nat)
        requires
            old.wf(),
            new.wf(),
            old@.len() == new@.len(),
            x < old@.len(),
            r1 < old@.len(),
            r2 < old@.len(),
            r1 != r2,
            old.is_leader(r1),
            old.is_leader(r2),
            new@[r1 as int].gid == (gg, r2 as usize),
            forall|i: int| 0 <= i < old@.len() && i != r1 ==> (#[trigger] new@[i]).gid == old@[i].gid,
        ensures
            new.find_spec(g, x) == (if old.find_spec(g, x).1 == r1 {
                (opt_compose_spec(old.find_spec(g, x).0, gg), r2)
            } else {
                old.find_spec(g, x)
            }),
        decreases old.chain_measure(x),
    {
        let _ = old.classes@[x as int];
        let _ = new.classes@[x as int];
        let _ = new.classes@[r1 as int];
        let _ = new.classes@[r2 as int];
        assert(new@[r2 as int].gid == old@[r2 as int].gid);
        if old@[x as int].gid.1 != x {
            assert(x != r1);
            assert(new@[x as int].gid == old@[x as int].gid);
            Self::lemma_find_after_link(old, new, r1, r2, gg, opt_compose_spec(g, old@[x as int].gid.0), old@[x as int].gid.1 as nat);
        } else if x == r1 {
            new.lemma_find_spec(opt_compose_spec(g, gg), r2);
        } else {
            assert(new@[x as int].gid == old@[x as int].gid);
        }
    }

    /// An empty union-find.
    pub fn new() -> (res: Self)
        ensures
            res.wf(),
            res@ == Seq::<Class<G, L>>::empty(),
    {
        GUF { classes: Vec::new(), rank: Ghost(Seq::empty()), max_rank: Ghost(0) }
    }

    /// Adds a class with no known facts, whose edge leads to itself with an
    /// unknown element; returns its index.
    pub fn alloc_id(&mut self) -> (res: Id)
        requires
            old(self).wf(),
        ensures
            final(self).wf(),
            res == old(self)@.len(),
            final(self)@ == old(self)@.push((Class { lat: None, gid: (None, res) })),
    {
        let new_id = self.classes.len();
        self.classes.push(Class { lat: None, gid: (None, new_id) });
        self.rank = Ghost(self.rank@.push(0));
        proof {
            assert forall|j: int| 0 <= j < self.classes@.len() implies (#[trigger] self.classes@[j]).gid.1
                < self.classes@.len() by {
                if j < old(self).classes@.len() {
                    assert(old(self).classes@[j] == self.classes@[j]);
                }
            }
            assert forall|j: int|
                0 <= j < self.classes@.len() && (#[trigger] self.classes@[j]).gid.1 != j implies self.rank@[j]
                < self.rank@[self.classes@[j].gid.1 as int] by {
                assert(old(self).classes@[j] == self.classes@[j]);
            }
            assert forall|j: int| 0 <= j < self.classes@.len() implies #[trigger] self.rank@[j]
                <= self.max_rank@ by {
                if j < old(self).classes@.len() {
                    assert(old(self).rank@[j] == self.rank@[j]);
                }
            }
        }
        new_id
    }

    /// Follows edges from `g*id` to the leader `r`; returns `(g', r)` with
    /// `g*id == g'*r`.
    pub fn find_gid(&self, gid: (Option<G>, Id)) -> (res: (Option<G>, Id))
        requires
            self.wf(),
            gid.1 < self@.len(),
        ensures
            res.0 == self.find_spec(gid.0, gid.1 as nat).0,
            res.1 as nat == self.find_spec(gid.0, gid.1 as nat).1,
            res.1 < self@.len(),
    {
        let (mut g, mut id) = gid;
        loop
            invariant
                self.wf(),
                id < self@.len(),
                self.find_spec(g, id as nat) == self.find_spec(gid.0, gid.1 as nat),
            decreases self.chain_measure(id as nat),
        {
            let (g2, id2) = self.classes[id].gid;
            proof {
                self.lemma_find_spec(g, id as nat);
            }
            if id == id2 {
                return (g, id);
            }
            g = opt_compose(g, g2);
            id = id2;
        }
    }

    /// Where the class `id` leads: its edge followed to the leader.
    pub fn find(&self, id: Id) -> (res: (Option<G>, Id))
        requires
            self.wf(),
            id < self@.len(),
        ensures
            res.0 == self.found(id as nat).0,
            res.1 as nat == self.found(id as nat).1,
            res.1 < self@.len(),
    {
        proof {
            let _ = self.classes@[id as int];
        }
        self.find_gid(self.classes[id].gid)
    }

    /// The facts of `x`: those of its leader, moved by the element between.
    pub fn get_lattice(&self, x: Id) -> (res: Option<L>)
        requires
            self.wf(),
            x < self@.len(),
        ensures
            res == opt_act_spec::<G, L>(self.found(x as nat).0, self@[self.found(x as nat).1 as int].lat),
    {
        let (g, id) = self.find(x);
        opt_act(g, self.classes[id].lat)
    }

    /// What `union(a1, a2)` leaves: with `g1*x1` and `g2*x2` where `a1` and
    /// `a2` lead, and `g` the element with `x1 == g*x2`, two leaders are
    /// linked `x1 -> x2` and the facts of `x1`, moved by `g`, joined into those
    /// of `x2`; one leader gets the self-edge `g`.
    pub open spec fn union_post(old: Self, new: Self, a1: Id, a2: Id) -> bool {
        let (g1, x1) = old.found(a1 as nat);
        let (g2, x2) = old.found(a2 as nat);
        let g = opt_compose_spec(opt_inverse_spec(g1), g2);
        if x1 != x2 {
            new@ == old@.update(x1 as int, (Class { lat: None, gid: (g, x2 as usize) })).update(
                x2 as int,
                (Class {
                    lat: opt_join_spec::<G, L>(old@[x2 as int].lat, opt_act_spec::<G, L>(g, old@[x1 as int].lat)),
                    gid: old@[x2 as int].gid,
                }),
            )
        } else {
            new@ == old@.update(
                x1 as int,
                (Class {
                    lat: opt_join_spec::<G, L>(old@[x1 as int].lat, opt_mk_spec::<G, L>(g)),
                    gid: old@[x1 as int].gid,
                }),
            )
        }
    }

    /// Records that `a1` and `a2` are equal.
    pub fn union(&mut self, a1: Id, a2: Id)
        requires
            old(self).wf(),
            a1 < old(self)@.len(),
            a2 < old(self)@.len(),
        ensures
            final(self).wf(),
            Self::union_post(*old(self), *final(self), a1, a2),
    {
        let (g1, x1) = self.find(a1);
        let (g2, x2) = self.find(a2);
        proof {
            self.lemma_find_spec(self@[a1 as int].gid.0, self@[a1 as int].gid.1 as nat);
            self.lemma_find_spec(self@[a2 as int].gid.0, self@[a2 as int].gid.1 as nat);
        }
        let g = opt_compose(opt_inverse(g1), g2);
        if x1 != x2 {
            let ghost old_c = self.classes@;
            let ghost old_rank = self.rank@;
            let l1 = self.classes[x1].lat;
            self.classes.set(x1, Class { lat: None, gid: (g, x2) });
            let l2 = self.classes[x2].lat;
            let l2 = opt_join(l2, opt_act(g, l1));
            let gid2 = self.classes[x2].gid;
            self.classes.set(x2, Class { lat: l2, gid: gid2 });
            proof {
                let nr = if old_rank[x2 as int] > old_rank[x1 as int] + 1 {
                    old_rank[x2 as int]
                } else {
                    old_rank[x1 as int] + 1
                };
                self.rank@ = old_rank.update(x2 as int, nr);
                if self.max_rank@ < nr {
                    self.max_rank@ = nr;
                }
                assert forall|i: int| 0 <= i < self.classes@.len() implies (#[trigger] self.classes@[i]).gid.1
                    < self.classes@.len() by {
                    assert(old_c[i].gid.1 < old_c.len());
                }
                assert forall|i: int| 0 <= i < self.classes@.len() implies #[trigger] self.rank@[i]
                    <= self.max_rank@ by {
                    assert(old_rank[i] <= old(self).max_rank@);
                }
                assert forall|i: int|
                    0 <= i < self.classes@.len() && (#[trigger] self.classes@[i]).gid.1 != i implies self.rank@[i]
                    < self.rank@[self.classes@[i].gid.1 as int] by {
                    if i != x1 {
                        assert(old_c[i].gid == self.classes@[i].gid);
                        assert(old_c[i].gid.1 != i);
                    }
                }
                assert(self@ =~= old(self)@.update(x1 as int, (Class { lat: None, gid: (g, x2) })).update(
                    x2 as int,
                    (Class { lat: l2, gid: gid2 }),
                ));
            }
        } else {
            let l = self.classes[x1].lat;
            let gid1 = self.classes[x1].gid;
            let ghost old_c = self.classes@;
            self.classes.set(x1, Class { lat: opt_join(l, opt_mk(g)), gid: gid1 });
            proof {
                assert forall|i: int| 0 <= i < self.classes@.len() implies (#[trigger] self.classes@[i]).gid
                    == old_c[i].gid by {}
            }
        }
    }

    /// What `offset((g, id))` leaves: with `g2*r` where `g*id` leads, the
    /// leader `r` gets the self-edge `g2⁻¹*g2`, and a new class, `g2*r`, is
    /// added.
    pub open spec fn offset_post(old: Self, new: Self, g: G, id: Id, res: Id) -> bool {
        let (g2, r) = old.find_spec(Some(g), id as nat);
        let gig = opt_compose_spec(opt_inverse_spec(g2), g2);
        &&& res == old@.len()
        &&& new@ == old@.update(
            r as int,
            (Class { lat: opt_join_spec::<G, L>(old@[r as int].lat, opt_mk_spec::<G, L>(gig)), gid: old@[r as int].gid }),
        ).push((Class { lat: None, gid: (g2, r as usize) }))
    }

    /// Adds a class that equals `g*id`; returns its index.
    pub fn offset(&mut self, gid: (G, Id)) -> (res: Id)
        requires
            old(self).wf(),
            gid.1 < old(self)@.len(),
        ensures
            final(self).wf(),
            Self::offset_post(*old(self), *final(self), gid.0, gid.1, res),
    {
        let (g, id) = self.find_gid((Some(gid.0), gid.1));
        proof {
            self.lemma_find_spec(Some(gid.0), gid.1 as nat);
        }
        let gig = opt_compose(opt_inverse(g), g);
        let l = self.classes[id].lat;
        let l = opt_join(l, opt_mk(gig));
        let gid_r = self.classes[id].gid;
        let ghost old_c = self.classes@;
        let ghost old_rank = self.rank@;
        self.classes.set(id, Class { lat: l, gid: gid_r });
        let new_id = self.classes.len();
        self.classes.push(Class { lat: None, gid: (g, id) });
        proof {
            let nr = if old_rank[id as int] > 0 {
                old_rank[id as int]
            } else {
                1
            };
            self.rank@ = old_rank.update(id as int, nr).push(0);
            if self.max_rank@ < nr {
                self.max_rank@ = nr;
            }
            assert forall|i: int| 0 <= i < self.classes@.len() implies (#[trigger] self.classes@[i]).gid.1
                < self.classes@.len() by {
                if i < old_c.len() {
                    assert(old_c[i].gid.1 < old_c.len());
                }
            }
            assert forall|i: int| 0 <= i < self.classes@.len() implies #[trigger] self.rank@[i]
                <= self.max_rank@ by {
                if i < old_c.len() {
                    assert(old_rank[i] <= old(self).max_rank@);
                }
            }
            assert forall|i: int|
                0 <= i < self.classes@.len() && (#[trigger] self.classes@[i]).gid.1 != i implies self.rank@[i]
                < self.rank@[self.classes@[i].gid.1 as int] by {
                if i < old_c.len() {
                    assert(old_c[i].gid == self.classes@[i].gid);
                    assert(old_c[i].gid.1 != i);
                }
            }
            assert(self@ =~= old(self)@.update(id as int, (Class { lat: l, gid: gid_r })).push(
                (Class { lat: None, gid: (g, id) }),
            ));
        }
        new_id
    }

    /// After `union(a1, a2)`, a class that led to the linked leader `x1`
    /// leads to `x2`, with the linking element composed on; every other
    /// class leads where it led.
    pub proof fn lemma_union_found(old: Self, new: Self, a1: Id, a2: Id, x: nat)
        requires
            old.wf(),
            new.wf(),
            a1 < old@.len(),
            a2 < old@.len(),
            x < old@.len(),
            Self::union_post(old, new, a1, a2),
        ensures
            ({
                let (g1, x1) = old.found(a1 as nat);
                let (g2, x2) = old.found(a2 as nat);
                let g = opt_compose_spec(opt_inverse_spec(g1), g2);
                &&& old.found(x).1 != x1 || x1 == x2 ==> new.found(x) == old.found(x)
                &&& old.found(x).1 == x1 && x1 != x2 && x != x1 ==> new.found(x) == (
                    opt_compose_spec(old.found(x).0, g),
                    x2,
                )
            }),
    {
        let (g1, x1) = old.found(a1 as nat);
        let (g2, x2) = old.found(a2 as nat);
        let _ = old.classes@[a1 as int];
        let _ = old.classes@[a2 as int];
        let _ = old.classes@[x as int];
        old.lemma_find_spec(old@[a1 as int].gid.0, old@[a1 as int].gid.1 as nat);
        old.lemma_find_spec(old@[a2 as int].gid.0, old@[a2 as int].gid.1 as nat);
        old.lemma_find_spec(old@[x as int].gid.0, old@[x as int].gid.1 as nat);
        let g = opt_compose_spec(opt_inverse_spec(g1), g2);
        if x1 != x2 {
            if x != x1 {
                assert(new@[x as int].gid == old@[x as int].gid);
                Self::lemma_find_after_link(old, new, x1, x2, g, old@[x as int].gid.0, old@[x as int].gid.1 as nat);
            }
        } else {
            assert forall|i: int| 0 <= i < old@.len() implies (#[trigger] new@[i]).gid == old@[i].gid by {}
            Self::lemma_find_same_edges(old, new, old@[x as int].gid.0, old@[x as int].gid.1 as nat);
        }
    }

    /// After `union(a1, a2)`, `a1` and `a2` lead to one leader: `a2` as
    /// before, and `a1` with the linking element composed on (a leader `a1`
    /// with the linking element alone).
    pub proof fn lemma_union_same_leader(old: Self, new: Self, a1: Id, a2: Id)
        requires
            old.wf(),
            new.wf(),
            a1 < old@.len(),
            a2 < old@.len(),
            Self::union_post(old, new, a1, a2),
        ensures
            new.found(a1 as nat).1 == new.found(a2 as nat).1,
            new.found(a2 as nat) == old.found(a2 as nat),
            old.found(a1 as nat).1 != old.found(a2 as nat).1 && !old.is_leader(a1 as nat) ==> new.found(a1 as nat)
                == (opt_compose_spec(
                old.found(a1 as nat).0,
                opt_compose_spec(opt_inverse_spec(old.found(a1 as nat).0), old.found(a2 as nat).0),
            ), old.found(a2 as nat).1),
            old.found(a1 as nat).1 != old.found(a2 as nat).1 && old.is_leader(a1 as nat) ==> new.found(a1 as nat)
                == (opt_compose_spec(opt_inverse_spec(old.found(a1 as nat).0), old.found(a2 as nat).0), old.found(
                a2 as nat,
            ).1),
    {
        let (g1, x1) = old.found(a1 as nat);
        let (g2, x2) = old.found(a2 as nat);
        let _ = old.classes@[a1 as int];
        let _ = old.classes@[a2 as int];
        old.lemma_find_spec(old@[a1 as int].gid.0, old@[a1 as int].gid.1 as nat);
        old.lemma_find_spec(old@[a2 as int].gid.0, old@[a2 as int].gid.1 as nat);
        Self::lemma_union_found(old, new, a1, a2, a2 as nat);
        Self::lemma_union_found(old, new, a1, a2, a1 as nat);
        let g = opt_compose_spec(opt_inverse_spec(g1), g2);
        if x1 != x2 {
            if a1 as nat == x1 {
                assert(new@[x1 as int].gid == (g, x2 as usize));
                let _ = new.classes@[x2 as int];
                assert(new@[x2 as int].gid == old@[x2 as int].gid);
                new.lemma_find_spec(g, x2);
            }
            if a2 as nat == x1 {
                assert(false);
            }
        } else {
            if a1 as nat == x1 {
                assert(new@[x1 as int].gid == old@[x1 as int].gid);
                assert forall|i: int| 0 <= i < old@.len() implies (#[trigger] new@[i]).gid == old@[i].gid by {}
                Self::lemma_find_same_edges(old, new, old@[a1 as int].gid.0, old@[a1 as int].gid.1 as nat);
            }
        }
    }

    /// After `offset((g, id))`, the new class leads where `g*id` leads, with
    /// the same element, and every other class leads where it led.
    pub proof fn lemma_offset_found(old: Self, new: Self, g: G, id: Id, res: Id, x: nat)
        requires
            old.wf(),
            new.wf(),
            id < old@.len(),
            x < old@.len(),
            Self::offset_post(old, new, g, id, res),
        ensures
            new.found(res as nat) == old.find_spec(Some(g), id as nat),
            new.found(x) == old.found(x),
    {
        old.lemma_find_spec(Some(g), id as nat);
        let (g2, r) = old.find_spec(Some(g), id as nat);
        assert forall|i: int| 0 <= i < old@.len() implies (#[trigger] new@[i]).gid == old@[i].gid by {}
        let _ = old.classes@[x as int];
        Self::lemma_find_same_edges(old, new, old@[x as int].gid.0, old@[x as int].gid.1 as nat);
        assert(new@[res as int].gid == (g2, r as usize));
        let _ = new.classes@[r as int];
        assert(new@[r as int].gid == old@[r as int].gid);
        new.lemma_find_spec(g2, r);
    }
}

/// Offsets relate classes by shifting, with wrapping arithmetic.
impl Grp for Offset {
    open spec fn compose_spec(a: Offset, b: Offset) -> Offset {
        Offset(a.0.wrapping_add(b.0))
    }

    open spec fn inverse_spec(a: Offset) -> Offset {
        Offset(0i64.wrapping_sub(a.0))
    }

    fn inverse(self) -> (res: Offset) {
        Offset(0i64.wrapping_sub(self.0))
    }

    fn compose(a: Offset, b: Offset) -> (res: Offset) {
        Offset(a.0.wrapping_add(b.0))
    }
}

/// Whether some self-edge of the class shifts it by a nonzero offset; a
/// shift moves no such fact.
impl Lat<Offset> for bool {
    open spec fn act_spec(g: Offset, l: bool) -> bool {
        l
    }

    open spec fn mk_spec(g: Offset) -> bool {
        g.0 != 0
    }

    open spec fn join_spec(a: bool, b: bool) -> bool {
        a || b
    }

    fn act(g: Offset, l: bool) -> (res: bool) {
        l
    }

    fn mk(g: Offset) -> (res: bool) {
        g.0 != 0
    }

    fn join(a: bool, b: bool) -> (res: bool) {
        a || b
    }
}

} // verus!
