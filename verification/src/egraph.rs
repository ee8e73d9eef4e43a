use vstd::prelude::*;
use crate::api::{Analysis, Either, Group, GroupLaws, Id, Semilattice, SemilatticeLaws};
use crate::uf::Unionfind;

verus! {

/// A union or a merge was refused: two e-classes that are to be equal carry
/// data that cannot be joined (for constants, two different values).
#[derive(PartialEq, Eq, Debug, Clone, Copy)]
pub struct Contradiction;

/// An e-graph: a hashcons from canonical e-nodes to the e-classes that they
/// belong to (`n == g*x` for an entry `(n, (g, x))`), over a union-find whose
/// edges carry group elements.
pub struct EGraph<N: Analysis> {
    hashcons: Vec<(N::L, (N::G, Id))>,
    uf: Unionfind<N::S>,
}

impl<N: Analysis> EGraph<N> {
    /// The entries of the hashcons, in the order in which they are stored.
    pub closed spec fn entries(&self) -> Seq<(N::L, (N::G, Id))> {
        self.hashcons@
    }

    /// The union-find of the e-graph.
    pub closed spec fn unionfind(&self) -> Unionfind<N::S> {
        self.uf
    }

    /// Well-formedness: the union-find is well formed, and every entry names
    /// e-classes that exist.
    pub open spec fn wf(&self) -> bool {
        &&& self.unionfind().wf()
        &&& forall|i: int|
            0 <= i < self.entries().len() ==> N::children_below(
                (#[trigger] self.entries()[i]).0,
                self.unionfind().len(),
            ) && self.entries()[i].1.1.0 < self.unionfind().len()
    }

    /// The hashcons is canonical: every child of every stored e-node is a
    /// root of the union-find.
    pub open spec fn canonical(&self) -> bool {
        forall|i: int, k: int|
            #![trigger N::kids_of(self.entries()[i].0)[k]]
            0 <= i < self.entries().len() && 0 <= k < N::kids_of(self.entries()[i].0).len()
                ==> self.unionfind().is_root(N::kids_of(self.entries()[i].0)[k].1.0 as nat)
    }

    /// The index of the first entry whose e-node is `n`.
    pub open spec fn lookup_spec(entries: Seq<(N::L, (N::G, Id))>, n: N::L) -> Option<int> {
        if exists|i: int| 0 <= i < entries.len() && N::same(entries[i].0, n) {
            Some(
                choose|i: int|
                    0 <= i < entries.len() && N::same(#[trigger] entries[i].0, n) && forall|j: int|
                        0 <= j < i ==> !N::same(#[trigger] entries[j].0, n),
            )
        } else {
            None
        }
    }

    pub fn new() -> (res: Self)
        ensures
            res.wf(),
            res.entries().len() == 0,
            res.unionfind().len() == 0,
    {
        EGraph { hashcons: Vec::new(), uf: Unionfind::new() }
    }

    /// The number of hashcons entries.
    pub fn size(&self) -> (res: usize)
        ensures
            res == self.entries().len(),
    {
        self.hashcons.len()
    }

    /// The index of the first entry whose e-node is `n`, if any.
    fn lookup_index(&self, n: &N::L) -> (res: Option<usize>)
        ensures
            match res {
                Some(k) => k < self.entries().len() && N::same(self.entries()[k as int].0, *n)
                    && forall|j: int| 0 <= j < k ==> !N::same(#[trigger] self.entries()[j].0, *n),
                None => forall|j: int|
                    0 <= j < self.entries().len() ==> !N::same(#[trigger] self.entries()[j].0, *n),
            },
    {
        let mut k: usize = 0;
        while k < self.hashcons.len()
            invariant
                k <= self.entries().len(),
                self.entries() == self.hashcons@,
                forall|j: int| 0 <= j < k ==> !N::same(#[trigger] self.entries()[j].0, *n),
            decreases self.hashcons.len() - k,
        {
            if N::node_eq(&self.hashcons[k].0, n) {
                return Some(k);
            }
            k += 1;
        }
        None
    }

    /// The e-class that the canonical e-node `n` is stored under, if any.
    pub fn lookup(&self, n: &N::L) -> (res: Option<(N::G, Id)>)
        ensures
            match Self::lookup_spec(self.entries(), *n) {
                Some(k) => res matches Some(r) && r.0@ == self.entries()[k].1.0@ && r.1
                    == self.entries()[k].1.1,
                None => res is None,
            },
    {
        let r = self.lookup_index(n);
        proof {
            Self::lemma_lookup_index(self.entries(), *n, r);
        }
        match r {
            Some(k) => {
                let (g, x) = &self.hashcons[k].1;
                Some((g.duplicate(), *x))
            },
            None => None,
        }
    }

    /// What `add(n)` does, from `old` to `new`, returning `res`: with
    /// `(g, m) = canon(n)`, an e-class `m` is returned as `g*m`; a canonical
    /// e-node `m` that is stored under `g2*x` gives `(g*g2)*x`; otherwise `m` gets
    /// a new e-class `x` with the data that `m` gives it, is stored under
    /// `x`, and `g*x` is returned.
    pub open spec fn add_post(old: Self, new: Self, n: N::L, res: (N::G, Id)) -> bool {
        let (g, m) = N::canon_spec(n, old.unionfind());
        match m {
            Either::R(x) => new == old && res.0@ == g && res.1 == x,
            Either::L(m) => match Self::lookup_spec(old.entries(), m) {
                Some(k) => new == old && res.0@ == N::G::op(g, old.entries()[k].1.0@) && res.1
                    == old.entries()[k].1.1,
                None => {
                    &&& res.0@ == g
                    &&& Unionfind::makeset_post(
                        old.unionfind(),
                        new.unionfind(),
                        N::mk_spec(m, res.1, old.unionfind()),
                        res.1,
                    )
                    &&& new.entries().len() == old.entries().len() + 1
                    &&& forall|i: int|
                        0 <= i < old.entries().len() ==> new.entries()[i] == old.entries()[i]
                    &&& new.entries().last().0 == m
                    &&& new.entries().last().1.0@ == N::G::unit()
                    &&& new.entries().last().1.1 == res.1
                },
            },
        }
    }

    /// Adds the e-node `n`; returns `g*x` with `n == g*x`.
    pub fn add(&mut self, n: &N::L) -> (res: (N::G, Id))
        requires
            old(self).wf(),
            N::children_below(*n, old(self).unionfind().len()),
        ensures
            final(self).wf(),
            Self::add_post(*old(self), *final(self), *n, res),
            res.1.0 < final(self).unionfind().len(),
            final(self).unionfind().len() >= old(self).unionfind().len(),
            Self::keeps_equalities(old(self).unionfind(), final(self).unionfind()),
            old(self).canonical() ==> final(self).canonical(),
    {
        let (g, m) = N::canon(n, &self.uf);
        match m {
            Either::R(x) => (g, x),
            Either::L(m) => {
                let r = self.lookup_index(&m);
                proof {
                    Self::lemma_lookup_index(self.entries(), m, r);
                }
                match r {
                    Some(k) => {
                        let g2 = &self.hashcons[k].1.0;
                        let x = self.hashcons[k].1.1;
                        (N::G::compose(&g, g2), x)
                    },
                    None => {
                        let id = self.uf.next_id();
                        let s = N::mk(&m, id, &self.uf);
                        let ghost old_uf = self.uf;
                        let x = self.uf.makeset(s);
                        let ghost old_hc = self.hashcons@;
                        proof {
                                                    }
                        self.hashcons.push((m, (N::G::identity(), x)));
                        proof {
                            assert forall|p: (N::G, Id), q: (N::G, Id)|
                                p.1.0 < old_uf.len() && q.1.0 < old_uf.len() && #[trigger] old_uf.equal(p, q) implies #[trigger] self.uf.equal(
                                p,
                                q,
                            ) by {
                                Unionfind::lemma_makeset_keeps_equal(old_uf, self.uf, s, x, p, q);
                            }
                            N::lemma_children_below(m, old_uf.len());
                            N::lemma_children_below(m, self.uf.len());
                            if old(self).canonical() {
                                assert forall|i: int, k: int|
                                    #![trigger N::kids_of(self.entries()[i].0)[k]]
                                    0 <= i < self.entries().len() && 0 <= k < N::kids_of(
                                        self.entries()[i].0,
                                    ).len() implies self.unionfind().is_root(
                                    N::kids_of(self.entries()[i].0)[k].1.0 as nat,
                                ) by {
                                    let e = self.entries()[i].0;
                                    N::lemma_children_below(e, old_uf.len());
                                    if i < old_hc.len() {
                                        assert(self.entries()[i] == old_hc[i]);
                                        assert(old_uf.is_root(N::kids_of(e)[k].1.0 as nat));
                                    } else {
                                        assert(e == m);
                                        assert(old_uf.is_root(N::kids_of(e)[k].1.0 as nat));
                                    }
                                    let c = N::kids_of(e)[k].1.0 as nat;
                                    assert(self.uf.parent(c) == old_uf.parent(c));
                                }
                            }
                            assert forall|i: int| 0 <= i < self.entries().len() implies N::children_below(
                                (#[trigger] self.entries()[i]).0,
                                self.unionfind().len(),
                            ) && self.entries()[i].1.1.0 < self.unionfind().len() by {
                                if i < old_hc.len() {
                                    assert(self.entries()[i] == old_hc[i]);
                                    N::lemma_children_below(old_hc[i].0, old_uf.len());
                                    N::lemma_children_below(old_hc[i].0, self.uf.len());
                                                                    }
                            }
                        }
                        (g, x)
                    },
                }
            },
        }
    }

    /// Whether `g1*x1 == g2*x2` is known.
    pub fn is_equal(&self, x1: (N::G, Id), x2: (N::G, Id)) -> (res: bool)
        requires
            self.wf(),
            x1.1.0 < self.unionfind().len(),
            x2.1.0 < self.unionfind().len(),
        ensures
            res == self.unionfind().equal(x1, x2),
    {
        self.uf.is_equal(x1, x2)
    }

    /// The root of `g*x`, with the accumulated group element.
    pub fn find(&self, x: (N::G, Id)) -> (res: (N::G, Id))
        requires
            self.wf(),
            x.1.0 < self.unionfind().len(),
        ensures
            res.0@ == self.unionfind().find_from(x.0@, x.1.0 as nat).0,
            res.1 == self.unionfind().find_from(x.0@, x.1.0 as nat).1,
    {
        self.uf.find(x)
    }

    /// With `x1` and `x2` found as `g1*r` and `g2*r` from a common root `r`:
    /// `g1⁻¹*g2`; `None` when their roots differ.
    pub fn get_g_between(&self, x1: (N::G, Id), x2: (N::G, Id)) -> (res: Option<N::G>)
        requires
            self.wf(),
            x1.1.0 < self.unionfind().len(),
            x2.1.0 < self.unionfind().len(),
        ensures
            res is Some <==> self.unionfind().find_from(x1.0@, x1.1.0 as nat).1
                == self.unionfind().find_from(x2.0@, x2.1.0 as nat).1,
            res matches Some(g) ==> g@ == self.unionfind().g_between(x1, x2),
    {
        self.uf.get_g_between(x1, x2)
    }

    /// Stores the e-node `n` under `gx` (so that `n == gx.0*gx.1`) as it
    /// is, without putting it into canonical form.
    pub fn insert_node(&mut self, n: N::L, gx: (N::G, Id))
        requires
            old(self).wf(),
            N::children_below(n, old(self).unionfind().len()),
            gx.1.0 < old(self).unionfind().len(),
        ensures
            final(self).wf(),
            final(self).unionfind() == old(self).unionfind(),
            final(self).entries() == old(self).entries().push((n, gx)),
            old(self).canonical() && (forall|k: int|
                0 <= k < N::kids_of(n).len() ==> old(self).unionfind().is_root(
                    (#[trigger] N::kids_of(n)[k]).1.0 as nat,
                )) ==> final(self).canonical(),
    {
        let ghost e0 = self.entries();
        let ghost nn = n;
        self.hashcons.push((n, gx));
        proof {
            assert forall|j: int| 0 <= j < self.entries().len() implies N::children_below(
                (#[trigger] self.entries()[j]).0,
                self.unionfind().len(),
            ) && self.entries()[j].1.1.0 < self.unionfind().len() by {
                if j < e0.len() {
                    assert(self.entries()[j] == e0[j]);
                }
            }
            if old(self).canonical() && (forall|k: int|
                0 <= k < N::kids_of(nn).len() ==> old(self).unionfind().is_root(
                    (#[trigger] N::kids_of(nn)[k]).1.0 as nat,
                )) {
                assert forall|i: int, k: int|
                    #![trigger N::kids_of(self.entries()[i].0)[k]]
                    0 <= i < self.entries().len() && 0 <= k < N::kids_of(self.entries()[i].0).len()
                        implies self.unionfind().is_root(N::kids_of(self.entries()[i].0)[k].1.0 as nat) by {
                    if i < e0.len() {
                        assert(self.entries()[i] == e0[i]);
                    }
                }
            }
        }
    }

    /// The union-find of the e-graph.
    pub fn uf(&self) -> (res: &Unionfind<N::S>)
        ensures
            *res == self.unionfind(),
    {
        &self.uf
    }

    /// The e-classes (the roots of the union-find), in increasing order.
    pub fn classes(&self) -> (res: Vec<Id>)
        requires
            self.wf(),
        ensures
            forall|k: int|
                0 <= k < res@.len() ==> (#[trigger] res@[k]).0 < self.unionfind().len()
                    && self.unionfind().is_root(res@[k].0 as nat),
            forall|i: nat|
                i < self.unionfind().len() && self.unionfind().is_root(i) ==> res@.contains(
                    Id(i as usize),
                ),
            forall|k1: int, k2: int| 0 <= k1 < k2 < res@.len() ==> res@[k1].0 < res@[k2].0,
    {
        self.uf.classes()
    }

    /// The e-nodes stored under `x`, each as `(g, n)` with `x == g*n`.
    pub open spec fn bare_nodes(entries: Seq<(N::L, (N::G, Id))>, x: Id) -> Seq<
        (<N::G as View>::V, N::L),
    >
        decreases entries.len(),
    {
        if entries.len() == 0 {
            Seq::empty()
        } else {
            let rest = Self::bare_nodes(entries.drop_last(), x);
            let e = entries.last();
            if e.1.1 == x {
                rest.push((N::G::inv(e.1.0@), e.0))
            } else {
                rest
            }
        }
    }

    /// The e-nodes stored under the root `x`, each as `(g, n)` with `x == g*n`,
    /// in the order of the hashcons.
    pub fn nodes_of_bare(&self, x: Id) -> (res: Vec<(N::G, N::L)>)
        requires
            self.wf(),
            x.0 < self.unionfind().len(),
            self.unionfind().is_root(x.0 as nat),
        ensures
            res@.len() == Self::bare_nodes(self.entries(), x).len(),
            forall|k: int|
                0 <= k < res@.len() ==> (#[trigger] res@[k]).0@ == Self::bare_nodes(
                    self.entries(),
                    x,
                )[k].0 && res@[k].1 == Self::bare_nodes(self.entries(), x)[k].1,
    {
        let mut out: Vec<(N::G, N::L)> = Vec::new();
        let mut i: usize = 0;
        while i < self.hashcons.len()
            invariant
                i <= self.entries().len(),
                self.entries() == self.hashcons@,
                out@.len() == Self::bare_nodes(self.entries().take(i as int), x).len(),
                forall|k: int|
                    0 <= k < out@.len() ==> (#[trigger] out@[k]).0@ == Self::bare_nodes(
                        self.entries().take(i as int),
                        x,
                    )[k].0 && out@[k].1 == Self::bare_nodes(self.entries().take(i as int), x)[k].1,
            decreases self.hashcons.len() - i,
        {
            let ghost before = self.entries().take(i as int);
            assert(self.entries().take(i + 1).drop_last() == before);
            let (n, (g, y)) = &self.hashcons[i];
            if y.0 == x.0 {
                out.push((g.inverse(), N::dup_node(n)));
            }
            i += 1;
        }
        assert(self.entries().take(i as int) == self.entries());
        out
    }

    /// The e-nodes of `g*x` for a root `x`, each as `(g', n)` with `g*x == g'*n`.
    pub fn nodes_of(&self, gx: (N::G, Id)) -> (res: Vec<(N::G, N::L)>)
        requires
            self.wf(),
            gx.1.0 < self.unionfind().len(),
            self.unionfind().is_root(gx.1.0 as nat),
        ensures
            res@.len() == Self::bare_nodes(self.entries(), gx.1).len(),
            forall|k: int|
                0 <= k < res@.len() ==> (#[trigger] res@[k]).0@ == N::G::op(
                    gx.0@,
                    Self::bare_nodes(self.entries(), gx.1)[k].0,
                ) && res@[k].1 == Self::bare_nodes(self.entries(), gx.1)[k].1,
    {
        let (g, x) = gx;
        let bare = self.nodes_of_bare(x);
        let mut out: Vec<(N::G, N::L)> = Vec::new();
        let mut i: usize = 0;
        while i < bare.len()
            invariant
                i <= bare@.len(),
                out@.len() == i,
                forall|k: int|
                    0 <= k < i ==> (#[trigger] out@[k]).0@ == N::G::op(g@, bare@[k].0@)
                        && out@[k].1 == bare@[k].1,
            decreases bare.len() - i,
        {
            let (g2, n) = &bare[i];
            out.push((N::G::compose(&g, g2), N::dup_node(n)));
            i += 1;
        }
        out
    }

    /// Every equality known in `old` is known in `new`.
    pub open spec fn keeps_equalities(old: Unionfind<N::S>, new: Unionfind<N::S>) -> bool {
        forall|a: (N::G, Id), b: (N::G, Id)|
            a.1.0 < old.len() && b.1.0 < old.len() && #[trigger] old.equal(a, b) ==> #[trigger] new.equal(
                a,
                b,
            )
    }

    /// Restoring the entry `e` is refused outright in `uf`: the data of its
    /// canonical form cannot be merged into its e-class, or the e-class that
    /// it canonicalizes to cannot be unioned with it.
    pub open spec fn refused_now(uf: Unionfind<N::S>, e: (N::L, (N::G, Id))) -> bool {
        let (n, (g, x)) = e;
        let (g2, m) = N::canon_spec(n, uf);
        match m {
            Either::L(m) => !uf.data(x.0 as nat).mergeable(
                N::S::acted(N::G::inv(N::G::op(N::G::inv(g2), g@)), N::mk_spec(m, x, uf)),
            ),
            Either::R(z) => !uf.union_ok_v(g@, x, g2, z),
        }
    }

    /// Restoring the entry `e` from the union-find `before` merged the data
    /// of its canonical form `m` into its e-class (giving `uf`), and then the
    /// union of `gx` (its e-class seen from `m`) with the first of the `p`
    /// restored entries that holds `m` is refused in `uf`.
    pub open spec fn refused_after_merge(
        uf: Unionfind<N::S>,
        entries: Seq<(N::L, (N::G, Id))>,
        e: (N::L, (N::G, Id)),
        before: Unionfind<N::S>,
        gx: (N::G, Id),
        changed: bool,
        p: int,
    ) -> bool {
        let (n, (g, x)) = e;
        let (g2, m) = N::canon_spec(n, before);
        &&& before.wf()
        &&& 0 <= p <= entries.len()
        &&& gx.1 == x
        &&& gx.0@ == N::G::op(N::G::inv(g2), g@)
        &&& match m {
            Either::L(m) => {
                &&& Unionfind::merge_post(before, uf, gx, N::mk_spec(m, x, before), changed)
                &&& match Self::lookup_spec(entries.take(p), m) {
                    Some(k) => !uf.union_ok_v(entries[k].1.0@, entries[k].1.1, gx.0@, gx.1),
                    None => false,
                }
            },
            Either::R(_) => false,
        }
    }

    /// Restoring the entry `e` of the hashcons `entries` is refused by `uf`.
    pub open spec fn refused(uf: Unionfind<N::S>, entries: Seq<(N::L, (N::G, Id))>, e: (N::L, (N::G, Id))) -> bool {
        ||| Self::refused_now(uf, e)
        ||| exists|before: Unionfind<N::S>, gx: (N::G, Id), changed: bool, p: int|
            #[trigger] Self::refused_after_merge(uf, entries, e, before, gx, changed, p)
    }

    /// Some entry of the hashcons cannot be restored.
    pub open spec fn some_refused(&self) -> bool {
        exists|k: int|
            0 <= k < self.entries().len() && Self::refused(self.unionfind(), self.entries(), #[trigger] self.entries()[k])
    }

    /// Puts the entries `rest[i..]` back at the end of the hashcons.
    fn restore(&mut self, rest: &Vec<(N::L, (N::G, Id))>, i: usize)
        requires
            old(self).wf(),
            i <= rest@.len(),
            forall|j: int|
                0 <= j < rest@.len() ==> N::children_below((#[trigger] rest@[j]).0, old(self).unionfind().len())
                    && rest@[j].1.1.0 < old(self).unionfind().len(),
        ensures
            final(self).wf(),
            final(self).unionfind() == old(self).unionfind(),
            final(self).entries().len() == old(self).entries().len() + rest@.len() - i,
            forall|j: int| 0 <= j < old(self).entries().len() ==> #[trigger] final(self).entries()[j] == old(self).entries()[j],
            forall|j: int|
                i <= j < rest@.len() ==> (#[trigger] final(self).entries()[old(self).entries().len() + j - i]).0
                    == rest@[j].0 && final(self).entries()[old(self).entries().len() + j - i].1.0@ == rest@[j].1.0@
                    && final(self).entries()[old(self).entries().len() + j - i].1.1 == rest@[j].1.1,
            i < rest@.len() ==> final(self).entries()[old(self).entries().len() as int].0 == rest@[i as int].0
                && final(self).entries()[old(self).entries().len() as int].1.0@ == rest@[i as int].1.0@
                && final(self).entries()[old(self).entries().len() as int].1.1 == rest@[i as int].1.1,
    {
        let ghost len = self.uf.len();
        let ghost e0 = self.entries();
        let mut j: usize = i;
        while j < rest.len()
            invariant
                i <= j <= rest@.len(),
                self.uf == old(self).unionfind(),
                self.uf.len() == len,
                self.uf.wf(),
                self.entries().len() == e0.len() + j - i,
                forall|q: int| 0 <= q < e0.len() ==> #[trigger] self.entries()[q] == e0[q],
                forall|q: int|
                    i <= q < j ==> (#[trigger] self.entries()[e0.len() + q - i]).0 == rest@[q].0
                        && self.entries()[e0.len() + q - i].1.0@ == rest@[q].1.0@
                        && self.entries()[e0.len() + q - i].1.1 == rest@[q].1.1,
                forall|q: int|
                    0 <= q < self.entries().len() ==> N::children_below((#[trigger] self.entries()[q]).0, len)
                        && self.entries()[q].1.1.0 < len,
                forall|q: int|
                    0 <= q < rest@.len() ==> N::children_below((#[trigger] rest@[q]).0, len) && rest@[q].1.1.0 < len,
            decreases rest.len() - j,
        {
            let (n, (g, x)) = &rest[j];
            let ghost before = self.entries();
            self.hashcons.push((N::dup_node(n), (g.duplicate(), *x)));
            proof {
                assert forall|q: int| 0 <= q < e0.len() implies #[trigger] self.entries()[q] == e0[q] by {
                    assert(self.entries()[q] == before[q]);
                }
                assert forall|q: int|
                    i <= q < j + 1 implies (#[trigger] self.entries()[e0.len() + q - i]).0 == rest@[q].0
                        && self.entries()[e0.len() + q - i].1.0@ == rest@[q].1.0@
                        && self.entries()[e0.len() + q - i].1.1 == rest@[q].1.1 by {
                    if q < j {
                        assert(self.entries()[e0.len() + q - i] == before[e0.len() + q - i]);
                    }
                }
                assert forall|q: int| 0 <= q < self.entries().len() implies N::children_below(
                    (#[trigger] self.entries()[q]).0,
                    len,
                ) && self.entries()[q].1.1.0 < len by {
                    if q < before.len() {
                        assert(self.entries()[q] == before[q]);
                    }
                }
            }
            j += 1;
        }
        proof {
            self.lemma_wf_same_size(self.entries(), len);
            if i < rest@.len() {
                let q = i as int;
                assert(self.entries()[e0.len() + q - i] == self.entries()[e0.len() as int]);
            }
        }
    }

    /// Records `x == y` and restores the hashcons; the e-graph then knows
    /// `x == y` and everything it knew before.
    ///
    /// `Err` when the union-find refuses the union (the data of the two
    /// e-classes cannot be joined), with nothing changed, or when restoring
    /// the hashcons meets such a refusal (see `rebuild`).
    pub fn union(&mut self, x: (N::G, Id), y: (N::G, Id)) -> (res: Result<(), Contradiction>)
        where N::S: SemilatticeLaws, N::G: GroupLaws,
        requires
            old(self).wf(),
            x.1.0 < old(self).unionfind().len(),
            y.1.0 < old(self).unionfind().len(),
        ensures
            final(self).wf(),
            final(self).unionfind().len() == old(self).unionfind().len(),
            Self::keeps_equalities(old(self).unionfind(), final(self).unionfind()),
            !old(self).unionfind().union_ok(x, y) ==> res is Err && *final(self) == *old(self),
            old(self).unionfind().union_ok(x, y) ==> final(self).unionfind().equal(x, y),
            old(self).unionfind().union_ok(x, y) && res is Err ==> final(self).some_refused(),
            res is Ok ==> final(self).canonical(),
    {
        if !self.uf.can_union((x.0.duplicate(), x.1), (y.0.duplicate(), y.1)) {
            return Err(Contradiction);
        }
        let ghost old_uf = self.uf;
        let ghost e0 = self.entries();
        let changed = self.uf.union((x.0.duplicate(), x.1), (y.0.duplicate(), y.1));
        proof {
            self.lemma_wf_same_size(e0, old_uf.len());
            Unionfind::lemma_union_then_equal(old_uf, self.uf, x, y, changed);
            assert forall|a: (N::G, Id), b: (N::G, Id)|
                a.1.0 < old_uf.len() && b.1.0 < old_uf.len() && #[trigger] old_uf.equal(a, b) implies #[trigger] self.uf.equal(
                a,
                b,
            ) by {
                Unionfind::lemma_union_keeps_equal(old_uf, self.uf, x, y, changed, a, b);
            }
        }
        let ghost mid = self.uf;
        let r = self.rebuild();
        proof {
            assert(mid.equal(x, y));
            Self::lemma_keeps_trans(old_uf, mid, self.uf);
        }
        r
    }

    /// Restores the hashcons after unions: every e-node is put into
    /// canonical form again, the data it gives is merged into its e-class,
    /// and e-nodes that became the same are unioned; this repeats until a
    /// pass changes nothing. `Err` when a merge or a union is refused: the
    /// entries not yet restored are then put back, and one of them is
    /// `refused` by the union-find left.
    pub fn rebuild(&mut self) -> (res: Result<(), Contradiction>)
        where N::S: SemilatticeLaws, N::G: GroupLaws,
        requires
            old(self).wf(),
        ensures
            final(self).wf(),
            final(self).unionfind().len() == old(self).unionfind().len(),
            Self::keeps_equalities(old(self).unionfind(), final(self).unionfind()),
            res is Ok ==> final(self).canonical(),
            res is Err ==> final(self).some_refused(),
    {
        let ghost len = self.uf.len();
        loop
            invariant
                self.wf(),
                self.uf.len() == len,
                len == old(self).unionfind().len(),
                Self::keeps_equalities(old(self).unionfind(), self.uf),
            decreases self.uf.potential(),
        {
            let mut old_hc: Vec<(N::L, (N::G, Id))> = Vec::new();
            let ghost prev = self.entries();
            core::mem::swap(&mut old_hc, &mut self.hashcons);
            proof {
                assert(old_hc@ == prev);
            }
            let ghost start = self.uf;
            let mut dirty = false;
            let mut i: usize = 0;
            while i < old_hc.len()
                invariant
                    self.wf(),
                    self.uf.len() == len,
                    len == old(self).unionfind().len(),
                    Self::keeps_equalities(old(self).unionfind(), self.uf),
                    forall|j: int|
                        0 <= j < old_hc@.len() ==> N::children_below((#[trigger] old_hc@[j]).0, len)
                            && old_hc@[j].1.1.0 < len,
                    dirty ==> self.uf.potential() < start.potential(),
                    !dirty ==> self.uf.potential() == start.potential(),
                    !dirty ==> self.canonical(),
                decreases old_hc.len() - i,
            {
                let (n, (g, x)) = &old_hc[i];
                let x = *x;
                let (g2, m) = N::canon(n, &self.uf);
                match m {
                    Either::L(m) => {
                        let gn = N::G::compose(&g2.inverse(), g);
                        let s = N::mk(&m, x, &self.uf);
                        if !self.uf.can_merge_s(&(gn.duplicate(), x), &s) {
                            let ghost p = self.entries().len();
                            self.restore(&old_hc, i);
                            proof {
                                let e = self.entries()[p as int];
                                assert(e.0 == *n);
                                assert(e.1.0@ == g@ && e.1.1 == x);
                                assert(Self::refused_now(self.uf, e));
                                assert(Self::refused(self.uf, self.entries(), self.entries()[p as int]));
                            }
                            return Err(Contradiction);
                        }
                        let ghost before = self.uf;
                        let gxe = (gn.duplicate(), x);
                        let ghost gx = gxe;
                        let ghost sg = s;
                        let ghost e0 = self.entries();
                        let changed = self.uf.merge_s(gxe, s);
                        proof {
                            self.lemma_wf_same_size(e0, len);
                            Unionfind::lemma_merge_potential(before, self.uf, gx, sg, changed);
                            assert forall|a: (N::G, Id), b: (N::G, Id)|
                                a.1.0 < len && b.1.0 < len && #[trigger] before.equal(a, b) implies #[trigger] self.uf.equal(
                                a,
                                b,
                            ) by {
                                Unionfind::lemma_merge_keeps_equal(before, self.uf, gx, sg, changed, a, b);
                            }
                            Self::lemma_keeps_trans(old(self).unionfind(), before, self.uf);
                            if !dirty {
                                self.lemma_canonical_same_parents(before, e0);
                            }
                            N::lemma_children_below(m, len);
                            assert forall|k: int| 0 <= k < N::kids_of(m).len() implies self.uf.is_root(
                                (#[trigger] N::kids_of(m)[k]).1.0 as nat,
                            ) by {
                                let c = N::kids_of(m)[k].1.0 as nat;
                                assert(before.is_root(c));
                                assert(self.uf.parent(c) == before.parent(c));
                            }
                        }
                        dirty = dirty || changed;
                        match self.lookup_index(&m) {
                            Some(k) => {
                                let g3 = self.hashcons[k].1.0.duplicate();
                                let x3 = self.hashcons[k].1.1;
                                let ghost before2 = self.uf;
                                let ghost e1 = self.entries();
                                let ghost g3v = self.entries()[k as int].1.0@;
                                proof {
                                    Self::lemma_lookup_index(e1, m, Some(k));
                                }
                                let r = self.union_no_rebuild((g3, x3), (gn, x));
                                proof {
                                    Self::lemma_keeps_trans(old(self).unionfind(), before2, self.uf);
                                    if !dirty && r == Ok::<bool, Contradiction>(false) {
                                        self.lemma_canonical_same_parents(before2, e1);
                                    }
                                }
                                match r {
                                    Ok(changed) => {
                                        dirty = dirty || changed;
                                    },
                                    Err(e) => {
                                        let ghost p = self.entries().len();
                                        self.restore(&old_hc, i);
                                        proof {
                                            let en = self.entries();
                                            let ee = en[p as int];
                                            assert(ee.0 == *n);
                                            assert(en.take(p as int) =~= e1);
                                            assert(en[k as int] == e1[k as int]);
                                            assert(Self::refused_after_merge(self.uf, en, ee, before, gx, changed, p as int));
                                            assert(Self::refused(self.uf, en, en[p as int]));
                                        }
                                        return Err(e);
                                    },
                                }
                            },
                            None => {
                                let ghost old_entries = self.hashcons@;
                                let ghost mm = m;
                                self.hashcons.push((m, (gn, x)));
                                proof {
                                    if !dirty {
                                        assert forall|i: int, k: int|
                                            #![trigger N::kids_of(self.entries()[i].0)[k]]
                                            0 <= i < self.entries().len() && 0 <= k < N::kids_of(
                                                self.entries()[i].0,
                                            ).len() implies self.unionfind().is_root(
                                            N::kids_of(self.entries()[i].0)[k].1.0 as nat,
                                        ) by {
                                            if i < old_entries.len() {
                                                assert(self.entries()[i] == old_entries[i]);
                                            } else {
                                                assert(self.entries()[i].0 == mm);
                                            }
                                        }
                                    }
                                    assert forall|j: int| 0 <= j < self.entries().len() implies N::children_below(
                                        (#[trigger] self.entries()[j]).0,
                                        self.unionfind().len(),
                                    ) && self.entries()[j].1.1.0 < self.unionfind().len() by {
                                        if j < old_entries.len() {
                                            assert(self.entries()[j] == old_entries[j]);
                                        }
                                    }
                                }
                            },
                        }
                    },
                    Either::R(z) => {
                        let ghost before = self.uf;
                        let ghost e1 = self.entries();
                        let r = self.union_no_rebuild((g.duplicate(), x), (g2, z));
                        proof {
                            Self::lemma_keeps_trans(old(self).unionfind(), before, self.uf);
                            if !dirty && r == Ok::<bool, Contradiction>(false) {
                                self.lemma_canonical_same_parents(before, e1);
                            }
                        }
                        match r {
                            Ok(changed) => {
                                dirty = dirty || changed;
                            },
                            Err(e) => {
                                let ghost p = self.entries().len();
                                self.restore(&old_hc, i);
                                proof {
                                    let ee = self.entries()[p as int];
                                    assert(ee.0 == *n);
                                    assert(Self::refused_now(self.uf, ee));
                                    assert(Self::refused(self.uf, self.entries(), self.entries()[p as int]));
                                }
                                return Err(e);
                            },
                        }
                    },
                }
                i += 1;
            }
            if !dirty {
                return Ok(());
            }
        }
    }

    /// Records `a == b` in the union-find without restoring the hashcons;
    /// `Err`, with nothing changed, where the union-find refuses it.
    pub fn union_no_rebuild(&mut self, a: (N::G, Id), b: (N::G, Id)) -> (res: Result<bool, Contradiction>)
        where N::S: SemilatticeLaws, N::G: GroupLaws,
        requires
            old(self).wf(),
            a.1.0 < old(self).unionfind().len(),
            b.1.0 < old(self).unionfind().len(),
        ensures
            final(self).wf(),
            final(self).entries() == old(self).entries(),
            final(self).unionfind().len() == old(self).unionfind().len(),
            Self::keeps_equalities(old(self).unionfind(), final(self).unionfind()),
            res matches Ok(changed) && changed ==> final(self).unionfind().potential() < old(
                self,
            ).unionfind().potential(),
            res matches Ok(changed) && !changed ==> final(self).unionfind().potential() == old(
                self,
            ).unionfind().potential(),
            res matches Ok(changed) && !changed ==> forall|i: nat|
                i < old(self).unionfind().len() ==> final(self).unionfind().parent(i) == old(
                    self,
                ).unionfind().parent(i),
            res is Err <==> !old(self).unionfind().union_ok(a, b),
            res is Err ==> *final(self) == *old(self),
            res matches Ok(changed) ==> Unionfind::union_post(
                old(self).unionfind(),
                final(self).unionfind(),
                a,
                b,
                changed,
            ),
    {
        if !self.uf.can_union((a.0.duplicate(), a.1), (b.0.duplicate(), b.1)) {
            return Err(Contradiction);
        }
        let ghost before = self.uf;
        let ghost ga = a;
        let ghost gb = b;
        let ghost e0 = self.entries();
        let changed = self.uf.union(a, b);
        proof {
            self.lemma_wf_same_size(e0, before.len());
            Unionfind::lemma_union_potential(before, self.uf, ga, gb, changed);
            assert forall|p: (N::G, Id), q: (N::G, Id)|
                p.1.0 < before.len() && q.1.0 < before.len() && #[trigger] before.equal(p, q) implies #[trigger] self.uf.equal(
                p,
                q,
            ) by {
                Unionfind::lemma_union_keeps_equal(before, self.uf, ga, gb, changed, p, q);
            }
        }
        Ok(changed)
    }

    /// The entries stay well formed when the union-find changes but keeps its
    /// size.
    proof fn lemma_wf_same_size(&self, entries: Seq<(N::L, (N::G, Id))>, len: nat)
        requires
            self.unionfind().wf(),
            self.entries() == entries,
            self.unionfind().len() == len,
            forall|i: int|
                0 <= i < entries.len() ==> N::children_below((#[trigger] entries[i]).0, len)
                    && entries[i].1.1.0 < len,
        ensures
            self.wf(),
    {
    }

    /// Hashconsing: where the unit is a right unit, adding an e-node a
    /// second time changes nothing and returns what the first addition
    /// returned (the same e-class, with an element of the same view).
    pub proof fn lemma_add_twice(
        e0: Self,
        e1: Self,
        e2: Self,
        n: N::L,
        r1: (N::G, Id),
        r2: (N::G, Id),
    )
        requires
            forall|a: <N::G as View>::V| #[trigger] N::G::op(a, N::G::unit()) == a,
            e0.wf(),
            e1.wf(),
            N::children_below(n, e0.unionfind().len()),
            Self::add_post(e0, e1, n, r1),
            Self::add_post(e1, e2, n, r2),
        ensures
            e2 == e1,
            r2.0@ == r1.0@,
            r2.1 == r1.1,
    {
        let (g, m) = N::canon_spec(n, e0.unionfind());
        match m {
            Either::R(x) => {},
            Either::L(m) => {
                match Self::lookup_spec(e0.entries(), m) {
                    Some(k) => {},
                    None => {
                        let old = e0.unionfind();
                        let new = e1.unionfind();
                        assert forall|i: nat| i < old.len() implies new.parent(i) == old.parent(i)
                            && new.edge(i) == old.edge(i) && new.data(i) == old.data(i) by {}
                        N::lemma_canon_stable(n, old, new);
                        let last = e0.entries().len() as int;
                        N::lemma_same_refl(m);
                        assert(e1.entries()[last] == e1.entries().last());
                        assert forall|j: int| 0 <= j < last implies !N::same(
                            #[trigger] e1.entries()[j].0,
                            m,
                        ) by {
                            assert(e1.entries()[j] == e0.entries()[j]);
                        }
                        Self::lemma_lookup_first(e1.entries(), m, last);
                        assert(N::G::op(g, N::G::unit()) == g);
                    },
                }
            },
        }
    }

    /// Each e-node stored under `x` comes from an entry of the hashcons.
    pub proof fn lemma_bare_nodes(entries: Seq<(N::L, (N::G, Id))>, x: Id, k: int)
        requires
            0 <= k < Self::bare_nodes(entries, x).len(),
        ensures
            exists|i: int|
                0 <= i < entries.len() && (#[trigger] entries[i]).0 == Self::bare_nodes(entries, x)[k].1
                    && entries[i].1.1 == x,
        decreases entries.len(),
    {
        let rest = Self::bare_nodes(entries.drop_last(), x);
        if k < rest.len() {
            Self::lemma_bare_nodes(entries.drop_last(), x, k);
            let i = choose|i: int|
                0 <= i < entries.drop_last().len() && (#[trigger] entries.drop_last()[i]).0 == rest[k].1
                    && entries.drop_last()[i].1.1 == x;
            assert(entries[i] == entries.drop_last()[i]);
        } else {
            assert(entries[entries.len() - 1] == entries.last());
        }
    }

    /// Canonicity holds on when no leader edge changes.
    proof fn lemma_canonical_same_parents(&self, before: Unionfind<N::S>, entries: Seq<(N::L, (N::G, Id))>)
        requires
            self.wf(),
            self.entries() == entries,
            before.len() == self.unionfind().len(),
            forall|i: nat| i < before.len() ==> self.unionfind().parent(i) == before.parent(i),
            forall|i: int, k: int|
                #![trigger N::kids_of(entries[i].0)[k]]
                0 <= i < entries.len() && 0 <= k < N::kids_of(entries[i].0).len() ==> before.is_root(
                    N::kids_of(entries[i].0)[k].1.0 as nat,
                ),
        ensures
            self.canonical(),
    {
        assert forall|i: int, k: int|
            #![trigger N::kids_of(self.entries()[i].0)[k]]
            0 <= i < self.entries().len() && 0 <= k < N::kids_of(self.entries()[i].0).len()
                implies self.unionfind().is_root(N::kids_of(self.entries()[i].0)[k].1.0 as nat) by {
            N::lemma_children_below(entries[i].0, before.len());
            let c = N::kids_of(entries[i].0)[k].1.0 as nat;
            assert(before.is_root(c));
            assert(self.unionfind().parent(c) == before.parent(c));
        }
    }

    pub proof fn lemma_keeps_trans(a: Unionfind<N::S>, b: Unionfind<N::S>, c: Unionfind<N::S>)
        requires
            Self::keeps_equalities(a, b),
            Self::keeps_equalities(b, c),
            a.len() <= b.len(),
        ensures
            Self::keeps_equalities(a, c),
    {
        assert forall|p: (N::G, Id), q: (N::G, Id)|
            p.1.0 < a.len() && q.1.0 < a.len() && #[trigger] a.equal(p, q) implies #[trigger] c.equal(
            p,
            q,
        ) by {
            assert(b.equal(p, q));
        }
    }

    /// Where some entry holds `n`, the lookup finds the first such.
    pub proof fn lemma_lookup_found(entries: Seq<(N::L, (N::G, Id))>, n: N::L)
        requires
            exists|i: int| 0 <= i < entries.len() && N::same(#[trigger] entries[i].0, n),
        ensures
            Self::lookup_spec(entries, n) is Some,
            0 <= Self::lookup_spec(entries, n)->Some_0 < entries.len(),
            N::same(entries[Self::lookup_spec(entries, n)->Some_0].0, n),
            forall|j: int| 0 <= j < Self::lookup_spec(entries, n)->Some_0 ==> !N::same(#[trigger] entries[j].0, n),
        decreases entries.len(),
    {
        let d = entries.drop_last();
        if exists|i: int| 0 <= i < d.len() && N::same(#[trigger] d[i].0, n) {
            Self::lemma_lookup_found(d, n);
            let k = Self::lookup_spec(d, n)->Some_0;
            assert forall|j: int| 0 <= j < k implies !N::same(#[trigger] entries[j].0, n) by {
                assert(entries[j] == d[j]);
            }
            assert(entries[k] == d[k]);
            Self::lemma_lookup_first(entries, n, k);
        } else {
            let k = entries.len() - 1;
            assert forall|j: int| 0 <= j < k implies !N::same(#[trigger] entries[j].0, n) by {
                assert(entries[j] == d[j]);
            }
            let i = choose|i: int| 0 <= i < entries.len() && N::same(#[trigger] entries[i].0, n);
            if i < k {
                assert(entries[i] == d[i]);
            }
            Self::lemma_lookup_first(entries, n, k);
        }
    }

    pub proof fn lemma_lookup_first(entries: Seq<(N::L, (N::G, Id))>, n: N::L, k: int)
        requires
            0 <= k < entries.len(),
            N::same(entries[k].0, n),
            forall|j: int| 0 <= j < k ==> !N::same(#[trigger] entries[j].0, n),
        ensures
            Self::lookup_spec(entries, n) == Some(k),
    {
        let c = choose|i: int|
            0 <= i < entries.len() && N::same(#[trigger] entries[i].0, n) && forall|j: int|
                0 <= j < i ==> !N::same(#[trigger] entries[j].0, n);
        assert(0 <= c < entries.len() && N::same(entries[c].0, n));
        if c < k {
            assert(!N::same(entries[c].0, n));
        } else if c > k {
            assert(!N::same(entries[k].0, n));
        }
    }

    pub proof fn lemma_lookup_index(entries: Seq<(N::L, (N::G, Id))>, n: N::L, r: Option<usize>)
        requires
            match r {
                Some(k) => k < entries.len() && N::same(entries[k as int].0, n) && forall|j: int|
                    0 <= j < k ==> !N::same(#[trigger] entries[j].0, n),
                None => forall|j: int|
                    0 <= j < entries.len() ==> !N::same(#[trigger] entries[j].0, n),
            },
        ensures
            match r {
                Some(k) => Self::lookup_spec(entries, n) == Some(k as int),
                None => Self::lookup_spec(entries, n) is None,
            },
    {
        match r {
            Some(k) => {
                assert(N::same(entries[k as int].0, n));
                let c = choose|i: int|
                    0 <= i < entries.len() && N::same(#[trigger] entries[i].0, n) && forall|j: int|
                        0 <= j < i ==> !N::same(#[trigger] entries[j].0, n);
                assert(0 <= c < entries.len() && N::same(entries[c].0, n));
                if c < k {
                    assert(!N::same(entries[c].0, n));
                } else if c > k {
                    assert(!N::same(entries[k as int].0, n));
                }
            },
            None => {
            },
        }
    }
}

} // verus!
