use vstd::prelude::*;
use std::collections::HashSet;
use crate::api::Group;
use crate::assoc::{keys_sorted, assoc_map, lemma_assoc_map_push, lemma_assoc_map_dom, lemma_assoc_map_value, lemma_assoc_map_finite};

verus! {

broadcast use vstd::std_specs::hash::group_hash_axioms;

pub type Slot = usize;

/// Where a slot map sends `x`: slots outside its map stay in place.
pub open spec fn apply(m: Map<Slot, Slot>, x: Slot) -> Slot {
    if m.dom().contains(x) {
        m[x]
    } else {
        x
    }
}

/// A permutation of finitely many slots, listed without its fixed points.
#[verifier::opaque]
pub open spec fn is_perm_map(m: Map<Slot, Slot>) -> bool {
    &&& m.dom().finite()
    &&& forall|x: Slot| #[trigger] m.dom().contains(x) ==> m[x] != x && m.dom().contains(m[x])
    &&& forall|x: Slot, y: Slot|
        #[trigger] m.dom().contains(x) && #[trigger] m.dom().contains(y) && x != y ==> m[x] != m[y]
    &&& forall|y: Slot| #[trigger] m.dom().contains(y) ==> exists|x: Slot| m.dom().contains(x) && m[x] == y
}

pub proof fn lemma_perm_elim(m: Map<Slot, Slot>)
    requires
        is_perm_map(m),
    ensures
        m.dom().finite(),
        forall|x: Slot| #[trigger] m.dom().contains(x) ==> m[x] != x && m.dom().contains(m[x]),
        forall|x: Slot, y: Slot|
            #[trigger] m.dom().contains(x) && #[trigger] m.dom().contains(y) && x != y ==> m[x] != m[y],
        forall|y: Slot| #[trigger] m.dom().contains(y) ==> exists|x: Slot| m.dom().contains(x) && m[x] == y,
{
    reveal(is_perm_map);
}

pub proof fn lemma_perm_intro(m: Map<Slot, Slot>)
    requires
        m.dom().finite(),
        forall|x: Slot| #[trigger] m.dom().contains(x) ==> m[x] != x && m.dom().contains(m[x]),
        forall|x: Slot, y: Slot|
            #[trigger] m.dom().contains(x) && #[trigger] m.dom().contains(y) && x != y ==> m[x] != m[y],
        forall|y: Slot| #[trigger] m.dom().contains(y) ==> exists|x: Slot| m.dom().contains(x) && m[x] == y,
    ensures
        is_perm_map(m),
{
    reveal(is_perm_map);
}

/// The map of the pairs of `s` that are not fixed points.
pub open spec fn pairs_map(s: Seq<(Slot, Slot)>) -> Map<Slot, Slot>
    decreases s.len(),
{
    if s.len() == 0 {
        Map::empty()
    } else if s.last().0 != s.last().1 {
        pairs_map(s.drop_last()).insert(s.last().0, s.last().1)
    } else {
        pairs_map(s.drop_last())
    }
}

/// What `SlotMap::mk` accepts: the pairs that are not fixed points have
/// distinct keys and form a permutation.
pub open spec fn perm_input(s: Seq<(Slot, Slot)>) -> bool {
    &&& forall|i: int, j: int|
        0 <= i < j < s.len() && s[i].0 != s[i].1 && s[j].0 != s[j].1 ==> s[i].0 != s[j].0
    &&& is_perm_map(pairs_map(s))
}

/// `l` after `r`, without fixed points.
pub open spec fn compose_map(l: Map<Slot, Slot>, r: Map<Slot, Slot>) -> Map<Slot, Slot> {
    Map::new(
        |x: Slot| (l.dom().contains(x) || r.dom().contains(x)) && apply(l, apply(r, x)) != x,
        |x: Slot| apply(l, apply(r, x)),
    )
}

/// The inverse permutation.
pub open spec fn inverse_map(m: Map<Slot, Slot>) -> Map<Slot, Slot> {
    Map::new(
        |y: Slot| m.dom().contains(y),
        |y: Slot| choose|x: Slot| m.dom().contains(x) && m[x] == y,
    )
}

/// A bijection between slots that moves finitely many of them, stored as the
/// pairs that are not fixed points, sorted by key. Its key and value sets
/// are equal: the support.
pub struct SlotMap {
    v: Vec<(Slot, Slot)>,
}

impl View for SlotMap {
    type V = Map<Slot, Slot>;

    closed spec fn view(&self) -> Map<Slot, Slot> {
        assoc_map(self.v@)
    }
}

pub proof fn lemma_pairs_map_dom(s: Seq<(Slot, Slot)>, k: Slot)
    ensures
        pairs_map(s).dom().contains(k) <==> exists|i: int| 0 <= i < s.len() && s[i].0 == k && s[i].0 != s[i].1,
    decreases s.len(),
{
    if s.len() > 0 {
        lemma_pairs_map_dom(s.drop_last(), k);
        if exists|i: int| 0 <= i < s.len() && s[i].0 == k && s[i].0 != s[i].1 {
            let i = choose|i: int| 0 <= i < s.len() && s[i].0 == k && s[i].0 != s[i].1;
            if i < s.len() - 1 {
                assert(s.drop_last()[i] == s[i]);
            }
        }
        if exists|i: int| 0 <= i < s.len() - 1 && s.drop_last()[i].0 == k && s.drop_last()[i].0 != s.drop_last()[i].1 {
            let i = choose|i: int| 0 <= i < s.len() - 1 && s.drop_last()[i].0 == k && s.drop_last()[i].0 != s.drop_last()[i].1;
            assert(s[i] == s.drop_last()[i]);
        }
    }
}

/// Inserting a new key at its sorted position.
pub proof fn lemma_sorted_insert(s: Seq<(Slot, Slot)>, p: int, e: (Slot, Slot))
    requires
        keys_sorted(s),
        0 <= p <= s.len(),
        forall|i: int| 0 <= i < p ==> s[i].0 < e.0,
        forall|i: int| p <= i < s.len() ==> s[i].0 > e.0,
    ensures
        keys_sorted(s.insert(p, e)),
        assoc_map(s.insert(p, e)) == assoc_map(s).insert(e.0, e.1),
{
    let t = s.insert(p, e);
    assert forall|i: int| 0 <= i < t.len() implies #[trigger] t[i] == (if i < p { s[i] } else if i == p { e } else { s[i - 1] }) by {}
    assert(keys_sorted(t));
    assert forall|k: Slot| assoc_map(t).dom().contains(k) <==> assoc_map(s).insert(e.0, e.1).dom().contains(k) by {
        lemma_assoc_map_dom(t, k);
        lemma_assoc_map_dom(s, k);
        if exists|i: int| 0 <= i < s.len() && s[i].0 == k {
            let i = choose|i: int| 0 <= i < s.len() && s[i].0 == k;
            if i < p { assert(t[i] == s[i]); } else { assert(t[i + 1] == s[i]); }
        }
        if k == e.0 {
            assert(t[p] == e);
        }
    }
    assert forall|k: Slot| #[trigger] assoc_map(t).dom().contains(k) implies assoc_map(t)[k] == assoc_map(s).insert(e.0, e.1)[k] by {
        lemma_assoc_map_dom(t, k);
        let i = choose|i: int| 0 <= i < t.len() && t[i].0 == k;
        lemma_assoc_map_value(t, i);
        if i < p { lemma_assoc_map_value(s, i); } else if i > p { lemma_assoc_map_value(s, i - 1); }
    }
    assert(assoc_map(t) =~= assoc_map(s).insert(e.0, e.1));
}

/// A permutation is injective as a total function on slots.
pub proof fn lemma_apply_injective(m: Map<Slot, Slot>, a: Slot, b: Slot)
    requires
        is_perm_map(m),
        a != b,
    ensures
        apply(m, a) != apply(m, b),
{
    lemma_perm_elim(m);
    if m.dom().contains(a) && !m.dom().contains(b) {
        assert(m.dom().contains(m[a]));
    }
    if !m.dom().contains(a) && m.dom().contains(b) {
        assert(m.dom().contains(m[b]));
    }
}

/// Where `compose_map(l, r)` sends a slot: where `r` sends it, then `l`.
pub proof fn lemma_compose_apply(l: Map<Slot, Slot>, r: Map<Slot, Slot>, x: Slot)
    ensures
        apply(compose_map(l, r), x) == apply(l, apply(r, x)),
{
}

proof fn lemma_compose_closed(l: Map<Slot, Slot>, r: Map<Slot, Slot>, x: Slot)
    requires
        is_perm_map(l),
        is_perm_map(r),
        compose_map(l, r).dom().contains(x),
    ensures
        compose_map(l, r).dom().contains(compose_map(l, r)[x]),
{
    lemma_perm_elim(l);
    lemma_perm_elim(r);
    let c = compose_map(l, r);
    let y = c[x];
    if r.dom().contains(x) {
        if l.dom().contains(r[x]) {
            assert(l.dom().contains(l[r[x]]));
        } else {
            assert(r.dom().contains(r[x]));
        }
    } else {
        assert(l.dom().contains(l[x]));
    }
    lemma_apply_injective(r, x, y);
    lemma_apply_injective(l, apply(r, x), apply(r, y));
}

proof fn lemma_compose_onto(l: Map<Slot, Slot>, r: Map<Slot, Slot>, y: Slot)
    requires
        is_perm_map(l),
        is_perm_map(r),
        compose_map(l, r).dom().contains(y),
    ensures
        exists|x: Slot| compose_map(l, r).dom().contains(x) && compose_map(l, r)[x] == y,
{
    lemma_perm_elim(l);
    lemma_perm_elim(r);
    let c = compose_map(l, r);
    let ly = if l.dom().contains(y) {
        choose|z: Slot| l.dom().contains(z) && l[z] == y
    } else {
        y
    };
    let x = if r.dom().contains(ly) {
        choose|z: Slot| r.dom().contains(z) && r[z] == ly
    } else {
        ly
    };
    assert(apply(l, apply(r, x)) == y);
    assert(c.dom().contains(x));
    assert(c[x] == y);
}

/// The composition of two permutations is one.
pub proof fn lemma_compose_perm(l: Map<Slot, Slot>, r: Map<Slot, Slot>)
    requires
        is_perm_map(l),
        is_perm_map(r),
    ensures
        is_perm_map(compose_map(l, r)),
        forall|x: Slot| #[trigger] apply(compose_map(l, r), x) == apply(l, apply(r, x)),
{
    lemma_perm_elim(l);
    lemma_perm_elim(r);
    let c = compose_map(l, r);
    assert(c.dom() =~= l.dom().union(r.dom()).filter(|x: Slot| apply(l, apply(r, x)) != x));
    assert(c.dom().finite()) by {
        vstd::set_lib::lemma_set_union_finite_iff(l.dom(), r.dom());
        l.dom().union(r.dom()).lemma_len_filter(|x: Slot| apply(l, apply(r, x)) != x);
    }
    assert forall|x: Slot| #[trigger] c.dom().contains(x) implies c[x] != x && c.dom().contains(c[x]) by {
        lemma_compose_closed(l, r, x);
    }
    assert forall|x: Slot, y: Slot|
        #[trigger] c.dom().contains(x) && #[trigger] c.dom().contains(y) && x != y implies c[x] != c[y] by {
        lemma_apply_injective(r, x, y);
        lemma_apply_injective(l, apply(r, x), apply(r, y));
    }
    assert forall|y: Slot| #[trigger] c.dom().contains(y) implies exists|x: Slot| c.dom().contains(x) && c[x] == y by {
        lemma_compose_onto(l, r, y);
    }
    assert forall|x: Slot| #[trigger] apply(compose_map(l, r), x) == apply(l, apply(r, x)) by {
        lemma_compose_apply(l, r, x);
    }
    lemma_perm_intro(c);
}

/// The inverse of a permutation is one, and undoes it.
pub proof fn lemma_inverse_perm(m: Map<Slot, Slot>)
    requires
        is_perm_map(m),
    ensures
        is_perm_map(inverse_map(m)),
        forall|x: Slot| #[trigger] apply(inverse_map(m), apply(m, x)) == x,
        forall|x: Slot| #[trigger] apply(m, apply(inverse_map(m), x)) == x,
{
    lemma_perm_elim(m);
    let iv = inverse_map(m);
    assert(iv.dom() =~= m.dom());
    assert forall|y: Slot| #[trigger] iv.dom().contains(y) implies m.dom().contains(iv[y]) && m[iv[y]] == y by {}
    assert forall|x: Slot| #[trigger] m.dom().contains(x) implies iv[m[x]] == x by {
        let z = iv[m[x]];
        assert(m.dom().contains(m[x]));
        assert(m[z] == m[x]);
    }
    assert forall|y: Slot| #[trigger] iv.dom().contains(y) implies iv[y] != y && iv.dom().contains(iv[y]) by {}
    assert forall|x: Slot, y: Slot|
        #[trigger] iv.dom().contains(x) && #[trigger] iv.dom().contains(y) && x != y implies iv[x] != iv[y] by {}
    assert forall|y: Slot| #[trigger] iv.dom().contains(y) implies exists|x: Slot| iv.dom().contains(x) && iv[x] == y by {
        assert(m.dom().contains(m[y]));
        assert(iv[m[y]] == y);
    }
    assert forall|x: Slot| #[trigger] apply(iv, apply(m, x)) == x by {
        if m.dom().contains(x) {
            assert(m.dom().contains(m[x]));
        }
    }
    assert forall|x: Slot| #[trigger] apply(m, apply(iv, x)) == x by {}
    lemma_perm_intro(iv);
}

/// A slot map without fixed points is determined by where it sends each slot.
pub proof fn lemma_apply_ext(a: Map<Slot, Slot>, b: Map<Slot, Slot>)
    requires
        forall|x: Slot| #[trigger] a.dom().contains(x) ==> a[x] != x,
        forall|x: Slot| #[trigger] b.dom().contains(x) ==> b[x] != x,
        forall|x: Slot| #[trigger] apply(a, x) == apply(b, x),
    ensures
        a == b,
{
    assert forall|x: Slot| a.dom().contains(x) <==> b.dom().contains(x) by {
        assert(apply(a, x) == apply(b, x));
    }
    assert forall|x: Slot| a.dom().contains(x) implies a[x] == b[x] by {
        assert(apply(a, x) == apply(b, x));
    }
    assert(a =~= b);
}

/// Composition is associative.
pub proof fn lemma_compose_assoc(a: Map<Slot, Slot>, b: Map<Slot, Slot>, c: Map<Slot, Slot>)
    ensures
        compose_map(compose_map(a, b), c) == compose_map(a, compose_map(b, c)),
{
    let lhs = compose_map(compose_map(a, b), c);
    let rhs = compose_map(a, compose_map(b, c));
    assert forall|x: Slot| #[trigger] apply(lhs, x) == apply(rhs, x) by {
        lemma_compose_apply(compose_map(a, b), c, x);
        lemma_compose_apply(a, b, apply(c, x));
        lemma_compose_apply(a, compose_map(b, c), x);
        lemma_compose_apply(b, c, x);
    }
    lemma_apply_ext(lhs, rhs);
}

/// The empty map is a unit for permutations.
pub proof fn lemma_compose_unit(a: Map<Slot, Slot>)
    requires
        is_perm_map(a),
    ensures
        compose_map(Map::empty(), a) == a,
        compose_map(a, Map::empty()) == a,
{
    lemma_perm_elim(a);
    assert forall|x: Slot| #[trigger] apply(compose_map(Map::empty(), a), x) == apply(a, x) by {
        lemma_compose_apply(Map::empty(), a, x);
    }
    assert forall|x: Slot| #[trigger] apply(compose_map(a, Map::empty()), x) == apply(a, x) by {
        lemma_compose_apply(a, Map::empty(), x);
    }
    lemma_apply_ext(compose_map(Map::empty(), a), a);
    lemma_apply_ext(compose_map(a, Map::empty()), a);
}

/// A permutation composed with its inverse, either way, is the unit.
pub proof fn lemma_compose_inverse(a: Map<Slot, Slot>)
    requires
        is_perm_map(a),
    ensures
        compose_map(inverse_map(a), a) == Map::<Slot, Slot>::empty(),
        compose_map(a, inverse_map(a)) == Map::<Slot, Slot>::empty(),
{
    lemma_inverse_perm(a);
    let e = Map::<Slot, Slot>::empty();
    assert forall|x: Slot| #[trigger] apply(compose_map(inverse_map(a), a), x) == apply(e, x) by {
        lemma_compose_apply(inverse_map(a), a, x);
    }
    assert forall|x: Slot| #[trigger] apply(compose_map(a, inverse_map(a)), x) == apply(e, x) by {
        lemma_compose_apply(a, inverse_map(a), x);
    }
    lemma_apply_ext(compose_map(inverse_map(a), a), e);
    lemma_apply_ext(compose_map(a, inverse_map(a)), e);
}

/// Inverting twice gives the permutation back.
pub proof fn lemma_inverse_inverse(a: Map<Slot, Slot>)
    requires
        is_perm_map(a),
    ensures
        inverse_map(inverse_map(a)) == a,
{
    lemma_perm_elim(a);
    lemma_inverse_perm(a);
    let ia = inverse_map(a);
    lemma_perm_elim(ia);
    lemma_inverse_perm(ia);
    let iia = inverse_map(ia);
    lemma_perm_elim(iia);
    assert forall|x: Slot| #[trigger] apply(iia, x) == apply(a, x) by {
        // iia undoes ia, and a undoes ia too
        assert(apply(iia, apply(ia, apply(a, x))) == apply(a, x));
        assert(apply(ia, apply(a, x)) == x);
    }
    lemma_apply_ext(iia, a);
}

impl SlotMap {
    #[verifier::type_invariant]
    pub closed spec fn wf(&self) -> bool {
        &&& keys_sorted(self.v@)
        &&& is_perm_map(assoc_map(self.v@))
    }

    /// Builds the permutation given by `pairs`; pairs that are fixed points
    /// are left out.
    pub fn mk(pairs: Vec<(Slot, Slot)>) -> (res: SlotMap)
        requires
            perm_input(pairs@),
        ensures
            res@ == pairs_map(pairs@),
    {
        let mut out: Vec<(Slot, Slot)> = Vec::new();
        let mut i: usize = 0;
        while i < pairs.len()
            invariant
                i <= pairs@.len(),
                perm_input(pairs@),
                keys_sorted(out@),
                assoc_map(out@) == pairs_map(pairs@.subrange(0, i as int)),
            decreases pairs@.len() - i,
        {
            let (x, y) = pairs[i];
            proof {
                assert(pairs@.subrange(0, i + 1).drop_last() == pairs@.subrange(0, i as int));
            }
            if x != y {
                let mut p: usize = 0;
                while p < out.len() && out[p].0 < x
                    invariant
                        p <= out@.len(),
                        forall|k: int| 0 <= k < p ==> out@[k].0 < x,
                    decreases out@.len() - p,
                {
                    p += 1;
                }
                proof {
                    lemma_pairs_map_dom(pairs@.subrange(0, i as int), x);
                    lemma_assoc_map_dom(out@, x);
                    assert forall|k: int| p <= k < out@.len() implies out@[k].0 > x by {
                        if out@[k].0 == x {
                            let j = choose|j: int| 0 <= j < i && pairs@.subrange(0, i as int)[j].0 == x
                                && pairs@.subrange(0, i as int)[j].0 != pairs@.subrange(0, i as int)[j].1;
                            assert(pairs@[j].0 == x);
                        }
                        if k > p {
                            assert(out@[p as int].0 < out@[k].0);
                        }
                    }
                    lemma_sorted_insert(out@, p as int, (x, y));
                }
                out.insert(p, (x, y));
            }
            i += 1;
        }
        proof {
            assert(pairs@.subrange(0, pairs@.len() as int) == pairs@);
        }
        SlotMap { v: out }
    }

    /// The moved slots, in the order in which they are stored.
    pub closed spec fn support_seq(&self) -> Seq<Slot> {
        self.v@.map_values(|e: (Slot, Slot)| e.0)
    }

    /// The moved slots, in increasing order.
    pub fn support(&self) -> (res: Vec<Slot>)
        ensures
            res@ == self.support_seq(),
            is_perm_map(self@),
            forall|k: int, l: int| 0 <= k < l < res@.len() ==> res@[k] < res@[l],
            forall|x: Slot| self@.dom().contains(x) <==> res@.contains(x),
            forall|x: Slot| #[trigger] res@.contains(x) <==> apply(self@, x) != x,
    {
        proof {
            use_type_invariant(self);
        }
        let mut out: Vec<Slot> = Vec::new();
        let mut i: usize = 0;
        while i < self.v.len()
            invariant
                i <= self.v@.len(),
                out@.len() == i,
                forall|k: int| 0 <= k < i ==> out@[k] == self.v@[k].0,
            decreases self.v@.len() - i,
        {
            out.push(self.v[i].0);
            i += 1;
        }
        proof {
            lemma_perm_elim(self@);
            assert(out@ =~= self.support_seq());
            assert forall|x: Slot| self@.dom().contains(x) <==> out@.contains(x) by {
                lemma_assoc_map_dom(self.v@, x);
                if out@.contains(x) {
                    let k = choose|k: int| 0 <= k < out@.len() && out@[k] == x;
                    assert(self.v@[k].0 == x);
                }
                if self@.dom().contains(x) {
                    let k = choose|k: int| 0 <= k < self.v@.len() && self.v@[k].0 == x;
                    assert(out@[k] == x);
                }
            }
        }
        out
    }

    /// Where `x` goes.
    pub fn get(&self, x: Slot) -> (res: Slot)
        ensures
            is_perm_map(self@),
            res == apply(self@, x),
    {
        proof {
            use_type_invariant(self);
        }
        let mut i: usize = 0;
        while i < self.v.len()
            invariant
                keys_sorted(self.v@),
                is_perm_map(self@),
                i <= self.v@.len(),
                forall|k: int| 0 <= k < i ==> self.v@[k].0 != x,
            decreases self.v@.len() - i,
        {
            if self.v[i].0 == x {
                proof {
                    lemma_assoc_map_value(self.v@, i as int);
                }
                return self.v[i].1;
            }
            i += 1;
        }
        proof {
            lemma_assoc_map_dom(self.v@, x);
        }
        x
    }

    /// The moved slots with their images, sorted by slot.
    pub fn iter(&self) -> (res: Vec<(Slot, Slot)>)
        ensures
            res@ == self.support_seq().map_values(|x: Slot| (x, apply(self@, x))),
            is_perm_map(self@),
            keys_sorted(res@),
            assoc_map(res@) == self@,
            forall|k: int| 0 <= k < res@.len() ==> (#[trigger] res@[k]).1 == apply(self@, res@[k].0)
                && res@[k].0 != res@[k].1,
    {
        proof {
            use_type_invariant(self);
        }
        let mut out: Vec<(Slot, Slot)> = Vec::new();
        let mut i: usize = 0;
        while i < self.v.len()
            invariant
                i <= self.v@.len(),
                out@ == self.v@.subrange(0, i as int),
            decreases self.v@.len() - i,
        {
            out.push(self.v[i]);
            i += 1;
        }
        proof {
            assert(out@ == self.v@);
            lemma_perm_elim(self@);
            assert forall|k: int| 0 <= k < out@.len() implies (#[trigger] out@[k]).1 == apply(self@, out@[k].0)
                && out@[k].0 != out@[k].1 by {
                lemma_assoc_map_value(out@, k);
            }
            assert(out@ =~= self.support_seq().map_values(|x: Slot| (x, apply(self@, x))));
        }
        out
    }
}

/// With distinct keys, `pairs_map` holds each pair that is not a fixed point.
pub proof fn lemma_pairs_map_value(s: Seq<(Slot, Slot)>, i: int)
    requires
        forall|a: int, b: int| 0 <= a < b < s.len() && s[a].0 != s[a].1 && s[b].0 != s[b].1 ==> s[a].0 != s[b].0,
        0 <= i < s.len(),
        s[i].0 != s[i].1,
    ensures
        pairs_map(s).dom().contains(s[i].0),
        pairs_map(s)[s[i].0] == s[i].1,
    decreases s.len(),
{
    if i < s.len() - 1 {
        lemma_pairs_map_value(s.drop_last(), i);
        assert(s.drop_last()[i] == s[i]);
    }
    lemma_pairs_map_dom(s, s[i].0);
}

/// Swapping the pairs of a permutation gives distinct keys and no fixed points.
proof fn lemma_inverse_pairs_keys(v: Seq<(Slot, Slot)>, pairs: Seq<(Slot, Slot)>)
    requires
        keys_sorted(v),
        is_perm_map(assoc_map(v)),
        pairs.len() == v.len(),
        forall|k: int| 0 <= k < v.len() ==> #[trigger] pairs[k] == (v[k].1, v[k].0),
    ensures
        forall|k: int| 0 <= k < pairs.len() ==> (#[trigger] pairs[k]).0 != pairs[k].1,
        forall|a: int, b: int| 0 <= a < b < pairs.len() ==> pairs[a].0 != pairs[b].0,
{
    let m = assoc_map(v);
    lemma_perm_elim(m);
    assert forall|k: int| 0 <= k < pairs.len() implies (#[trigger] pairs[k]).0 != pairs[k].1 by {
        lemma_assoc_map_value(v, k);
    }
    assert forall|a: int, b: int| 0 <= a < b < pairs.len() implies pairs[a].0 != pairs[b].0 by {
        lemma_assoc_map_value(v, a);
        lemma_assoc_map_value(v, b);
        assert(v[a].0 < v[b].0);
    }
}

/// Swapping the pairs of a permutation lists its inverse.
pub proof fn lemma_inverse_pairs(v: Seq<(Slot, Slot)>, pairs: Seq<(Slot, Slot)>)
    requires
        keys_sorted(v),
        is_perm_map(assoc_map(v)),
        pairs.len() == v.len(),
        forall|k: int| 0 <= k < v.len() ==> #[trigger] pairs[k] == (v[k].1, v[k].0),
    ensures
        perm_input(pairs),
        pairs_map(pairs) == inverse_map(assoc_map(v)),
{
    let m = assoc_map(v);
    lemma_inverse_pairs_keys(v, pairs);
    lemma_inverse_perm(m);
    let iv = inverse_map(m);
    assert forall|y: Slot| pairs_map(pairs).dom().contains(y) <==> iv.dom().contains(y) by {
        lemma_pairs_map_dom(pairs, y);
        lemma_assoc_map_dom(v, y);
        if iv.dom().contains(y) {
            lemma_perm_elim(m);
            let x = iv[y];
            assert(m.dom().contains(x) && m[x] == y);
            lemma_assoc_map_dom(v, x);
            let k = choose|k: int| 0 <= k < v.len() && v[k].0 == x;
            lemma_assoc_map_value(v, k);
            assert(pairs[k].0 == y);
        }
        if pairs_map(pairs).dom().contains(y) {
            let k = choose|k: int| 0 <= k < pairs.len() && pairs[k].0 == y && pairs[k].0 != pairs[k].1;
            lemma_assoc_map_value(v, k);
            lemma_perm_elim(m);
            assert(m.dom().contains(m[v[k].0]));
        }
    }
    assert forall|y: Slot| #[trigger] pairs_map(pairs).dom().contains(y) implies pairs_map(pairs)[y] == iv[y] by {
        lemma_pairs_map_dom(pairs, y);
        let k = choose|k: int| 0 <= k < pairs.len() && pairs[k].0 == y && pairs[k].0 != pairs[k].1;
        lemma_pairs_map_value(pairs, k);
        lemma_assoc_map_value(v, k);
        let x = v[k].0;
        assert(m[x] == y);
        assert(apply(iv, apply(m, x)) == x);
    }
    assert(pairs_map(pairs) =~= iv);
}

/// The pairs collected by `compose` list the composition.
proof fn lemma_compose_pairs(
    l: Map<Slot, Slot>,
    r: Map<Slot, Slot>,
    lk: Seq<Slot>,
    rk: Seq<Slot>,
    pairs: Seq<(Slot, Slot)>,
)
    requires
        is_perm_map(l),
        is_perm_map(r),
        forall|x: Slot| l.dom().contains(x) <==> lk.contains(x),
        forall|x: Slot| r.dom().contains(x) <==> rk.contains(x),
        forall|a: int, b: int| 0 <= a < b < pairs.len() ==> pairs[a].0 != pairs[b].0,
        forall|a: int| 0 <= a < pairs.len() ==> (#[trigger] pairs[a]).0 != pairs[a].1
            && pairs[a].1 == apply(l, apply(r, pairs[a].0))
            && (l.dom().contains(pairs[a].0) || r.dom().contains(pairs[a].0)),
        forall|k: int| 0 <= k < lk.len() && apply(l, apply(r, #[trigger] lk[k])) != lk[k]
            ==> exists|a: int| 0 <= a < pairs.len() && pairs[a].0 == lk[k],
        forall|k: int| 0 <= k < rk.len() && apply(l, apply(r, #[trigger] rk[k])) != rk[k]
            ==> exists|a: int| 0 <= a < pairs.len() && pairs[a].0 == rk[k],
    ensures
        perm_input(pairs),
        pairs_map(pairs) == compose_map(l, r),
{
    lemma_compose_perm(l, r);
    let c = compose_map(l, r);
    assert forall|x: Slot| pairs_map(pairs).dom().contains(x) <==> c.dom().contains(x) by {
        lemma_pairs_map_dom(pairs, x);
        if c.dom().contains(x) {
            if l.dom().contains(x) {
                assert(lk.contains(x));
                let k = choose|k: int| 0 <= k < lk.len() && lk[k] == x;
                assert(apply(l, apply(r, lk[k])) != lk[k]);
            } else {
                assert(rk.contains(x));
                let k = choose|k: int| 0 <= k < rk.len() && rk[k] == x;
                assert(apply(l, apply(r, rk[k])) != rk[k]);
            }
        }
    }
    assert forall|x: Slot| #[trigger] pairs_map(pairs).dom().contains(x) implies pairs_map(pairs)[x] == c[x] by {
        lemma_pairs_map_dom(pairs, x);
        let i = choose|i: int| 0 <= i < pairs.len() && pairs[i].0 == x && pairs[i].0 != pairs[i].1;
        lemma_pairs_map_value(pairs, i);
    }
    assert(pairs_map(pairs) =~= c);
}

/// Whether some pair of `v` has key `x`.
fn has_key(v: &Vec<(Slot, Slot)>, x: Slot) -> (res: bool)
    ensures
        res == exists|i: int| 0 <= i < v@.len() && v@[i].0 == x,
{
    let mut i: usize = 0;
    while i < v.len()
        invariant
            i <= v@.len(),
            forall|k: int| 0 <= k < i ==> v@[k].0 != x,
        decreases v@.len() - i,
    {
        if v[i].0 == x {
            return true;
        }
        i += 1;
    }
    false
}

/// Adds `(x, f(x))` for the slots `x` of `keys` that `f = l after r` moves and
/// that are not yet in `pairs`.
fn add_moved(pairs: &mut Vec<(Slot, Slot)>, keys: &Vec<Slot>, l: &SlotMap, r: &SlotMap)
    requires
        is_perm_map(l@),
        is_perm_map(r@),
        forall|a: int, b: int| 0 <= a < b < old(pairs)@.len() ==> old(pairs)@[a].0 != old(pairs)@[b].0,
        forall|a: int| 0 <= a < old(pairs)@.len() ==> (#[trigger] old(pairs)@[a]).0 != old(pairs)@[a].1
            && old(pairs)@[a].1 == apply(l@, apply(r@, old(pairs)@[a].0))
            && (l@.dom().contains(old(pairs)@[a].0) || r@.dom().contains(old(pairs)@[a].0)),
        forall|k: int| 0 <= k < keys@.len() ==> l@.dom().contains(#[trigger] keys@[k]) || r@.dom().contains(keys@[k]),
    ensures
        forall|a: int, b: int| 0 <= a < b < final(pairs)@.len() ==> final(pairs)@[a].0 != final(pairs)@[b].0,
        forall|a: int| 0 <= a < final(pairs)@.len() ==> (#[trigger] final(pairs)@[a]).0 != final(pairs)@[a].1
            && final(pairs)@[a].1 == apply(l@, apply(r@, final(pairs)@[a].0))
            && (l@.dom().contains(final(pairs)@[a].0) || r@.dom().contains(final(pairs)@[a].0)),
        forall|k: int| 0 <= k < keys@.len() && apply(l@, apply(r@, #[trigger] keys@[k])) != keys@[k]
            ==> exists|a: int| 0 <= a < final(pairs)@.len() && final(pairs)@[a].0 == keys@[k],
        forall|a: int| 0 <= a < old(pairs)@.len() ==> final(pairs)@[a] == old(pairs)@[a],
        old(pairs)@.len() <= final(pairs)@.len(),
{
    let mut i: usize = 0;
    while i < keys.len()
        invariant
            i <= keys@.len(),
            forall|k: int| 0 <= k < keys@.len() ==> l@.dom().contains(#[trigger] keys@[k]) || r@.dom().contains(keys@[k]),
            forall|a: int, b: int| 0 <= a < b < pairs@.len() ==> pairs@[a].0 != pairs@[b].0,
            forall|a: int| 0 <= a < pairs@.len() ==> (#[trigger] pairs@[a]).0 != pairs@[a].1
                && pairs@[a].1 == apply(l@, apply(r@, pairs@[a].0))
                && (l@.dom().contains(pairs@[a].0) || r@.dom().contains(pairs@[a].0)),
            forall|k: int| 0 <= k < i && apply(l@, apply(r@, #[trigger] keys@[k])) != keys@[k]
                ==> exists|a: int| 0 <= a < pairs@.len() && pairs@[a].0 == keys@[k],
            forall|a: int| 0 <= a < old(pairs)@.len() ==> pairs@[a] == old(pairs)@[a],
            old(pairs)@.len() <= pairs@.len(),
        decreases keys@.len() - i,
    {
        let x = keys[i];
        let y = l.get(r.get(x));
        if x != y && !has_key(pairs, x) {
            let ghost prev = pairs@;
            pairs.push((x, y));
            proof {
                assert forall|k: int| 0 <= k < i + 1 && apply(l@, apply(r@, #[trigger] keys@[k])) != keys@[k]
                    implies exists|a: int| 0 <= a < pairs@.len() && pairs@[a].0 == keys@[k] by {
                    if k < i {
                        let a = choose|a: int| 0 <= a < prev.len() && prev[a].0 == keys@[k];
                        assert(pairs@[a] == prev[a]);
                    } else {
                        assert(pairs@[prev.len() as int].0 == keys@[k]);
                    }
                }
            }
        }
        i += 1;
    }
}

impl Group for SlotMap {
    open spec fn op(l: Map<Slot, Slot>, r: Map<Slot, Slot>) -> Map<Slot, Slot> {
        compose_map(l, r)
    }

    open spec fn inv(g: Map<Slot, Slot>) -> Map<Slot, Slot> {
        inverse_map(g)
    }

    open spec fn unit() -> Map<Slot, Slot> {
        Map::empty()
    }

    /// `l` after `r`.
    fn compose(l: &SlotMap, r: &SlotMap) -> (res: SlotMap) {
        proof {
            use_type_invariant(l);
            use_type_invariant(r);
        }
        let lk = l.support();
        let rk = r.support();
        let mut pairs: Vec<(Slot, Slot)> = Vec::new();
        proof {
            assert forall|k: int| 0 <= k < lk@.len() implies l@.dom().contains(#[trigger] lk@[k]) || r@.dom().contains(lk@[k]) by {
                assert(lk@.contains(lk@[k]));
            }
            assert forall|k: int| 0 <= k < rk@.len() implies l@.dom().contains(#[trigger] rk@[k]) || r@.dom().contains(rk@[k]) by {
                assert(rk@.contains(rk@[k]));
            }
        }
        add_moved(&mut pairs, &lk, l, r);
        add_moved(&mut pairs, &rk, l, r);
        proof {
            lemma_compose_pairs(l@, r@, lk@, rk@, pairs@);
        }
        SlotMap::mk(pairs)
    }

    fn inverse(&self) -> (res: SlotMap) {
        proof {
            use_type_invariant(self);
        }
        let mut pairs: Vec<(Slot, Slot)> = Vec::new();
        let mut i: usize = 0;
        while i < self.v.len()
            invariant
                i <= self.v@.len(),
                pairs@.len() == i,
                forall|k: int| 0 <= k < i ==> #[trigger] pairs@[k] == (self.v@[k].1, self.v@[k].0),
            decreases self.v@.len() - i,
        {
            pairs.push((self.v[i].1, self.v[i].0));
            i += 1;
        }
        proof {
            lemma_inverse_pairs(self.v@, pairs@);
        }
        SlotMap::mk(pairs)
    }

    fn identity() -> (res: SlotMap) {
        let v: Vec<(Slot, Slot)> = Vec::new();
        proof {
            assert(assoc_map(v@) =~= Map::<Slot, Slot>::empty());
            lemma_perm_intro(Map::<Slot, Slot>::empty());
        }
        let res = SlotMap { v };
        res
    }

    fn duplicate(&self) -> (res: SlotMap) {
        let mut out: Vec<(Slot, Slot)> = Vec::new();
        let mut i: usize = 0;
        while i < self.v.len()
            invariant
                i <= self.v@.len(),
                out@ == self.v@.subrange(0, i as int),
            decreases self.v@.len() - i,
        {
            out.push(self.v[i]);
            i += 1;
        }
        proof {
            use_type_invariant(self);
            assert(out@ == self.v@);
        }
        SlotMap { v: out }
    }

    fn is_unit(&self) -> (res: bool) {
        proof {
            use_type_invariant(self);
        }
        let r = self.v.len() == 0;
        proof {
            if r {
                assert(assoc_map(self.v@) =~= Map::<Slot, Slot>::empty());
            } else {
                lemma_assoc_map_dom(self.v@, self.v@[0].0);
                assert(assoc_map(self.v@).dom().contains(self.v@[0].0));
            }
        }
        r
    }
}

/// Restricting a permutation to a set of slots that it maps into itself
/// gives a permutation.
pub proof fn lemma_restrict_perm(m: Map<Slot, Slot>, slots: Set<Slot>)
    requires
        is_perm_map(m),
        forall|x: Slot| #[trigger] m.dom().contains(x) ==> (slots.contains(x) <==> slots.contains(m[x])),
    ensures
        is_perm_map(m.restrict(slots)),
{
    lemma_perm_elim(m);
    let r = m.restrict(slots);
    assert(r.dom() =~= m.dom().intersect(slots));
    vstd::set_lib::lemma_len_intersect(m.dom(), slots);
    assert forall|y: Slot| #[trigger] r.dom().contains(y) implies exists|x: Slot| r.dom().contains(x) && r[x] == y by {
        let x = choose|x: Slot| m.dom().contains(x) && m[x] == y;
        assert(r.dom().contains(x) && r[x] == y);
    }
    lemma_perm_intro(r);
}

/// The part of `m` inside `slots`; `None` when `m` moves a slot into or out of
/// `slots`.
pub fn restrict(m: &SlotMap, slots: &HashSet<Slot>) -> (res: Option<SlotMap>)
    ensures
        res is None <==> exists|x: Slot| #[trigger] m@.dom().contains(x) && slots@.contains(x) != slots@.contains(m@[x]),
        res matches Some(r) ==> r@ == m@.restrict(slots@),
{
    proof {
        use_type_invariant(m);
    }
    let pairs = m.iter();
    let mut out: Vec<(Slot, Slot)> = Vec::new();
    let mut i: usize = 0;
    while i < pairs.len()
        invariant
            keys_sorted(pairs@),
            assoc_map(pairs@) == m@,
            is_perm_map(m@),
            i <= pairs@.len(),
            keys_sorted(out@),
            forall|k: int| 0 <= k < out@.len() ==> (#[trigger] out@[k]).0 != out@[k].1,
            forall|k: int| 0 <= k < out@.len() && i < pairs@.len() ==> (#[trigger] out@[k]).0 < pairs@[i as int].0,
            forall|k: int| 0 <= k < i ==> (slots@.contains(#[trigger] pairs@[k].0) <==> slots@.contains(pairs@[k].1)),
            assoc_map(out@) == assoc_map(pairs@.subrange(0, i as int)).restrict(slots@),
        decreases pairs@.len() - i,
    {
        let (x, y) = pairs[i];
        let sx = slots.contains(&x);
        let sy = slots.contains(&y);
        proof {
            lemma_assoc_map_value(pairs@, i as int);
            assert(pairs@.subrange(0, i + 1) == pairs@.subrange(0, i as int).push(pairs@[i as int]));
            lemma_assoc_map_push(pairs@.subrange(0, i as int), pairs@[i as int]);
        }
        if sx != sy {
            return None;
        }
        if sx {
            let ghost prev = out@;
            out.push((x, y));
            proof {
                lemma_assoc_map_push(prev, (x, y));
                lemma_perm_elim(m@);
                assert(m@[x] == y);
            }
        }
        proof {
            assert(assoc_map(out@) =~= assoc_map(pairs@.subrange(0, i + 1)).restrict(slots@));
            if i + 1 < pairs@.len() {
                assert(pairs@[i as int].0 < pairs@[i + 1].0);
            }
        }
        i += 1;
    }
    proof {
        assert(pairs@.subrange(0, i as int) == pairs@);
        assert forall|x: Slot| #[trigger] m@.dom().contains(x) implies (slots@.contains(x) <==> slots@.contains(m@[x])) by {
            lemma_assoc_map_dom(pairs@, x);
            let k = choose|k: int| 0 <= k < pairs@.len() && pairs@[k].0 == x;
            lemma_assoc_map_value(pairs@, k);
        }
        lemma_restrict_perm(m@, slots@);
        assert forall|a: int, b: int| 0 <= a < b < out@.len() && out@[a].0 != out@[a].1 && out@[b].0 != out@[b].1 implies out@[a].0 != out@[b].0 by {}
        lemma_pairs_map_is_assoc(out@);
    }
    Some(SlotMap::mk(out))
}

/// For sorted pairs without fixed points, `pairs_map` is `assoc_map`.
pub proof fn lemma_pairs_map_is_assoc(s: Seq<(Slot, Slot)>)
    requires
        forall|k: int| 0 <= k < s.len() ==> (#[trigger] s[k]).0 != s[k].1,
    ensures
        pairs_map(s) == assoc_map(s),
    decreases s.len(),
{
    if s.len() > 0 {
        lemma_pairs_map_is_assoc(s.drop_last());
    }
}

/// Distinct keys and distinct values: an injective partial map.
pub open spec fn injective_pairs(d: Seq<(Slot, Slot)>) -> bool {
    forall|i: int, j: int| 0 <= i < j < d.len() ==> d[i].0 != d[j].0 && d[i].1 != d[j].1
}

/// The keys of the pairs.
pub open spec fn keys_of(d: Seq<(Slot, Slot)>) -> Set<Slot> {
    d.map_values(|p: (Slot, Slot)| p.0).to_set()
}

/// The values of the pairs.
pub open spec fn values_of(d: Seq<(Slot, Slot)>) -> Set<Slot> {
    d.map_values(|p: (Slot, Slot)| p.1).to_set()
}

/// Strictly increasing.
pub open spec fn increasing(s: Seq<Slot>) -> bool {
    forall|i: int, j: int| 0 <= i < j < s.len() ==> s[i] < s[j]
}

/// The elements of `s`, in increasing order.
pub open spec fn sorted_list(s: Set<Slot>) -> Seq<Slot> {
    choose|q: Seq<Slot>| increasing(q) && q.to_set() == s
}

/// What `complete` adds to `d`: the values that are no key, in increasing
/// order, each sent to the key that is no value at the same place in
/// increasing order.
pub open spec fn completion(d: Seq<(Slot, Slot)>) -> Seq<(Slot, Slot)> {
    let vs = sorted_list(values_of(d).difference(keys_of(d)));
    let ks = sorted_list(keys_of(d).difference(values_of(d)));
    Seq::new(vs.len(), |i: int| (vs[i], ks[i]))
}

/// Two increasing sequences with the same elements are equal.
proof fn lemma_increasing_unique(a: Seq<Slot>, b: Seq<Slot>)
    requires
        increasing(a),
        increasing(b),
        a.to_set() == b.to_set(),
    ensures
        a == b,
    decreases a.len(),
{
    if a.len() == 0 {
        if b.len() > 0 {
            assert(b.to_set().contains(b[0]));
        }
        assert(a =~= b);
    } else {
        assert(a.to_set().contains(a[0]));
        assert(b.to_set().contains(a[0]));
        let j = choose|j: int| 0 <= j < b.len() && b[j] == a[0];
        assert(b.to_set().contains(b[0]));
        let i = choose|i: int| 0 <= i < a.len() && a[i] == b[0];
        assert(a[0] <= a[i]);
        assert(b[0] <= b[j]);
        assert(a[0] == b[0]);
        let a2 = a.drop_first();
        let b2 = b.drop_first();
        assert forall|x: Slot| a2.to_set().contains(x) <==> b2.to_set().contains(x) by {
            if a2.to_set().contains(x) {
                let k = choose|k: int| 0 <= k < a2.len() && a2[k] == x;
                assert(a[k + 1] == x);
                assert(a.to_set().contains(x));
                let m = choose|m: int| 0 <= m < b.len() && b[m] == x;
                assert(m != 0);
                assert(b2[m - 1] == x);
            }
            if b2.to_set().contains(x) {
                let k = choose|k: int| 0 <= k < b2.len() && b2[k] == x;
                assert(b[k + 1] == x);
                assert(b.to_set().contains(x));
                let m = choose|m: int| 0 <= m < a.len() && a[m] == x;
                assert(m != 0);
                assert(a2[m - 1] == x);
            }
        }
        assert(a2.to_set() =~= b2.to_set());
        lemma_increasing_unique(a2, b2);
        assert(a.len() == b.len());
        assert forall|k: int| 0 <= k < a.len() implies a[k] == b[k] by {
            if k > 0 {
                assert(a[k] == a2[k - 1]);
                assert(b[k] == b2[k - 1]);
            }
        }
        assert(a =~= b);
    }
}

/// Sorts distinct slots into increasing order.
fn sort_slots(v: &Vec<Slot>) -> (res: Vec<Slot>)
    requires
        v@.no_duplicates(),
    ensures
        increasing(res@),
        res@.to_set() == v@.to_set(),
        res@ == sorted_list(v@.to_set()),
{
    let mut out: Vec<Slot> = Vec::new();
    let mut i: usize = 0;
    while i < v.len()
        invariant
            i <= v@.len(),
            v@.no_duplicates(),
            increasing(out@),
            out@.to_set() == v@.take(i as int).to_set(),
        decreases v.len() - i,
    {
        let x = v[i];
        let mut p: usize = 0;
        while p < out.len() && out[p] < x
            invariant
                p <= out@.len(),
                forall|k: int| 0 <= k < p ==> out@[k] < x,
            decreases out.len() - p,
        {
            p += 1;
        }
        proof {
            assert(!v@.take(i as int).contains(x)) by {
                if v@.take(i as int).contains(x) {
                    let k = choose|k: int| 0 <= k < i && v@.take(i as int)[k] == x;
                    assert(v@[k] == v@[i as int]);
                }
            }
            assert(!out@.to_set().contains(x));
        }
        let ghost before = out@;
        out.insert(p, x);
        proof {
            assert forall|a: int, b: int| 0 <= a < b < out@.len() implies out@[a] < out@[b] by {
                if b < p {
                    assert(out@[a] == before[a] && out@[b] == before[b]);
                } else if b == p {
                    assert(out@[a] == before[a]);
                } else if a < p {
                    assert(out@[a] == before[a] && out@[b] == before[b - 1]);
                    if p < before.len() {
                        assert(before[p as int] >= x) by {
                            assert(!(before[p as int] < x));
                            assert(before[p as int] != x) by {
                                assert(before.to_set().contains(before[p as int]));
                            }
                        }
                        assert(before[p as int] <= before[b - 1]);
                    }
                } else if a == p {
                    assert(out@[b] == before[b - 1]);
                    assert(before[p as int] >= x) by {
                        assert(!(before[p as int] < x));
                    }
                    assert(before[p as int] != x) by {
                        assert(before.to_set().contains(before[p as int]));
                    }
                    assert(before[p as int] <= before[b - 1]);
                } else {
                    assert(out@[a] == before[a - 1] && out@[b] == before[b - 1]);
                }
            }
            assert(v@.take(i + 1) == v@.take(i as int).push(x));
            assert forall|y: Slot| out@.to_set().contains(y) <==> v@.take(i + 1).to_set().contains(y) by {
                if out@.to_set().contains(y) {
                    let k = choose|k: int| 0 <= k < out@.len() && out@[k] == y;
                    if k < p {
                        assert(before[k] == y);
                        assert(before.to_set().contains(y));
                    } else if k > p {
                        assert(before[k - 1] == y);
                        assert(before.to_set().contains(y));
                    }
                    if y != x {
                        let m = choose|m: int| 0 <= m < i && v@.take(i as int)[m] == y;
                        assert(v@.take(i + 1)[m] == y);
                    } else {
                        assert(v@.take(i + 1)[i as int] == y);
                    }
                }
                if v@.take(i + 1).to_set().contains(y) {
                    let m = choose|m: int| 0 <= m < i + 1 && #[trigger] v@.take(i + 1)[m] == y;
                    if m == i {
                        assert(out@[p as int] == y);
                    } else {
                        assert(v@.take(i as int)[m] == y);
                        assert(before.to_set().contains(y));
                        let k = choose|k: int| 0 <= k < before.len() && before[k] == y;
                        if k < p {
                            assert(out@[k] == y);
                        } else {
                            assert(out@[k + 1] == y);
                        }
                    }
                }
            }
            assert(out@.to_set() =~= v@.take(i + 1).to_set());
        }
        i += 1;
    }
    proof {
        assert(v@.take(i as int) == v@);
        lemma_increasing_unique(out@, sorted_list(v@.to_set()));
    }
    out
}

proof fn lemma_keys_of(d: Seq<(Slot, Slot)>, x: Slot)
    ensures
        keys_of(d).contains(x) <==> exists|j: int| 0 <= j < d.len() && (#[trigger] d[j]).0 == x,
        values_of(d).contains(x) <==> exists|j: int| 0 <= j < d.len() && (#[trigger] d[j]).1 == x,
{
    let km = d.map_values(|p: (Slot, Slot)| p.0);
    let vm = d.map_values(|p: (Slot, Slot)| p.1);
    if keys_of(d).contains(x) {
        let j = choose|j: int| 0 <= j < km.len() && km[j] == x;
        assert(d[j].0 == x);
    }
    if exists|j: int| 0 <= j < d.len() && (#[trigger] d[j]).0 == x {
        let j = choose|j: int| 0 <= j < d.len() && (#[trigger] d[j]).0 == x;
        assert(km[j] == x);
        assert(km.contains(x));
    }
    if values_of(d).contains(x) {
        let j = choose|j: int| 0 <= j < vm.len() && vm[j] == x;
        assert(d[j].1 == x);
    }
    if exists|j: int| 0 <= j < d.len() && (#[trigger] d[j]).1 == x {
        let j = choose|j: int| 0 <= j < d.len() && (#[trigger] d[j]).1 == x;
        assert(vm[j] == x);
        assert(vm.contains(x));
    }
}

/// An injective partial map has as many keys that are no value as values
/// that are no key.
proof fn lemma_completion_lens(d: Seq<(Slot, Slot)>)
    requires
        injective_pairs(d),
    ensures
        keys_of(d).difference(values_of(d)).len() == values_of(d).difference(keys_of(d)).len(),
        keys_of(d).difference(values_of(d)).finite(),
        values_of(d).difference(keys_of(d)).finite(),
{
    let km = d.map_values(|p: (Slot, Slot)| p.0);
    let vm = d.map_values(|p: (Slot, Slot)| p.1);
    assert(km.no_duplicates()) by {
        assert forall|i: int, j: int| 0 <= i < km.len() && 0 <= j < km.len() && i != j implies km[i] != km[j] by {
            if i < j {
                assert(d[i].0 != d[j].0);
            } else {
                assert(d[j].0 != d[i].0);
            }
        }
    }
    assert(vm.no_duplicates()) by {
        assert forall|i: int, j: int| 0 <= i < vm.len() && 0 <= j < vm.len() && i != j implies vm[i] != vm[j] by {
            if i < j {
                assert(d[i].1 != d[j].1);
            } else {
                assert(d[j].1 != d[i].1);
            }
        }
    }
    km.unique_seq_to_set();
    vm.unique_seq_to_set();
    let k = keys_of(d);
    let v = values_of(d);
    vstd::seq_lib::seq_to_set_is_finite(km);
    vstd::seq_lib::seq_to_set_is_finite(vm);
    vstd::set_lib::lemma_set_difference_len(k, v);
    vstd::set_lib::lemma_set_difference_len(v, k);
    assert(k.intersect(v) =~= v.intersect(k));
}

/// What the completion lemmas assume.
pub open spec fn completion_setup(d: Seq<(Slot, Slot)>, ks: Seq<Slot>, vs: Seq<Slot>) -> bool {
    &&& injective_pairs(d)
    &&& increasing(ks)
    &&& increasing(vs)
    &&& ks.to_set() == keys_of(d).difference(values_of(d))
    &&& vs.to_set() == values_of(d).difference(keys_of(d))
    &&& ks.len() == vs.len()
}

/// `d` followed by the pairs of `vs` and `ks`.
pub open spec fn completed(d: Seq<(Slot, Slot)>, ks: Seq<Slot>, vs: Seq<Slot>) -> Seq<(Slot, Slot)> {
    d + Seq::new(vs.len(), |i: int| (vs[i], ks[i]))
}

proof fn lemma_completion_slots(d: Seq<(Slot, Slot)>, ks: Seq<Slot>, vs: Seq<Slot>)
    requires
        completion_setup(d, ks, vs),
    ensures
        forall|m: int| 0 <= m < vs.len() ==> values_of(d).contains(#[trigger] vs[m]) && !keys_of(d).contains(vs[m]),
        forall|m: int| 0 <= m < ks.len() ==> keys_of(d).contains(#[trigger] ks[m]) && !values_of(d).contains(ks[m]),
        forall|i: int| 0 <= i < d.len() ==> #[trigger] completed(d, ks, vs)[i] == d[i],
        forall|m: int| 0 <= m < vs.len() ==> #[trigger] completed(d, ks, vs)[d.len() + m] == (vs[m], ks[m]),
        completed(d, ks, vs).len() == d.len() + vs.len(),
{
    assert forall|m: int| 0 <= m < vs.len() implies values_of(d).contains(#[trigger] vs[m]) && !keys_of(d).contains(vs[m]) by {
        assert(vs.to_set().contains(vs[m]));
    }
    assert forall|m: int| 0 <= m < ks.len() implies keys_of(d).contains(#[trigger] ks[m]) && !values_of(d).contains(ks[m]) by {
        assert(ks.to_set().contains(ks[m]));
    }
}

proof fn lemma_completed_keys(d: Seq<(Slot, Slot)>, ks: Seq<Slot>, vs: Seq<Slot>)
    requires
        completion_setup(d, ks, vs),
    ensures
        forall|i: int, j: int|
            0 <= i < j < completed(d, ks, vs).len() ==> (#[trigger] completed(d, ks, vs)[i]).0
                != (#[trigger] completed(d, ks, vs)[j]).0,
{
    let s = completed(d, ks, vs);
    let n = d.len();
    lemma_completion_slots(d, ks, vs);
    assert forall|i: int, j: int| 0 <= i < j < s.len() implies (#[trigger] s[i]).0 != (#[trigger] s[j]).0 by {
        if j < n {
            assert(s[i] == d[i] && s[j] == d[j]);
        } else if i < n {
            assert(s[i] == d[i]);
            assert(s[j] == (vs[j - n], ks[j - n]));
            lemma_keys_of(d, d[i].0);
        } else {
            assert(s[i] == (vs[i - n], ks[i - n]));
            assert(s[j] == (vs[j - n], ks[j - n]));
        }
    }
}

proof fn lemma_completed_map(d: Seq<(Slot, Slot)>, ks: Seq<Slot>, vs: Seq<Slot>)
    requires
        completion_setup(d, ks, vs),
    ensures
        forall|i: int|
            0 <= i < completed(d, ks, vs).len() && completed(d, ks, vs)[i].0 != completed(d, ks, vs)[i].1
                ==> pairs_map(completed(d, ks, vs)).dom().contains(#[trigger] completed(d, ks, vs)[i].0)
                && pairs_map(completed(d, ks, vs))[completed(d, ks, vs)[i].0] == completed(d, ks, vs)[i].1,
        forall|x: Slot| #[trigger] pairs_map(completed(d, ks, vs)).dom().contains(x) ==> exists|i: int|
            0 <= i < completed(d, ks, vs).len() && completed(d, ks, vs)[i].0 == x && completed(d, ks, vs)[i].0
                != completed(d, ks, vs)[i].1,
        pairs_map(completed(d, ks, vs)).dom().finite(),
{
    let s = completed(d, ks, vs);
    let mp = pairs_map(s);
    lemma_completed_keys(d, ks, vs);
    assert forall|i: int| 0 <= i < s.len() && s[i].0 != s[i].1 implies mp.dom().contains(#[trigger] s[i].0)
        && mp[s[i].0] == s[i].1 by {
        lemma_pairs_map_value(s, i);
    }
    assert forall|x: Slot| #[trigger] mp.dom().contains(x) implies exists|i: int|
        0 <= i < s.len() && s[i].0 == x && s[i].0 != s[i].1 by {
        lemma_pairs_map_dom(s, x);
    }
    let km = s.map_values(|p: (Slot, Slot)| p.0);
    let keys = km.to_set();
    vstd::seq_lib::seq_to_set_is_finite(km);
    assert forall|x: Slot| mp.dom().contains(x) implies keys.contains(x) by {
        let i = choose|i: int| 0 <= i < s.len() && s[i].0 == x && s[i].0 != s[i].1;
        assert(km[i] == x);
    }
    vstd::set_lib::lemma_set_subset_finite(keys, mp.dom());
}

proof fn lemma_completed_closed(d: Seq<(Slot, Slot)>, ks: Seq<Slot>, vs: Seq<Slot>)
    requires
        completion_setup(d, ks, vs),
    ensures
        forall|x: Slot| #[trigger] pairs_map(completed(d, ks, vs)).dom().contains(x) ==> pairs_map(
            completed(d, ks, vs),
        )[x] != x && pairs_map(completed(d, ks, vs)).dom().contains(pairs_map(completed(d, ks, vs))[x]),
{
    let s = completed(d, ks, vs);
    let mp = pairs_map(s);
    let n = d.len();
    let kk = keys_of(d);
    lemma_completion_slots(d, ks, vs);
    lemma_completed_map(d, ks, vs);
    assert forall|x: Slot| #[trigger] mp.dom().contains(x) implies mp[x] != x && mp.dom().contains(mp[x]) by {
        let i = choose|i: int| 0 <= i < s.len() && s[i].0 == x && s[i].0 != s[i].1;
        let y = s[i].1;
        assert(mp[x] == y);
        lemma_keys_of(d, y);
        if i < n {
            assert(d[i].1 == y);
            if kk.contains(y) {
                let j = choose|j: int| 0 <= j < d.len() && (#[trigger] d[j]).0 == y;
                assert(j != i);
                if d[j].1 == y {
                    if i < j {
                        assert(d[i].1 != d[j].1);
                    } else {
                        assert(d[j].1 != d[i].1);
                    }
                }
                assert(s[j] == d[j]);
            } else {
                assert(vs.to_set().contains(y));
                let m = choose|m: int| 0 <= m < vs.len() && vs[m] == y;
                assert(s[n + m] == (vs[m], ks[m]));
                assert(s[n + m].0 != s[n + m].1);
            }
        } else {
            let m = i - n;
            assert(s[i] == (vs[m], ks[m]));
            let j = choose|j: int| 0 <= j < d.len() && (#[trigger] d[j]).0 == y;
            assert(d[j].1 != y) by {
                if d[j].1 == y {
                    lemma_keys_of(d, d[j].1);
                }
            }
            assert(s[j] == d[j]);
        }
    }
}

proof fn lemma_completed_injective(d: Seq<(Slot, Slot)>, ks: Seq<Slot>, vs: Seq<Slot>)
    requires
        completion_setup(d, ks, vs),
    ensures
        forall|x: Slot, y: Slot|
            #[trigger] pairs_map(completed(d, ks, vs)).dom().contains(x) && #[trigger] pairs_map(
                completed(d, ks, vs),
            ).dom().contains(y) && x != y ==> pairs_map(completed(d, ks, vs))[x] != pairs_map(
                completed(d, ks, vs),
            )[y],
{
    let s = completed(d, ks, vs);
    let mp = pairs_map(s);
    let n = d.len();
    lemma_completion_slots(d, ks, vs);
    lemma_completed_map(d, ks, vs);
    assert forall|x: Slot, y: Slot|
        #[trigger] mp.dom().contains(x) && #[trigger] mp.dom().contains(y) && x != y implies mp[x] != mp[y] by {
        let i = choose|i: int| 0 <= i < s.len() && s[i].0 == x && s[i].0 != s[i].1;
        let j = choose|j: int| 0 <= j < s.len() && s[j].0 == y && s[j].0 != s[j].1;
        assert(mp[x] == s[i].1 && mp[y] == s[j].1);
        if i < n && j < n {
            assert(s[i] == d[i] && s[j] == d[j]);
            if i < j {
                assert(d[i].1 != d[j].1);
            } else {
                assert(d[j].1 != d[i].1);
            }
        } else if i >= n && j >= n {
            assert(s[i] == (vs[i - n], ks[i - n]));
            assert(s[j] == (vs[j - n], ks[j - n]));
            if i - n < j - n {
                assert(ks[i - n] < ks[j - n]);
            } else {
                assert(ks[j - n] < ks[i - n]);
            }
        } else if i < n {
            assert(s[i] == d[i]);
            lemma_keys_of(d, d[i].1);
            assert(s[j] == (vs[j - n], ks[j - n]));
        } else {
            assert(s[j] == d[j]);
            lemma_keys_of(d, d[j].1);
            assert(s[i] == (vs[i - n], ks[i - n]));
        }
    }
}

proof fn lemma_completed_onto(d: Seq<(Slot, Slot)>, ks: Seq<Slot>, vs: Seq<Slot>)
    requires
        completion_setup(d, ks, vs),
    ensures
        forall|y: Slot| #[trigger] pairs_map(completed(d, ks, vs)).dom().contains(y) ==> exists|x: Slot|
            pairs_map(completed(d, ks, vs)).dom().contains(x) && pairs_map(completed(d, ks, vs))[x] == y,
{
    let s = completed(d, ks, vs);
    let mp = pairs_map(s);
    let n = d.len();
    let kk = keys_of(d);
    let vv = values_of(d);
    lemma_completion_slots(d, ks, vs);
    lemma_completed_map(d, ks, vs);
    lemma_completed_keys(d, ks, vs);
    assert forall|y: Slot| #[trigger] mp.dom().contains(y) implies exists|x: Slot| mp.dom().contains(x) && mp[x] == y by {
        let i = choose|i: int| 0 <= i < s.len() && s[i].0 == y && s[i].0 != s[i].1;
        lemma_keys_of(d, y);
        if vv.contains(y) {
            let j = choose|j: int| 0 <= j < d.len() && (#[trigger] d[j]).1 == y;
            assert(s[j] == d[j]);
            if d[j].0 == y {
                if i != j {
                    if i < j {
                        assert(s[i].0 != s[j].0);
                    } else {
                        assert(s[j].0 != s[i].0);
                    }
                }
            }
            assert(mp.dom().contains(s[j].0) && mp[s[j].0] == y);
        } else {
            if i >= n {
                assert(s[i] == (vs[i - n], ks[i - n]));
            } else {
                assert(s[i] == d[i]);
            }
            assert(kk.contains(y));
            assert(ks.to_set().contains(y));
            let m = choose|m: int| 0 <= m < ks.len() && ks[m] == y;
            assert(s[n + m] == (vs[m], ks[m]));
            assert(mp.dom().contains(s[n + m].0) && mp[s[n + m].0] == y);
        }
    }
}

/// The pairs of an injective partial map together with its completion form
/// a permutation.
proof fn lemma_complete_perm(d: Seq<(Slot, Slot)>, ks: Seq<Slot>, vs: Seq<Slot>)
    requires
        completion_setup(d, ks, vs),
    ensures
        perm_input(completed(d, ks, vs)),
{
    let s = completed(d, ks, vs);
    lemma_completed_keys(d, ks, vs);
    lemma_completed_map(d, ks, vs);
    lemma_completed_closed(d, ks, vs);
    lemma_completed_injective(d, ks, vs);
    lemma_completed_onto(d, ks, vs);
    assert forall|i: int, j: int| 0 <= i < j < s.len() && s[i].0 != s[i].1 && s[j].0 != s[j].1 implies s[i].0
        != s[j].0 by {}
    lemma_perm_intro(pairs_map(s));
}

/// Whether `x` is a value of `d`.
#[verifier::loop_isolation(false)]
fn is_value(d: &Vec<(Slot, Slot)>, x: Slot) -> (res: bool)
    ensures
        res == values_of(d@).contains(x),
{
    proof {
        lemma_keys_of(d@, x);
    }
    let mut j: usize = 0;
    while j < d.len()
        invariant
            j <= d@.len(),
            forall|k: int| 0 <= k < j ==> d@[k].1 != x,
        decreases d.len() - j,
    {
        if d[j].1 == x {
            return true;
        }
        j += 1;
    }
    false
}

/// Whether `x` is a key of `d`.
#[verifier::loop_isolation(false)]
fn is_key(d: &Vec<(Slot, Slot)>, x: Slot) -> (res: bool)
    ensures
        res == keys_of(d@).contains(x),
{
    proof {
        lemma_keys_of(d@, x);
    }
    let mut j: usize = 0;
    while j < d.len()
        invariant
            j <= d@.len(),
            forall|k: int| 0 <= k < j ==> d@[k].0 != x,
        decreases d.len() - j,
    {
        if d[j].0 == x {
            return true;
        }
        j += 1;
    }
    false
}

/// Completes the injective partial map `d` to a permutation: the values
/// that are no key are sent, in increasing order, to the keys that are no
/// value, in increasing order.
pub fn complete(d: Vec<(Slot, Slot)>) -> (res: SlotMap)
    requires
        injective_pairs(d@),
    ensures
        res@ == pairs_map(d@ + completion(d@)),
{
    let mut k2: Vec<Slot> = Vec::new();
    let mut v2: Vec<Slot> = Vec::new();
    let mut i: usize = 0;
    while i < d.len()
        invariant
            i <= d@.len(),
            injective_pairs(d@),
            forall|a: int| 0 <= a < k2@.len() ==> exists|j: int| 0 <= j < i && (#[trigger] k2@[a]) == d@[j].0,
            forall|a: int| 0 <= a < v2@.len() ==> exists|j: int| 0 <= j < i && (#[trigger] v2@[a]) == d@[j].1,
            k2@.no_duplicates(),
            v2@.no_duplicates(),
            forall|x: Slot| k2@.contains(x) <==> exists|j: int|
                0 <= j < i && (#[trigger] d@[j]).0 == x && !values_of(d@).contains(x),
            forall|x: Slot| v2@.contains(x) <==> exists|j: int|
                0 <= j < i && (#[trigger] d@[j]).1 == x && !keys_of(d@).contains(x),
        decreases d.len() - i,
    {
        let (x, y) = d[i];
        if !is_value(&d, x) {
            let ghost before = k2@;
            k2.push(x);
            proof {
                assert forall|a: int, b: int| 0 <= a < k2@.len() && 0 <= b < k2@.len() && a != b implies k2@[a] != k2@[b] by {
                    if a < before.len() && b < before.len() {
                    } else if a < before.len() {
                        let j = choose|j: int| 0 <= j < i && (#[trigger] before[a]) == d@[j].0;
                        assert(d@[j].0 != d@[i as int].0);
                    } else if b < before.len() {
                        let j = choose|j: int| 0 <= j < i && (#[trigger] before[b]) == d@[j].0;
                        assert(d@[j].0 != d@[i as int].0);
                    }
                }
                assert forall|a: int| 0 <= a < k2@.len() implies exists|j: int| 0 <= j < i + 1 && (#[trigger] k2@[a]) == d@[j].0 by {
                    if a < before.len() {
                        let j = choose|j: int| 0 <= j < i && (#[trigger] before[a]) == d@[j].0;
                        assert(k2@[a] == before[a]);
                    } else {
                        assert(k2@[a] == d@[i as int].0);
                    }
                }
                assert forall|z: Slot| k2@.contains(z) <==> exists|j: int|
                    0 <= j < i + 1 && (#[trigger] d@[j]).0 == z && !values_of(d@).contains(z) by {
                    if k2@.contains(z) && z != x {
                        let a = choose|a: int| 0 <= a < k2@.len() && k2@[a] == z;
                        assert(before[a] == z);
                        assert(before.contains(z));
                    }
                    if exists|j: int| 0 <= j < i + 1 && (#[trigger] d@[j]).0 == z && !values_of(d@).contains(z) {
                        let j = choose|j: int| 0 <= j < i + 1 && (#[trigger] d@[j]).0 == z && !values_of(d@).contains(z);
                        if j < i {
                            assert(before.contains(z));
                            let a = choose|a: int| 0 <= a < before.len() && before[a] == z;
                            assert(k2@[a] == z);
                        } else {
                            assert(k2@[before.len() as int] == z);
                        }
                    }
                }
            }
        } else {
            proof {
                assert forall|a: int| 0 <= a < k2@.len() implies exists|j: int| 0 <= j < i + 1 && (#[trigger] k2@[a]) == d@[j].0 by {
                    let j = choose|j: int| 0 <= j < i && (#[trigger] k2@[a]) == d@[j].0;
                }
                assert forall|z: Slot| k2@.contains(z) <==> exists|j: int|
                    0 <= j < i + 1 && (#[trigger] d@[j]).0 == z && !values_of(d@).contains(z) by {
                    if exists|j: int| 0 <= j < i + 1 && (#[trigger] d@[j]).0 == z && !values_of(d@).contains(z) {
                        let j = choose|j: int| 0 <= j < i + 1 && (#[trigger] d@[j]).0 == z && !values_of(d@).contains(z);
                        assert(j < i);
                    }
                }
            }
        }
        if !is_key(&d, y) {
            let ghost before = v2@;
            v2.push(y);
            proof {
                assert forall|a: int, b: int| 0 <= a < v2@.len() && 0 <= b < v2@.len() && a != b implies v2@[a] != v2@[b] by {
                    if a < before.len() && b < before.len() {
                    } else if a < before.len() {
                        let j = choose|j: int| 0 <= j < i && (#[trigger] before[a]) == d@[j].1;
                        assert(d@[j].1 != d@[i as int].1);
                    } else if b < before.len() {
                        let j = choose|j: int| 0 <= j < i && (#[trigger] before[b]) == d@[j].1;
                        assert(d@[j].1 != d@[i as int].1);
                    }
                }
                assert forall|a: int| 0 <= a < v2@.len() implies exists|j: int| 0 <= j < i + 1 && (#[trigger] v2@[a]) == d@[j].1 by {
                    if a < before.len() {
                        let j = choose|j: int| 0 <= j < i && (#[trigger] before[a]) == d@[j].1;
                        assert(v2@[a] == before[a]);
                    } else {
                        assert(v2@[a] == d@[i as int].1);
                    }
                }
                assert forall|z: Slot| v2@.contains(z) <==> exists|j: int|
                    0 <= j < i + 1 && (#[trigger] d@[j]).1 == z && !keys_of(d@).contains(z) by {
                    if v2@.contains(z) && z != y {
                        let a = choose|a: int| 0 <= a < v2@.len() && v2@[a] == z;
                        assert(before[a] == z);
                        assert(before.contains(z));
                    }
                    if exists|j: int| 0 <= j < i + 1 && (#[trigger] d@[j]).1 == z && !keys_of(d@).contains(z) {
                        let j = choose|j: int| 0 <= j < i + 1 && (#[trigger] d@[j]).1 == z && !keys_of(d@).contains(z);
                        if j < i {
                            assert(before.contains(z));
                            let a = choose|a: int| 0 <= a < before.len() && before[a] == z;
                            assert(v2@[a] == z);
                        } else {
                            assert(v2@[before.len() as int] == z);
                        }
                    }
                }
            }
        } else {
            proof {
                assert forall|a: int| 0 <= a < v2@.len() implies exists|j: int| 0 <= j < i + 1 && (#[trigger] v2@[a]) == d@[j].1 by {
                    let j = choose|j: int| 0 <= j < i && (#[trigger] v2@[a]) == d@[j].1;
                }
                assert forall|z: Slot| v2@.contains(z) <==> exists|j: int|
                    0 <= j < i + 1 && (#[trigger] d@[j]).1 == z && !keys_of(d@).contains(z) by {
                    if exists|j: int| 0 <= j < i + 1 && (#[trigger] d@[j]).1 == z && !keys_of(d@).contains(z) {
                        let j = choose|j: int| 0 <= j < i + 1 && (#[trigger] d@[j]).1 == z && !keys_of(d@).contains(z);
                        assert(j < i);
                    }
                }
            }
        }
        i += 1;
    }
    proof {
        assert forall|x: Slot| k2@.to_set().contains(x) <==> keys_of(d@).difference(values_of(d@)).contains(x) by {
            lemma_keys_of(d@, x);
        }
        assert(k2@.to_set() =~= keys_of(d@).difference(values_of(d@)));
        assert forall|x: Slot| v2@.to_set().contains(x) <==> values_of(d@).difference(keys_of(d@)).contains(x) by {
            lemma_keys_of(d@, x);
        }
        assert(v2@.to_set() =~= values_of(d@).difference(keys_of(d@)));
    }
    let ks = sort_slots(&k2);
    let vs = sort_slots(&v2);
    proof {
        lemma_completion_lens(d@);
        k2@.unique_seq_to_set();
        v2@.unique_seq_to_set();
        assert(ks@.no_duplicates()) by {
            assert forall|a: int, b: int| 0 <= a < ks@.len() && 0 <= b < ks@.len() && a != b implies ks@[a] != ks@[b] by {
                if a < b {
                    assert(ks@[a] < ks@[b]);
                } else {
                    assert(ks@[b] < ks@[a]);
                }
            }
        }
        assert(vs@.no_duplicates()) by {
            assert forall|a: int, b: int| 0 <= a < vs@.len() && 0 <= b < vs@.len() && a != b implies vs@[a] != vs@[b] by {
                if a < b {
                    assert(vs@[a] < vs@[b]);
                } else {
                    assert(vs@[b] < vs@[a]);
                }
            }
        }
        ks@.unique_seq_to_set();
        vs@.unique_seq_to_set();
    }
    let mut pairs: Vec<(Slot, Slot)> = Vec::new();
    let mut j: usize = 0;
    while j < d.len()
        invariant
            j <= d@.len(),
            pairs@ == d@.take(j as int),
        decreases d.len() - j,
    {
        pairs.push(d[j]);
        j += 1;
        proof {
            assert(d@.take(j as int) == d@.take(j - 1).push(d@[j - 1]));
        }
    }
    proof {
        assert(d@.take(j as int) == d@);
    }
    let ghost c = Seq::new(vs@.len(), |m: int| (vs@[m], ks@[m]));
    let mut m: usize = 0;
    while m < vs.len()
        invariant
            m <= vs@.len(),
            vs@.len() == ks@.len(),
            c == Seq::new(vs@.len(), |q: int| (vs@[q], ks@[q])),
            pairs@ == d@ + c.take(m as int),
        decreases vs.len() - m,
    {
        pairs.push((vs[m], ks[m]));
        m += 1;
        proof {
            assert(c.take(m as int) == c.take(m - 1).push(c[m - 1]));
            assert(d@ + c.take(m as int) == (d@ + c.take(m - 1)).push(c[m - 1]));
        }
    }
    proof {
        assert(c.take(m as int) == c);
        lemma_complete_perm(d@, ks@, vs@);
        assert(c == completion(d@));
        assert(pairs@ == completed(d@, ks@, vs@));
    }
    SlotMap::mk(pairs)
}

} // verus!
