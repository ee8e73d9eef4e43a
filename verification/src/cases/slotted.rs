use vstd::prelude::*;
use std::collections::HashSet;
use crate::api::Group;

verus! {

broadcast use vstd::std_specs::hash::group_hash_axioms;

pub type Slot = usize;

/// How many entries of `s` have a key at most `k`.
pub open spec fn count_le(s: Seq<(Slot, Slot)>, k: Slot) -> nat
    decreases s.len(),
{
    if s.len() == 0 {
        0
    } else {
        count_le(s.drop_last(), k) + if s.last().0 <= k { 1nat } else { 0nat }
    }
}

/// Inserts `e` after every entry whose key is at most `e.0`.
pub open spec fn sorted_insert(s: Seq<(Slot, Slot)>, e: (Slot, Slot)) -> Seq<(Slot, Slot)> {
    s.insert(count_le(s, e.0) as int, e)
}

/// Stable insertion sort by key.
pub open spec fn sort_by_key(s: Seq<(Slot, Slot)>) -> Seq<(Slot, Slot)>
    decreases s.len(),
{
    if s.len() == 0 {
        s
    } else {
        sorted_insert(sort_by_key(s.drop_last()), s.last())
    }
}

/// Keys never decrease along `s`.
pub open spec fn keys_nondecreasing(s: Seq<(Slot, Slot)>) -> bool {
    forall|i: int, j: int| 0 <= i < j < s.len() ==> s[i].0 <= s[j].0
}

/// The value of the first entry with key `x`.
pub open spec fn first_value(s: Seq<(Slot, Slot)>, x: Slot) -> Option<Slot>
    decreases s.len(),
{
    if s.len() == 0 {
        None
    } else if s[0].0 == x {
        Some(s[0].1)
    } else {
        first_value(s.drop_first(), x)
    }
}

/// `l` after `r`, where both are defined: the entries `(x, l(y))` for the
/// entries `(x, y)` of `r` whose `y` is a key of `l`, in the order of `r`.
pub open spec fn compose_pairs(l: Seq<(Slot, Slot)>, r: Seq<(Slot, Slot)>) -> Seq<(Slot, Slot)>
    decreases r.len(),
{
    if r.len() == 0 {
        Seq::empty()
    } else {
        let rest = compose_pairs(l, r.drop_last());
        match first_value(l, r.last().1) {
            Some(z) => rest.push((r.last().0, z)),
            None => rest,
        }
    }
}

/// The entries with key and value swapped.
pub open spec fn swap_pairs(s: Seq<(Slot, Slot)>) -> Seq<(Slot, Slot)> {
    s.map_values(|p: (Slot, Slot)| (p.1, p.0))
}

/// A partial, injective map between slots, stored as its entries sorted by
/// key. Its keys typically are the public slots of some e-class.
pub struct SlotMap {
    v: Vec<(Slot, Slot)>,
}

impl View for SlotMap {
    type V = Seq<(Slot, Slot)>;

    closed spec fn view(&self) -> Seq<(Slot, Slot)> {
        self.v@
    }
}

proof fn lemma_count_le_bound(s: Seq<(Slot, Slot)>, k: Slot)
    ensures
        count_le(s, k) <= s.len(),
    decreases s.len(),
{
    if s.len() > 0 {
        lemma_count_le_bound(s.drop_last(), k);
    }
}

/// In a sorted sequence, the entries with key at most `k` come first.
proof fn lemma_count_le_prefix(s: Seq<(Slot, Slot)>, k: Slot)
    requires
        keys_nondecreasing(s),
    ensures
        count_le(s, k) <= s.len(),
        forall|i: int| 0 <= i < count_le(s, k) ==> s[i].0 <= k,
        forall|i: int| count_le(s, k) <= i < s.len() ==> s[i].0 > k,
    decreases s.len(),
{
    lemma_count_le_bound(s, k);
    if s.len() > 0 {
        let t = s.drop_last();
        lemma_count_le_prefix(t, k);
        assert forall|i: int| 0 <= i < count_le(s, k) implies s[i].0 <= k by {
            if i < count_le(t, k) {
                assert(t[i] == s[i]);
            }
        }
        assert forall|i: int| count_le(s, k) <= i < s.len() implies s[i].0 > k by {
            if i < s.len() - 1 {
                assert(t[i] == s[i]);
                if s.last().0 <= k {
                    assert(s[i].0 <= s.last().0);
                }
            }
        }
    }
}

impl SlotMap {
    /// The entries of `pairs`, sorted by key (stably).
    pub fn mk(pairs: Vec<(Slot, Slot)>) -> (res: SlotMap)
        ensures
            res@ == sort_by_key(pairs@),
            keys_nondecreasing(res@),
    {
        let mut out: Vec<(Slot, Slot)> = Vec::new();
        let mut i: usize = 0;
        while i < pairs.len()
            invariant
                i <= pairs@.len(),
                out@ == sort_by_key(pairs@.subrange(0, i as int)),
                keys_nondecreasing(out@),
            decreases pairs@.len() - i,
        {
            let e = pairs[i];
            let mut p: usize = 0;
            while p < out.len() && out[p].0 <= e.0
                invariant
                    p <= out@.len(),
                    forall|k: int| 0 <= k < p ==> out@[k].0 <= e.0,
                decreases out@.len() - p,
            {
                p += 1;
            }
            proof {
                lemma_count_le_prefix(out@, e.0);
                if p < out@.len() {
                    assert(out@[p as int].0 > e.0);
                    assert(p == count_le(out@, e.0)) by {
                        if p < count_le(out@, e.0) {
                            assert(out@[p as int].0 <= e.0);
                        }
                        if p > count_le(out@, e.0) {
                            let c = count_le(out@, e.0) as int;
                            assert(out@[c].0 > e.0);
                        }
                    }
                } else {
                    assert(p == count_le(out@, e.0)) by {
                        if p > count_le(out@, e.0) {
                            let c = count_le(out@, e.0) as int;
                            assert(out@[c].0 > e.0);
                        }
                    }
                }
                assert(pairs@.subrange(0, i + 1).drop_last() == pairs@.subrange(0, i as int));
            }
            let ghost prev = out@;
            out.insert(p, e);
            proof {
                assert forall|a: int| 0 <= a < out@.len() implies #[trigger] out@[a] == (if a < p { prev[a] } else if a == p { e } else { prev[a - 1] }) by {}
                assert forall|a: int, b: int| 0 <= a < b < out@.len() implies out@[a].0 <= out@[b].0 by {
                    if b < p {
                    } else if b == p {
                    } else if a < p {
                        assert(prev[a].0 <= prev[b - 1].0);
                    } else if a == p {
                    } else {
                    }
                }
            }
            i += 1;
        }
        proof {
            assert(pairs@.subrange(0, i as int) == pairs@);
        }
        SlotMap { v: out }
    }

    /// The keys, in order.
    pub fn keys(&self) -> (res: Vec<Slot>)
        ensures
            res@ == self@.map_values(|p: (Slot, Slot)| p.0),
    {
        let mut out: Vec<Slot> = Vec::new();
        let mut i: usize = 0;
        while i < self.v.len()
            invariant
                i <= self.v@.len(),
                out@ == self.v@.subrange(0, i as int).map_values(|p: (Slot, Slot)| p.0),
            decreases self.v@.len() - i,
        {
            out.push(self.v[i].0);
            i += 1;
            proof {
                assert(self.v@.subrange(0, i as int).map_values(|p: (Slot, Slot)| p.0) =~= self.v@.subrange(0, i - 1).map_values(|p: (Slot, Slot)| p.0).push(self.v@[i - 1].0));
            }
        }
        proof {
            assert(self.v@.subrange(0, i as int) == self.v@);
        }
        out
    }

    /// The values, in the order of the keys.
    pub fn values(&self) -> (res: Vec<Slot>)
        ensures
            res@ == self@.map_values(|p: (Slot, Slot)| p.1),
    {
        let mut out: Vec<Slot> = Vec::new();
        let mut i: usize = 0;
        while i < self.v.len()
            invariant
                i <= self.v@.len(),
                out@ == self.v@.subrange(0, i as int).map_values(|p: (Slot, Slot)| p.1),
            decreases self.v@.len() - i,
        {
            out.push(self.v[i].1);
            i += 1;
            proof {
                assert(self.v@.subrange(0, i as int).map_values(|p: (Slot, Slot)| p.1) =~= self.v@.subrange(0, i - 1).map_values(|p: (Slot, Slot)| p.1).push(self.v@[i - 1].1));
            }
        }
        proof {
            assert(self.v@.subrange(0, i as int) == self.v@);
        }
        out
    }

    /// Where `x` goes, if it is a key.
    pub fn get(&self, x: Slot) -> (res: Option<Slot>)
        ensures
            res == first_value(self@, x),
    {
        let mut i: usize = 0;
        proof {
            assert(self.v@.subrange(0, self.v@.len() as int) == self.v@);
        }
        while i < self.v.len()
            invariant
                i <= self.v@.len(),
                first_value(self.v@.subrange(i as int, self.v@.len() as int), x) == first_value(self.v@, x),
            decreases self.v@.len() - i,
        {
            let ghost rest = self.v@.subrange(i as int, self.v@.len() as int);
            proof {
                assert(rest.drop_first() == self.v@.subrange(i + 1, self.v@.len() as int));
            }
            if self.v[i].0 == x {
                return Some(self.v[i].1);
            }
            i += 1;
        }
        None
    }

    /// The entries, in order.
    pub fn iter(&self) -> (res: Vec<(Slot, Slot)>)
        ensures
            res@ == self@,
    {
        let mut out: Vec<(Slot, Slot)> = Vec::new();
        let mut i: usize = 0;
        while i < self.v.len()
            invariant
                i <= self.v@.len(),
                out@ == self.v@.subrange(0, i as int),
            decreases self.v@.len() - i,
        {
            out.push(self.v[i]);
            i += 1;
        }
        proof {
            assert(out@ == self.v@);
        }
        out
    }
}

/// The entries of `s` whose key is in `slots`, in order.
pub open spec fn entries_in(s: Seq<(Slot, Slot)>, slots: Set<Slot>) -> Seq<(Slot, Slot)>
    decreases s.len(),
{
    if s.len() == 0 {
        s
    } else if slots.contains(s.last().0) {
        entries_in(s.drop_last(), slots).push(s.last())
    } else {
        entries_in(s.drop_last(), slots)
    }
}

impl Group for SlotMap {
    open spec fn op(l: Seq<(Slot, Slot)>, r: Seq<(Slot, Slot)>) -> Seq<(Slot, Slot)> {
        compose_pairs(l, r)
    }

    open spec fn inv(g: Seq<(Slot, Slot)>) -> Seq<(Slot, Slot)> {
        sort_by_key(swap_pairs(g))
    }

    open spec fn unit() -> Seq<(Slot, Slot)> {
        Seq::empty()
    }

    /// `l` after `r`, defined where both are.
    fn compose(l: &SlotMap, r: &SlotMap) -> (res: SlotMap) {
        let mut v: Vec<(Slot, Slot)> = Vec::new();
        let mut i: usize = 0;
        while i < r.v.len()
            invariant
                i <= r.v@.len(),
                v@ == compose_pairs(l@, r.v@.subrange(0, i as int)),
            decreases r.v@.len() - i,
        {
            let (x, y) = r.v[i];
            proof {
                assert(r.v@.subrange(0, i + 1).drop_last() == r.v@.subrange(0, i as int));
            }
            if let Some(z) = l.get(y) {
                v.push((x, z));
            }
            i += 1;
        }
        proof {
            assert(r.v@.subrange(0, i as int) == r.v@);
        }
        SlotMap { v }
    }

    fn inverse(&self) -> (res: SlotMap) {
        let mut pairs: Vec<(Slot, Slot)> = Vec::new();
        let mut i: usize = 0;
        while i < self.v.len()
            invariant
                i <= self.v@.len(),
                pairs@ == swap_pairs(self.v@.subrange(0, i as int)),
            decreases self.v@.len() - i,
        {
            pairs.push((self.v[i].1, self.v[i].0));
            i += 1;
            proof {
                assert(swap_pairs(self.v@.subrange(0, i as int)) =~= swap_pairs(self.v@.subrange(0, i - 1)).push((self.v@[i - 1].1, self.v@[i - 1].0)));
            }
        }
        proof {
            assert(self.v@.subrange(0, i as int) == self.v@);
        }
        SlotMap::mk(pairs)
    }

    fn identity() -> (res: SlotMap) {
        SlotMap { v: Vec::new() }
    }

    fn duplicate(&self) -> (res: SlotMap) {
        SlotMap { v: self.iter() }
    }

    fn is_unit(&self) -> (res: bool) {
        let r = self.v.len() == 0;
        proof {
            if r {
                assert(self.v@ =~= Seq::<(Slot, Slot)>::empty());
            }
        }
        r
    }
}

/// The entries of `m` whose keys are in `slots`; `None` when an entry goes
/// into or out of `slots`.
pub fn restrict(m: &SlotMap, slots: &HashSet<Slot>) -> (res: Option<SlotMap>)
    ensures
        res is None <==> exists|i: int| 0 <= i < m@.len() && slots@.contains(#[trigger] m@[i].0) != slots@.contains(m@[i].1),
        res matches Some(r) ==> r@ == sort_by_key(entries_in(m@, slots@)),
{
    let pairs = m.iter();
    let mut out: Vec<(Slot, Slot)> = Vec::new();
    let mut i: usize = 0;
    while i < pairs.len()
        invariant
            pairs@ == m@,
            i <= pairs@.len(),
            forall|k: int| 0 <= k < i ==> (slots@.contains(#[trigger] pairs@[k].0) <==> slots@.contains(pairs@[k].1)),
            out@ == entries_in(pairs@.subrange(0, i as int), slots@),
        decreases pairs@.len() - i,
    {
        let (x, y) = pairs[i];
        proof {
            assert(pairs@.subrange(0, i + 1).drop_last() == pairs@.subrange(0, i as int));
        }
        if slots.contains(&x) != slots.contains(&y) {
            return None;
        }
        if slots.contains(&x) {
            out.push((x, y));
        }
        i += 1;
    }
    proof {
        assert(pairs@.subrange(0, i as int) == pairs@);
    }
    Some(SlotMap::mk(out))
}


/// No key occurs twice in `s`.
pub open spec fn distinct_keys(s: Seq<(Slot, Slot)>) -> bool {
    forall|i: int, j: int| 0 <= i < j < s.len() ==> s[i].0 != s[j].0
}

proof fn lemma_first_value_push(s: Seq<(Slot, Slot)>, e: (Slot, Slot), x: Slot)
    ensures
        first_value(s.push(e), x) == (match first_value(s, x) {
            Some(v) => Some(v),
            None => if e.0 == x {
                Some(e.1)
            } else {
                None
            },
        }),
    decreases s.len(),
{
    if s.len() > 0 {
        lemma_first_value_push(s.drop_first(), e, x);
        assert(s.push(e).drop_first() =~= s.drop_first().push(e));
        assert(s.push(e)[0] == s[0]);
    } else {
        assert(s.push(e).drop_first() =~= Seq::<(Slot, Slot)>::empty());
        assert(s.push(e)[0] == e);
        assert(first_value(Seq::<(Slot, Slot)>::empty(), x) is None);
        assert(first_value(s, x) is None);
    }
}

/// Composition is composition of partial maps: `l` after `r` is defined at
/// `x` exactly when `r` is, and `l` is at `r(x)`, and then gives `l(r(x))`
/// (also where that is `x` itself).
pub proof fn lemma_compose_lookup(l: Seq<(Slot, Slot)>, r: Seq<(Slot, Slot)>, x: Slot)
    requires
        distinct_keys(r),
    ensures
        first_value(<SlotMap as Group>::op(l, r), x) == (match first_value(r, x) {
            Some(y) => first_value(l, y),
            None => None,
        }),
    decreases r.len(),
{
    if r.len() == 0 {
    } else {
        let d = r.drop_last();
        let e = r.last();
        assert(distinct_keys(d)) by {
            assert forall|i: int, j: int| 0 <= i < j < d.len() implies d[i].0 != d[j].0 by {
                assert(d[i] == r[i] && d[j] == r[j]);
            }
        }
        lemma_compose_lookup(l, d, x);
        assert(r == d.push(e));
        lemma_first_value_push(d, e, x);
        let rest = compose_pairs(l, d);
        match first_value(l, e.1) {
            Some(z) => {
                lemma_first_value_push(rest, (e.0, z), x);
            },
            None => {},
        }
        if e.0 == x {
            assert(first_value(d, x) is None) by {
                lemma_first_value_none(d, x);
            }
        }
    }
}

proof fn lemma_first_value_none(s: Seq<(Slot, Slot)>, x: Slot)
    requires
        forall|i: int| 0 <= i < s.len() ==> s[i].0 != x,
    ensures
        first_value(s, x) is None,
    decreases s.len(),
{
    if s.len() > 0 {
        assert forall|i: int| 0 <= i < s.drop_first().len() implies s.drop_first()[i].0 != x by {
            assert(s.drop_first()[i] == s[i + 1]);
        }
        lemma_first_value_none(s.drop_first(), x);
    }
}


/// With distinct keys, `first_value` finds the entry with the key, wherever
/// it stands.
proof fn lemma_first_value_at(s: Seq<(Slot, Slot)>, i: int)
    requires
        distinct_keys(s),
        0 <= i < s.len(),
    ensures
        first_value(s, s[i].0) == Some(s[i].1),
    decreases s.len(),
{
    if i > 0 {
        let d = s.drop_first();
        assert(distinct_keys(d)) by {
            assert forall|a: int, b: int| 0 <= a < b < d.len() implies d[a].0 != d[b].0 by {
                assert(d[a] == s[a + 1] && d[b] == s[b + 1]);
            }
        }
        assert(d[i - 1] == s[i]);
        assert(s[0].0 != s[i].0);
        lemma_first_value_at(d, i - 1);
    }
}

/// `first_value` finds only entries of `s`.
proof fn lemma_first_value_some(s: Seq<(Slot, Slot)>, x: Slot)
    ensures
        first_value(s, x) matches Some(v) ==> exists|i: int| 0 <= i < s.len() && s[i] == (x, v),
        first_value(s, x) is None ==> forall|i: int| 0 <= i < s.len() ==> s[i].0 != x,
    decreases s.len(),
{
    if s.len() > 0 {
        let d = s.drop_first();
        lemma_first_value_some(d, x);
        if s[0].0 != x {
            if first_value(d, x) is Some {
                let i = choose|i: int| 0 <= i < d.len() && d[i] == (x, first_value(d, x)->Some_0);
                assert(s[i + 1] == d[i]);
            } else {
                assert forall|i: int| 0 <= i < s.len() implies s[i].0 != x by {
                    if i > 0 {
                        assert(s[i] == d[i - 1]);
                    }
                }
            }
        }
    }
}

/// Inserting an entry anywhere changes only the lookup of its own key, and
/// that only where the key was absent.
proof fn lemma_first_value_insert(s: Seq<(Slot, Slot)>, p: int, e: (Slot, Slot), x: Slot)
    requires
        0 <= p <= s.len(),
        x != e.0,
    ensures
        first_value(s.insert(p, e), x) == first_value(s, x),
    decreases s.len(),
{
    if p == 0 {
        assert(s.insert(p, e).drop_first() =~= s);
    } else {
        lemma_first_value_insert(s.drop_first(), p - 1, e, x);
        assert(s.insert(p, e).drop_first() =~= s.drop_first().insert(p - 1, e));
        assert(s.insert(p, e)[0] == s[0]);
    }
}

proof fn lemma_first_value_insert_new(s: Seq<(Slot, Slot)>, p: int, e: (Slot, Slot))
    requires
        0 <= p <= s.len(),
        first_value(s, e.0) is None,
    ensures
        first_value(s.insert(p, e), e.0) == Some(e.1),
    decreases s.len(),
{
    if p == 0 {
        assert(s.insert(p, e)[0] == e);
    } else {
        assert(s[0].0 != e.0);
        lemma_first_value_insert_new(s.drop_first(), p - 1, e);
        assert(s.insert(p, e).drop_first() =~= s.drop_first().insert(p - 1, e));
        assert(s.insert(p, e)[0] == s[0]);
    }
}

/// With distinct keys, sorting keeps every lookup.
proof fn lemma_sort_lookup(s: Seq<(Slot, Slot)>, x: Slot)
    requires
        distinct_keys(s),
    ensures
        first_value(sort_by_key(s), x) == first_value(s, x),
    decreases s.len(),
{
    if s.len() > 0 {
        let d = s.drop_last();
        let e = s.last();
        assert(distinct_keys(d)) by {
            assert forall|a: int, b: int| 0 <= a < b < d.len() implies d[a].0 != d[b].0 by {
                assert(d[a] == s[a] && d[b] == s[b]);
            }
        }
        lemma_sort_lookup(d, x);
        lemma_sort_lookup(d, e.0);
        lemma_count_le_bound(sort_by_key(d), e.0);
        assert(s == d.push(e));
        lemma_first_value_push(d, e, x);
        if x != e.0 {
            lemma_first_value_insert(sort_by_key(d), count_le(sort_by_key(d), e.0) as int, e, x);
        } else {
            assert forall|i: int| 0 <= i < d.len() implies d[i].0 != x by {
                assert(d[i] == s[i]);
                assert(s[s.len() - 1] == e);
            }
            lemma_first_value_none(d, x);
            lemma_first_value_insert_new(sort_by_key(d), count_le(sort_by_key(d), e.0) as int, e);
        }
    }
}

/// Inverting a partial injective map: where `m` sends `x` to `y`, its
/// inverse sends `y` back to `x`.
pub proof fn lemma_inverse_lookup(m: Seq<(Slot, Slot)>, x: Slot, y: Slot)
    requires
        distinct_keys(m),
        forall|i: int, j: int| 0 <= i < j < m.len() ==> m[i].1 != m[j].1,
        first_value(m, x) == Some(y),
    ensures
        first_value(<SlotMap as Group>::inv(m), y) == Some(x),
{
    let w = swap_pairs(m);
    assert(distinct_keys(w)) by {
        assert forall|a: int, b: int| 0 <= a < b < w.len() implies w[a].0 != w[b].0 by {
            assert(w[a].0 == m[a].1 && w[b].0 == m[b].1);
        }
    }
    lemma_first_value_some(m, x);
    let i = choose|i: int| 0 <= i < m.len() && m[i] == (x, y);
    assert(w[i] == (y, x));
    lemma_first_value_at(w, i);
    lemma_sort_lookup(w, y);
}

} // verus!
