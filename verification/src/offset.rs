use vstd::prelude::*;
use crate::api::{Group, GroupLaws, Semilattice, SemilatticeLaws};

verus! {

/// The modulus of `i64` arithmetic.
pub open spec fn modulus() -> int {
    0x1_0000_0000_0000_0000
}

/// The `i64` that is congruent to `x` modulo 2^64: what wrapping `i64`
/// arithmetic gives for the mathematical result `x`.
pub open spec fn wrap(x: int) -> i64 {
    let r = x % modulus();
    if r > i64::MAX {
        (r - modulus()) as i64
    } else {
        r as i64
    }
}

pub proof fn lemma_wrap_mod(x: int)
    ensures
        wrap(x) as int % modulus() == x % modulus(),
        wrap(x) as int == x <==> i64::MIN <= x <= i64::MAX,
{
    let m = modulus();
    let r = x % m;
    assert(0 <= r < m);
    if r > i64::MAX {
        assert((r - m) % m == r % m) by {
            vstd::arithmetic::div_mod::lemma_mod_sub_multiples_vanish(r, m);
        }
        assert(r % m == r) by {
            vstd::arithmetic::div_mod::lemma_small_mod(r as nat, m as nat);
        }
    } else {
        assert(r % m == r) by {
            vstd::arithmetic::div_mod::lemma_small_mod(r as nat, m as nat);
        }
    }
    if i64::MIN <= x <= i64::MAX {
        if x >= 0 {
            vstd::arithmetic::div_mod::lemma_small_mod(x as nat, m as nat);
        } else {
            assert((x + m) % m == x % m) by {
                vstd::arithmetic::div_mod::lemma_mod_add_multiples_vanish(x, m);
            }
            vstd::arithmetic::div_mod::lemma_small_mod((x + m) as nat, m as nat);
        }
    }
}

/// Wrapping addition is addition followed by `wrap`.
pub proof fn lemma_wrapping_add(a: i64, b: i64)
    ensures
        a.wrapping_add(b) == wrap(a + b),
{
    let m = modulus();
    let s = a + b;
    lemma_wrap_mod(s);
    if s > i64::MAX {
        lemma_wrap_mod(s - m);
        assert((s - m) % m == s % m) by {
            vstd::arithmetic::div_mod::lemma_mod_sub_multiples_vanish(s, m);
        }
        lemma_wrap_congruent(s - m, s);
    } else if s < i64::MIN {
        lemma_wrap_mod(s + m);
        assert((s + m) % m == s % m) by {
            vstd::arithmetic::div_mod::lemma_mod_add_multiples_vanish(s, m);
        }
        lemma_wrap_congruent(s + m, s);
    }
}

/// Wrapping negation is negation followed by `wrap`.
pub proof fn lemma_wrapping_neg(a: i64)
    ensures
        0i64.wrapping_sub(a) == wrap(-a),
{
    let m = modulus();
    let s = 0 - a;
    lemma_wrap_mod(s);
    if s > i64::MAX {
        lemma_wrap_mod(s - m);
        assert((s - m) % m == s % m) by {
            vstd::arithmetic::div_mod::lemma_mod_sub_multiples_vanish(s, m);
        }
        lemma_wrap_congruent(s - m, s);
    }
}

/// Numbers that are congruent modulo 2^64 wrap to the same `i64`.
pub proof fn lemma_wrap_congruent(x: int, y: int)
    requires
        x % modulus() == y % modulus(),
    ensures
        wrap(x) == wrap(y),
{
}

/// `wrap` can be applied to the operands of a sum without changing the result.
pub proof fn lemma_wrap_add_inner(x: int, y: int)
    ensures
        wrap(wrap(x) + y) == wrap(x + y),
        wrap(y + wrap(x)) == wrap(y + x),
{
    let m = modulus();
    lemma_wrap_mod(x);
    assert((wrap(x) + y) % m == (x + y) % m) by {
        vstd::arithmetic::div_mod::lemma_add_mod_noop(wrap(x) as int, y, m);
        vstd::arithmetic::div_mod::lemma_add_mod_noop(x, y, m);
    }
    lemma_wrap_congruent(wrap(x) + y, x + y);
    lemma_wrap_congruent(y + wrap(x), y + x);
}

/// A shift of an e-class by a constant: `Offset(c)*x` stands for `x + c`.
/// Offsets add with `i64` wrapping arithmetic, so they form a group
/// (the integers modulo 2^64).
#[derive(Clone, Copy, PartialEq, Eq, Hash, Debug)]
pub struct Offset(pub i64);

impl Offset {
    /// `x + self`, with wrapping `i64` arithmetic.
    pub fn apply(&self, x: i64) -> (res: i64)
        ensures
            res == wrap(x + self.0),
    {
        proof {
            lemma_wrapping_add(x, self.0);
        }
        x.wrapping_add(self.0)
    }
}

impl View for Offset {
    type V = Offset;

    open spec fn view(&self) -> Offset {
        *self
    }
}

impl Group for Offset {
    open spec fn op(l: Offset, r: Offset) -> Offset {
        Offset(wrap(l.0 + r.0))
    }

    open spec fn inv(g: Offset) -> Offset {
        Offset(wrap(-g.0))
    }

    open spec fn unit() -> Offset {
        Offset(0)
    }

    fn compose(l: &Offset, r: &Offset) -> (res: Offset) {
        proof {
            lemma_wrapping_add(l.0, r.0);
        }
        Offset(l.0.wrapping_add(r.0))
    }

    fn inverse(&self) -> (res: Offset) {
        proof {
            lemma_wrapping_neg(self.0);
        }
        Offset(0i64.wrapping_sub(self.0))
    }

    fn identity() -> (res: Offset) {
        Offset(0)
    }

    fn duplicate(&self) -> (res: Offset) {
        *self
    }

    fn is_unit(&self) -> (res: bool) {
        self.0 == 0
    }
}

impl GroupLaws for Offset {
    proof fn lemma_assoc(a: Offset, b: Offset, c: Offset) {
        lemma_wrap_add_inner(a.0 + b.0, c.0 as int);
        lemma_wrap_add_inner(b.0 + c.0, a.0 as int);
        assert(a.0 + b.0 + c.0 == a.0 + (b.0 + c.0));
    }

    proof fn lemma_unit(a: Offset) {
        lemma_wrap_mod(a.0 as int);
    }

    proof fn lemma_inverse(a: Offset) {
        lemma_wrap_add_inner(-a.0, a.0 as int);
        lemma_wrap_add_inner(-a.0, a.0 as int);
        lemma_wrap_mod(0);
        assert(wrap(wrap(-a.0) + a.0) == wrap(0));
        assert(wrap(a.0 + wrap(-a.0)) == wrap(0));
    }

    proof fn lemma_inv_inv(a: Offset) {
        lemma_wrap_mod(-a.0);
        lemma_wrap_mod(a.0 as int);
        assert(-(wrap(-a.0) as int) % modulus() == (a.0 as int) % modulus()) by {
            let m = modulus();
            let w = wrap(-a.0) as int;
            vstd::arithmetic::div_mod::lemma_fundamental_div_mod(w, m);
            vstd::arithmetic::div_mod::lemma_fundamental_div_mod(-a.0, m);
            vstd::arithmetic::div_mod::lemma_fundamental_div_mod(-w, m);
            vstd::arithmetic::div_mod::lemma_fundamental_div_mod(a.0 as int, m);
            vstd::arithmetic::div_mod::lemma_mod_sub_multiples_vanish(0, m);
            vstd::arithmetic::div_mod::lemma_sub_mod_noop(0, w, m);
            vstd::arithmetic::div_mod::lemma_sub_mod_noop(0, -a.0, m);
        }
        lemma_wrap_congruent(-(wrap(-a.0) as int), a.0 as int);
    }

    proof fn lemma_inv_op(a: Offset, b: Offset) {
        lemma_wrap_mod(a.0 + b.0);
        lemma_wrap_mod(-a.0);
        lemma_wrap_mod(-b.0);
        let m = modulus();
        let w = wrap(a.0 + b.0) as int;
        let wa = wrap(-a.0) as int;
        let wb = wrap(-b.0) as int;
        assert((-w) % m == (wb + wa) % m) by {
            vstd::arithmetic::div_mod::lemma_sub_mod_noop(0, w, m);
            vstd::arithmetic::div_mod::lemma_sub_mod_noop(0, a.0 + b.0, m);
            vstd::arithmetic::div_mod::lemma_add_mod_noop(wb, wa, m);
            vstd::arithmetic::div_mod::lemma_add_mod_noop(-b.0, -a.0, m);
            assert(-(a.0 + b.0) == -b.0 + -a.0);
        }
        lemma_wrap_congruent(-w, wb + wa);
    }
}

/// Constant propagation: `Some(c)` when the e-class is known to equal `c`.
impl Semilattice for Option<i64> {
    type G = Offset;

    open spec fn acted(g: Offset, s: Option<i64>) -> Option<i64> {
        match s {
            Some(x) => Some(wrap(x + g.0)),
            None => None,
        }
    }

    open spec fn join(self, other: Option<i64>) -> Option<i64> {
        match other {
            None => self,
            Some(o) => match self {
                None => Some(o),
                Some(x) => Some(x),
            },
        }
    }

    /// Two different constants cannot be merged.
    open spec fn mergeable(self, other: Option<i64>) -> bool {
        match (self, other) {
            (Some(x), Some(o)) => x == o,
            _ => true,
        }
    }

    open spec fn stabilizes(self, g: Offset) -> bool {
        g == Offset(0)
    }

    open spec fn with_self_edge(self, g: Offset) -> Option<i64> {
        self
    }

    /// Only the trivial self-edge can be inserted.
    open spec fn edge_insertable(self, g: Offset) -> bool {
        g == Offset(0)
    }

    open spec fn height(self) -> nat {
        if self is Some { 1 } else { 0 }
    }

    open spec fn max_height() -> nat {
        1
    }

    proof fn lemma_height_bound(s: Option<i64>) {
    }

    proof fn lemma_join_height(s: Option<i64>, o: Option<i64>) {
    }

    proof fn lemma_insert_height(s: Option<i64>, g: Offset) {
    }

    fn act(g: &Offset, s: &Option<i64>) -> (res: Option<i64>) {
        assert(g@ == *g);
        match s {
            Some(x) => Some(g.apply(*x)),
            None => None,
        }
    }

    fn merge(&mut self, other: Option<i64>) -> (changed: bool) {
        let o = match other {
            Some(o) => o,
            None => {
                return false;
            },
        };
        match *self {
            None => {
                *self = Some(o);
                true
            },
            Some(_) => false,
        }
    }

    fn insert_self_edge(&mut self, g: Offset) {
    }

    fn contains_self_edge(&self, g: &Offset) -> (res: bool) {
        assert(g@ == *g);
        g.0 == 0
    }

    fn can_merge(&self, other: &Option<i64>) -> (res: bool) {
        match (self, other) {
            (Some(x), Some(o)) => *x == *o,
            _ => true,
        }
    }

    fn can_insert_self_edge(&self, g: &Offset) -> (res: bool) {
        assert(g@ == *g);
        g.0 == 0
    }

    fn duplicate(&self) -> (res: Option<i64>) {
        *self
    }
}

impl SemilatticeLaws for Option<i64> {
    proof fn lemma_unit_stabilizes(s: Option<i64>) {
    }

    proof fn lemma_inserted_edge(s: Option<i64>, g: Offset) {
    }

    proof fn lemma_stabilizes_inv(s: Option<i64>, h: Offset) {
        lemma_wrap_mod(0);
    }

    proof fn lemma_stabilizes_op(s: Option<i64>, h1: Offset, h2: Offset) {
        lemma_wrap_mod(0);
    }

    proof fn lemma_join_keeps(s: Option<i64>, o: Option<i64>, h: Offset) {
    }

    proof fn lemma_edge_keeps(s: Option<i64>, g: Offset, h: Offset) {
    }

    proof fn lemma_acted_stabilizes(s: Option<i64>, g: Offset, h: Offset) {
        Offset::lemma_unit(g);
        Offset::lemma_inverse(g);
    }
}

} // verus!
