use vstd::prelude::*;

pub mod analysis;
pub mod matching;
use crate::offset::{wrap, lemma_wrap_mod, lemma_wrapping_add, modulus, Offset};
use crate::assoc::{keys_sorted, assoc_map, lemma_assoc_map_push, lemma_assoc_map_dom, lemma_assoc_map_value, lemma_assoc_map_finite, lemma_assoc_map_len, lemma_sorted_assoc_unique};

verus! {

/// A variable of a symbolic offset.
pub type GVar = usize;

/// The coefficients of a sum: a variable of `b` is kept when its summed
/// coefficient (with wrapping arithmetic) is not zero.
pub open spec fn add_coeffs(a: Map<GVar, i64>, b: Map<GVar, i64>) -> Map<GVar, i64> {
    Map::new(
        |k: GVar|
            (a.dom().contains(k) && !b.dom().contains(k)) || (b.dom().contains(k) && wrap(
                (if a.dom().contains(k) { a[k] as int } else { 0 }) + b[k],
            ) != 0),
        |k: GVar|
            if b.dom().contains(k) {
                wrap((if a.dom().contains(k) { a[k] as int } else { 0 }) + b[k])
            } else {
                a[k]
            },
    )
}

/// The sum of `c * sigma(v)` over the pairs `(v, c)` of `s`.
pub open spec fn lin_sum(s: Seq<(GVar, i64)>, sigma: spec_fn(GVar) -> int) -> int
    decreases s.len(),
{
    if s.len() == 0 {
        0
    } else {
        lin_sum(s.drop_last(), sigma) + s.last().1 * sigma(s.last().0)
    }
}

/// Taking a pair out of `s` takes its term out of the sum.
proof fn lemma_lin_sum_remove(s: Seq<(GVar, i64)>, k: int, sigma: spec_fn(GVar) -> int)
    requires
        0 <= k < s.len(),
    ensures
        lin_sum(s.remove(k), sigma) + s[k].1 * sigma(s[k].0) == lin_sum(s, sigma),
    decreases s.len(),
{
    if k == s.len() - 1 {
        assert(s.remove(k) == s.drop_last());
    } else {
        lemma_lin_sum_remove(s.drop_last(), k, sigma);
        assert(s.remove(k).drop_last() == s.drop_last().remove(k));
        assert(s.remove(k).last() == s.last());
    }
}

/// Coefficients `f` times those of `a` sum to `f` times the sum of `a`.
proof fn lemma_lin_sum_scale_exact(a: Seq<(GVar, i64)>, b: Seq<(GVar, i64)>, f: i64, sigma: spec_fn(GVar) -> int)
    requires
        a.len() == b.len(),
        forall|k: int| 0 <= k < a.len() ==> (#[trigger] b[k]).0 == a[k].0 && b[k].1 == a[k].1 * f,
    ensures
        lin_sum(b, sigma) == f * lin_sum(a, sigma),
    decreases a.len(),
{
    if a.len() > 0 {
        let a2 = a.drop_last();
        let b2 = b.drop_last();
        lemma_lin_sum_scale_exact(a2, b2, f, sigma);
        let y = lin_sum(a2, sigma);
        let ca = a.last().1 as int;
        let v = sigma(a.last().0);
        assert(b.last().0 == a.last().0);
        assert(f * (y + ca * v) == f * y + (ca * f) * v) by (nonlinear_arith);
    }
}

/// Coefficients wrapped from `f` times those of `a` sum, modulo 2^64, to
/// `f` times the sum of `a`.
proof fn lemma_lin_sum_scale(a: Seq<(GVar, i64)>, b: Seq<(GVar, i64)>, f: i64, sigma: spec_fn(GVar) -> int)
    requires
        a.len() == b.len(),
        forall|k: int| 0 <= k < a.len() ==> (#[trigger] b[k]).0 == a[k].0 && b[k].1 == wrap(a[k].1 * f),
    ensures
        lin_sum(b, sigma) % modulus() == (f * lin_sum(a, sigma)) % modulus(),
    decreases a.len(),
{
    if a.len() > 0 {
        let m = modulus();
        let a2 = a.drop_last();
        let b2 = b.drop_last();
        lemma_lin_sum_scale(a2, b2, f, sigma);
        let x = lin_sum(b2, sigma);
        let y = lin_sum(a2, sigma);
        let ca = a.last().1 as int;
        let cb = b.last().1 as int;
        let v = sigma(a.last().0);
        assert(b.last().0 == a.last().0);
        lemma_wrap_mod(ca * f);
        assert(cb % m == (ca * f) % m);
        assert((cb * v) % m == ((ca * f) * v) % m) by {
            vstd::arithmetic::div_mod::lemma_mul_mod_noop_left(cb, v, m);
            vstd::arithmetic::div_mod::lemma_mul_mod_noop_left(ca * f, v, m);
        }
        assert((x + cb * v) % m == (f * y + (ca * f) * v) % m) by {
            vstd::arithmetic::div_mod::lemma_add_mod_noop(x, cb * v, m);
            vstd::arithmetic::div_mod::lemma_add_mod_noop(f * y, (ca * f) * v, m);
        }
        assert(f * (y + ca * v) == f * y + (ca * f) * v) by (nonlinear_arith);
    }
}

/// Two integers in the range of `i64` that are congruent modulo 2^64 are
/// equal.
pub proof fn lemma_congruent_in_range(a: int, b: int)
    requires
        a % modulus() == b % modulus(),
        i64::MIN <= a <= i64::MAX,
        i64::MIN <= b <= i64::MAX,
    ensures
        a == b,
{
    lemma_wrap_mod(a);
    lemma_wrap_mod(b);
}

/// No coefficient of `m` is zero.
pub open spec fn nonzero_coeffs(m: Map<GVar, i64>) -> bool {
    forall|k: GVar| #[trigger] m.dom().contains(k) ==> m[k] != 0
}

/// Without zero coefficients, summing coefficients is commutative and
/// gives no zero coefficient.
pub proof fn lemma_add_coeffs_comm(a: Map<GVar, i64>, b: Map<GVar, i64>)
    requires
        nonzero_coeffs(a),
        nonzero_coeffs(b),
    ensures
        add_coeffs(a, b) == add_coeffs(b, a),
        nonzero_coeffs(add_coeffs(a, b)),
{
    assert forall|k: GVar| #[trigger] add_coeffs(a, b).dom().contains(k) <==> add_coeffs(b, a).dom().contains(k) by {
        if a.dom().contains(k) {
            lemma_wrap_mod(a[k] as int);
            lemma_wrap_mod(0 + a[k]);
        }
        if b.dom().contains(k) {
            lemma_wrap_mod(b[k] as int);
            lemma_wrap_mod(0 + b[k]);
        }
    }
    assert forall|k: GVar| #[trigger] add_coeffs(a, b).dom().contains(k) implies add_coeffs(a, b)[k] == add_coeffs(b, a)[k]
        && add_coeffs(a, b)[k] != 0 by {
        if a.dom().contains(k) {
            lemma_wrap_mod(0 + a[k]);
        }
        if b.dom().contains(k) {
            lemma_wrap_mod(0 + b[k]);
        }
        if a.dom().contains(k) && b.dom().contains(k) {
            assert(a[k] + b[k] == b[k] + a[k]);
        }
    }
    assert(add_coeffs(a, b) =~= add_coeffs(b, a));
}

/// A linear combination of variables plus a constant, with `i64` wrapping
/// arithmetic: `const_offset + sum of coeffs[v] * v`.
pub struct SymOffset {
    const_offset: i64,
    coeffs: Vec<(GVar, i64)>,
}

impl SymOffset {
    /// The constant part.
    pub closed spec fn constant(&self) -> i64 {
        self.const_offset
    }

    /// The pairs of a variable and its coefficient, as stored.
    pub closed spec fn coeff_seq(&self) -> Seq<(GVar, i64)> {
        self.coeffs@
    }

    /// The coefficients, keyed by variable.
    pub open spec fn coeff_map(&self) -> Map<GVar, i64> {
        assoc_map(self.coeff_seq())
    }

    /// The coefficients are stored sorted by variable.
    pub open spec fn wf(&self) -> bool {
        keys_sorted(self.coeff_seq())
    }

    /// The value of the combination when each variable `v` has the value
    /// `sigma(v)`: the constant plus each coefficient times its variable.
    pub open spec fn eval(&self, sigma: spec_fn(GVar) -> int) -> int {
        self.constant() + lin_sum(self.coeff_seq(), sigma)
    }

    /// The constant part.
    pub fn constant_part(&self) -> (res: i64)
        ensures
            res == self.constant(),
    {
        self.const_offset
    }

    /// The coefficient of `v`; `0` where `v` does not occur.
    pub fn coeff(&self, v: GVar) -> (res: i64)
        requires
            self.wf(),
        ensures
            self.coeff_map().dom().contains(v) ==> res == self.coeff_map()[v],
            !self.coeff_map().dom().contains(v) ==> res == 0,
    {
        let mut i: usize = 0;
        while i < self.coeffs.len()
            invariant
                i <= self.coeffs@.len(),
                self.wf(),
                forall|j: int| 0 <= j < i ==> (#[trigger] self.coeffs@[j]).0 != v,
            decreases self.coeffs.len() - i,
        {
            if self.coeffs[i].0 == v {
                proof {
                    lemma_assoc_map_value(self.coeffs@, i as int);
                }
                return self.coeffs[i].1;
            }
            i += 1;
        }
        proof {
            lemma_assoc_map_dom(self.coeffs@, v);
        }
        0
    }

    pub fn zero() -> (res: SymOffset)
        ensures
            res.wf(),
            res.constant() == 0,
            res.coeff_map() == Map::<GVar, i64>::empty(),
    {
        Self::from_const(0)
    }

    pub fn from_const(c: i64) -> (res: SymOffset)
        ensures
            res.wf(),
            res.constant() == c,
            res.coeff_map() == Map::<GVar, i64>::empty(),
    {
        SymOffset { const_offset: c, coeffs: Vec::new() }
    }

    pub fn from_gvar(g: GVar) -> (res: SymOffset)
        ensures
            res.wf(),
            res.constant() == 0,
            res.coeff_map() == Map::<GVar, i64>::empty().insert(g, 1),
    {
        let mut coeffs = Vec::new();
        coeffs.push((g, 1i64));
        proof {
            lemma_assoc_map_push(Seq::empty(), (g, 1i64));
            assert(coeffs@ == Seq::<(GVar, i64)>::empty().push((g, 1i64)));
        }
        SymOffset { const_offset: 0, coeffs }
    }

    /// The combination times `factor`; a zero factor clears it.
    pub fn scale(&self, factor: i64) -> (res: SymOffset)
        requires
            self.wf(),
        ensures
            res.wf(),
            factor == 0 ==> res.constant() == 0 && res.coeff_map() == Map::<GVar, i64>::empty(),
            factor != 0 ==> res.constant() == wrap(self.constant() * factor),
            factor != 0 ==> res.coeff_map() == self.coeff_map().map_values(
                |c: i64| wrap(c * factor),
            ),
            forall|sigma: spec_fn(GVar) -> int| #[trigger] res.eval(sigma) % modulus() == (factor * self.eval(sigma)) % modulus(),
            forall|sigma: spec_fn(GVar) -> int|
                i64::MIN <= #[trigger] res.eval(sigma) <= i64::MAX && i64::MIN <= factor * self.eval(sigma) <= i64::MAX
                    ==> res.eval(sigma) == factor * self.eval(sigma),
            factor != 0 && nonzero_coeffs(self.coeff_map()) && (forall|v: GVar|
                #[trigger] self.coeff_map().dom().contains(v) ==> i64::MIN <= self.coeff_map()[v] * factor <= i64::MAX)
                ==> nonzero_coeffs(res.coeff_map()),
            i64::MIN <= self.constant() * factor <= i64::MAX && (forall|v: GVar|
                #[trigger] self.coeff_map().dom().contains(v) ==> i64::MIN <= self.coeff_map()[v] * factor <= i64::MAX)
                ==> forall|sigma: spec_fn(GVar) -> int| #[trigger] res.eval(sigma) == factor * self.eval(sigma),
    {
        if factor == 0 {
            let z = Self::zero();
            proof {
                lemma_assoc_map_len(z.coeffs@);
                assert forall|sigma: spec_fn(GVar) -> int| #[trigger] z.eval(sigma) % modulus() == (factor * self.eval(sigma)) % modulus() by {
                    assert(z.eval(sigma) == 0);
                    assert(factor * self.eval(sigma) == 0);
                }
                assert forall|sigma: spec_fn(GVar) -> int| #[trigger] z.eval(sigma) == factor * self.eval(sigma) by {
                    assert(z.eval(sigma) == 0);
                    assert(factor * self.eval(sigma) == 0);
                }
            }
            return z;
        }
        let mut out: Vec<(GVar, i64)> = Vec::new();
        let mut i: usize = 0;
        while i < self.coeffs.len()
            invariant
                self.wf(),
                i <= self.coeffs@.len(),
                out@.len() == i,
                forall|k: int| 0 <= k < i ==> (#[trigger] out@[k]).0 == self.coeffs@[k].0
                    && out@[k].1 == wrap(self.coeffs@[k].1 * factor),
            decreases self.coeffs@.len() - i,
        {
            let (v, c) = self.coeffs[i];
            proof {
                lemma_wrapping_mul(c, factor);
            }
            out.push((v, c.wrapping_mul(factor)));
            i += 1;
        }
        proof {
            lemma_wrapping_mul(self.const_offset, factor);
        }
        let res = SymOffset { const_offset: self.const_offset.wrapping_mul(factor), coeffs: out };
        proof {
            assert forall|sigma: spec_fn(GVar) -> int| #[trigger] res.eval(sigma) % modulus() == (factor * self.eval(sigma)) % modulus() by {
                let m = modulus();
                let c = self.const_offset as int;
                let y = lin_sum(self.coeffs@, sigma);
                let x = lin_sum(out@, sigma);
                lemma_lin_sum_scale(self.coeffs@, out@, factor, sigma);
                lemma_wrap_mod(c * factor);
                assert((res.const_offset + x) % m == (c * factor + factor * y) % m) by {
                    vstd::arithmetic::div_mod::lemma_add_mod_noop(res.const_offset as int, x, m);
                    vstd::arithmetic::div_mod::lemma_add_mod_noop(c * factor, factor * y, m);
                }
                assert(factor * (c + y) == c * factor + factor * y) by (nonlinear_arith);
            }
            assert forall|sigma: spec_fn(GVar) -> int|
                i64::MIN <= #[trigger] res.eval(sigma) <= i64::MAX && i64::MIN <= factor * self.eval(sigma) <= i64::MAX
                implies res.eval(sigma) == factor * self.eval(sigma) by {
                lemma_congruent_in_range(res.eval(sigma), factor * self.eval(sigma));
            }
            assert(keys_sorted(out@));
            let m = self.coeff_map().map_values(|c: i64| wrap(c * factor));
            assert forall|k: GVar| res.coeff_map().dom().contains(k) <==> m.dom().contains(k) by {
                lemma_assoc_map_dom(out@, k);
                lemma_assoc_map_dom(self.coeffs@, k);
                if exists|i: int| 0 <= i < out@.len() && out@[i].0 == k {
                    let i = choose|i: int| 0 <= i < out@.len() && out@[i].0 == k;
                    assert(self.coeffs@[i].0 == k);
                }
                if exists|i: int| 0 <= i < self.coeffs@.len() && self.coeffs@[i].0 == k {
                    let i = choose|i: int| 0 <= i < self.coeffs@.len() && self.coeffs@[i].0 == k;
                    assert(out@[i].0 == k);
                }
            }
            assert forall|k: GVar| res.coeff_map().dom().contains(k) implies res.coeff_map()[k]
                == m[k] by {
                lemma_assoc_map_dom(out@, k);
                let i = choose|i: int| 0 <= i < out@.len() && out@[i].0 == k;
                lemma_assoc_map_value(out@, i);
                lemma_assoc_map_value(self.coeffs@, i);
            }
            assert(res.coeff_map() =~= m);
            if i64::MIN <= self.constant() * factor <= i64::MAX && (forall|v: GVar|
                #[trigger] self.coeff_map().dom().contains(v) ==> i64::MIN <= self.coeff_map()[v] * factor <= i64::MAX) {
                assert forall|k: int| 0 <= k < self.coeffs@.len() implies (#[trigger] out@[k]).0 == self.coeffs@[k].0
                    && out@[k].1 == self.coeffs@[k].1 * factor by {
                    lemma_assoc_map_value(self.coeffs@, k);
                    lemma_wrap_mod(self.coeffs@[k].1 * factor);
                }
                lemma_wrap_mod(self.const_offset * factor);
                assert forall|sigma: spec_fn(GVar) -> int| #[trigger] res.eval(sigma) == factor * self.eval(sigma) by {
                    lemma_lin_sum_scale_exact(self.coeffs@, out@, factor, sigma);
                    let c = self.const_offset as int;
                    let y = lin_sum(self.coeffs@, sigma);
                    assert(factor * (c + y) == c * factor + factor * y) by (nonlinear_arith);
                }
            }
            if nonzero_coeffs(self.coeff_map()) && (forall|v: GVar|
                #[trigger] self.coeff_map().dom().contains(v) ==> i64::MIN <= self.coeff_map()[v] * factor <= i64::MAX) {
                assert forall|v: GVar| #[trigger] res.coeff_map().dom().contains(v) implies res.coeff_map()[v] != 0 by {
                    let c = self.coeff_map()[v];
                    lemma_wrap_mod(c * factor);
                    vstd::arithmetic::mul::lemma_mul_nonzero(c as int, factor as int);
                }
            }
        }
        res
    }
}

/// Whether key `k` lies below the heads `a[i]` and `b[j]` of a merge.
pub open spec fn merged_below(a: Seq<(GVar, i64)>, b: Seq<(GVar, i64)>, i: int, j: int, k: GVar) -> bool {
    (i == a.len() || k < a[i].0) && (j == b.len() || k < b[j].0)
}

/// A key of a sorted list that lies below position `p` occurs before `p`.
pub proof fn lemma_key_below(s: Seq<(GVar, i64)>, p: int, k: GVar)
    requires
        keys_sorted(s),
        0 <= p <= s.len(),
        p < s.len() ==> k < s[p].0,
    ensures
        assoc_map(s).dom().contains(k) <==> exists|x: int| 0 <= x < p && s[x].0 == k,
{
    lemma_assoc_map_dom(s, k);
    if exists|x: int| 0 <= x < s.len() && s[x].0 == k {
        let x = choose|x: int| 0 <= x < s.len() && s[x].0 == k;
        if x >= p && p < s.len() {
            assert(s[x].0 >= s[p].0);
        }
    }
}

/// The sums of the pairs pushed so far agree, modulo 2^64, with those of
/// the first `i` pairs of `a` and the first `j` of `b`.
pub open spec fn sums_agree(out: Seq<(GVar, i64)>, a: Seq<(GVar, i64)>, b: Seq<(GVar, i64)>, i: int, j: int) -> bool {
    forall|sigma: spec_fn(GVar) -> int| #[trigger] lin_sum(out, sigma) % modulus() == (lin_sum(a.subrange(0, i), sigma)
        + lin_sum(b.subrange(0, j), sigma)) % modulus()
}

/// The sums of the pairs pushed so far are those of the first `i` pairs
/// of `a` and the first `j` of `b`.
pub open spec fn sums_exact(out: Seq<(GVar, i64)>, a: Seq<(GVar, i64)>, b: Seq<(GVar, i64)>, i: int, j: int) -> bool {
    forall|sigma: spec_fn(GVar) -> int| #[trigger] lin_sum(out, sigma) == lin_sum(a.subrange(0, i), sigma) + lin_sum(
        b.subrange(0, j),
        sigma,
    )
}

/// No coefficient that `a` and `b` share, and not their constants, sums
/// out of the range of `i64`.
pub open spec fn sum_fits(ca: i64, a: Map<GVar, i64>, cb: i64, b: Map<GVar, i64>) -> bool {
    &&& i64::MIN <= ca + cb <= i64::MAX
    &&& forall|v: GVar| #[trigger] a.dom().contains(v) && b.dom().contains(v) ==> i64::MIN <= a[v] + b[v] <= i64::MAX
}

/// One step of the merge in `add`, with exact sums.
proof fn lemma_merge_step_exact(
    out: Seq<(GVar, i64)>,
    pushed: Seq<(GVar, i64)>,
    a: Seq<(GVar, i64)>,
    b: Seq<(GVar, i64)>,
    i: int,
    j: int,
    i2: int,
    j2: int,
)
    requires
        sums_exact(out, a, b, i, j),
        0 <= i <= i2 <= i + 1,
        i2 <= a.len(),
        0 <= j <= j2 <= j + 1,
        j2 <= b.len(),
        pushed.len() <= 1,
        forall|sigma: spec_fn(GVar) -> int| #[trigger] lin_sum(pushed, sigma) == lin_sum(a.subrange(i, i2), sigma)
            + lin_sum(b.subrange(j, j2), sigma),
    ensures
        sums_exact(out + pushed, a, b, i2, j2),
{
    assert forall|sigma: spec_fn(GVar) -> int| #[trigger] lin_sum(out + pushed, sigma) == lin_sum(a.subrange(0, i2), sigma)
        + lin_sum(b.subrange(0, j2), sigma) by {
        assert(lin_sum(out, sigma) == lin_sum(a.subrange(0, i), sigma) + lin_sum(b.subrange(0, j), sigma));
        assert(lin_sum(pushed, sigma) == lin_sum(a.subrange(i, i2), sigma) + lin_sum(b.subrange(j, j2), sigma));
        if i2 > i {
            lemma_lin_sum_push(a.subrange(0, i), a[i], sigma);
            assert(a.subrange(0, i2) == a.subrange(0, i).push(a[i]));
            lemma_lin_sum_push(Seq::empty(), a[i], sigma);
            assert(a.subrange(i, i2) == Seq::<(GVar, i64)>::empty().push(a[i]));
        } else {
            assert(a.subrange(i, i2).len() == 0);
            assert(a.subrange(0, i2) == a.subrange(0, i));
        }
        if j2 > j {
            lemma_lin_sum_push(b.subrange(0, j), b[j], sigma);
            assert(b.subrange(0, j2) == b.subrange(0, j).push(b[j]));
            lemma_lin_sum_push(Seq::empty(), b[j], sigma);
            assert(b.subrange(j, j2) == Seq::<(GVar, i64)>::empty().push(b[j]));
        } else {
            assert(b.subrange(j, j2).len() == 0);
            assert(b.subrange(0, j2) == b.subrange(0, j));
        }
        if pushed.len() == 1 {
            lemma_lin_sum_push(out, pushed[0], sigma);
            lemma_lin_sum_push(Seq::empty(), pushed[0], sigma);
            assert(pushed == Seq::<(GVar, i64)>::empty().push(pushed[0]));
            assert(out + pushed == out.push(pushed[0]));
        } else {
            assert(out + pushed == out);
        }
    }
}

proof fn lemma_lin_sum_push(s: Seq<(GVar, i64)>, e: (GVar, i64), sigma: spec_fn(GVar) -> int)
    ensures
        lin_sum(s.push(e), sigma) == lin_sum(s, sigma) + e.1 * sigma(e.0),
{
    assert(s.push(e).drop_last() == s);
}

/// Adding congruent terms to congruent sums keeps them congruent.
proof fn lemma_mod_step(x: int, y: int, t1: int, t2: int)
    requires
        x % modulus() == y % modulus(),
        t1 % modulus() == t2 % modulus(),
    ensures
        (x + t1) % modulus() == (y + t2) % modulus(),
{
    vstd::arithmetic::div_mod::lemma_add_mod_noop(x, t1, modulus());
    vstd::arithmetic::div_mod::lemma_add_mod_noop(y, t2, modulus());
}

proof fn lemma_mod_mul(c: int, d: int, v: int)
    requires
        c % modulus() == d % modulus(),
    ensures
        (c * v) % modulus() == (d * v) % modulus(),
{
    vstd::arithmetic::div_mod::lemma_mul_mod_noop_left(c, v, modulus());
    vstd::arithmetic::div_mod::lemma_mul_mod_noop_left(d, v, modulus());
}

/// One step of the merge in `add`: `ta` pairs of `a` and `tb` of `b` are
/// taken, and `pushed` (zero or one pair) is pushed, whose terms sum to
/// theirs modulo 2^64.
proof fn lemma_merge_step(
    out: Seq<(GVar, i64)>,
    pushed: Seq<(GVar, i64)>,
    a: Seq<(GVar, i64)>,
    b: Seq<(GVar, i64)>,
    i: int,
    j: int,
    i2: int,
    j2: int,
)
    requires
        sums_agree(out, a, b, i, j),
        0 <= i <= i2 <= i + 1,
        i2 <= a.len(),
        0 <= j <= j2 <= j + 1,
        j2 <= b.len(),
        pushed.len() <= 1,
        forall|sigma: spec_fn(GVar) -> int| #[trigger] lin_sum(pushed, sigma) % modulus() == (lin_sum(a.subrange(i, i2), sigma)
            + lin_sum(b.subrange(j, j2), sigma)) % modulus(),
    ensures
        sums_agree(out + pushed, a, b, i2, j2),
{
    assert forall|sigma: spec_fn(GVar) -> int| #[trigger] lin_sum(out + pushed, sigma) % modulus() == (lin_sum(a.subrange(0, i2), sigma)
        + lin_sum(b.subrange(0, j2), sigma)) % modulus() by {
        let m = modulus();
        let sa = lin_sum(a.subrange(0, i), sigma);
        let sb = lin_sum(b.subrange(0, j), sigma);
        let ta = lin_sum(a.subrange(i, i2), sigma);
        let tb = lin_sum(b.subrange(j, j2), sigma);
        if i2 > i {
            lemma_lin_sum_push(a.subrange(0, i), a[i], sigma);
            assert(a.subrange(0, i2) == a.subrange(0, i).push(a[i]));
            lemma_lin_sum_push(Seq::empty(), a[i], sigma);
            assert(a.subrange(i, i2) == Seq::<(GVar, i64)>::empty().push(a[i]));
        } else {
            assert(a.subrange(i, i2).len() == 0);
        }
        if j2 > j {
            lemma_lin_sum_push(b.subrange(0, j), b[j], sigma);
            assert(b.subrange(0, j2) == b.subrange(0, j).push(b[j]));
            lemma_lin_sum_push(Seq::empty(), b[j], sigma);
            assert(b.subrange(j, j2) == Seq::<(GVar, i64)>::empty().push(b[j]));
        } else {
            assert(b.subrange(j, j2).len() == 0);
        }
        let p = lin_sum(pushed, sigma);
        if pushed.len() == 1 {
            lemma_lin_sum_push(out, pushed[0], sigma);
            lemma_lin_sum_push(Seq::empty(), pushed[0], sigma);
            assert(pushed == Seq::<(GVar, i64)>::empty().push(pushed[0]));
            assert(out + pushed == out.push(pushed[0]));
        } else {
            assert(out + pushed == out);
        }
        lemma_mod_step(lin_sum(out, sigma), sa + sb, p, ta + tb);
        assert(sa + sb + (ta + tb) == (sa + ta) + (sb + tb));
    }
}

impl SymOffset {
    /// The sum of two combinations; variables whose coefficient sums to zero
    /// are dropped.
    pub fn add(&self, other: &Self) -> (res: Self)
        requires
            self.wf(),
            other.wf(),
        ensures
            res.wf(),
            res.constant() == wrap(self.constant() + other.constant()),
            res.coeff_map() == add_coeffs(self.coeff_map(), other.coeff_map()),
            forall|sigma: spec_fn(GVar) -> int| #[trigger] res.eval(sigma) % modulus() == (self.eval(sigma)
                + other.eval(sigma)) % modulus(),
            forall|sigma: spec_fn(GVar) -> int|
                i64::MIN <= #[trigger] res.eval(sigma) <= i64::MAX && i64::MIN <= self.eval(sigma) + other.eval(sigma)
                    <= i64::MAX ==> res.eval(sigma) == self.eval(sigma) + other.eval(sigma),
            sum_fits(self.constant(), self.coeff_map(), other.constant(), other.coeff_map()) ==> forall|
                sigma: spec_fn(GVar) -> int,
            | #[trigger] res.eval(sigma) == self.eval(sigma) + other.eval(sigma),
    {
        let a = &self.coeffs;
        let b = &other.coeffs;
        let ghost am = self.coeff_map();
        let ghost bm = other.coeff_map();
        let ghost target = add_coeffs(am, bm);
        let ghost exact = sum_fits(self.constant(), am, other.constant(), bm);
        let mut out: Vec<(GVar, i64)> = Vec::new();
        let mut i: usize = 0;
        let mut j: usize = 0;
        proof {
            assert forall|k: GVar| #[trigger] assoc_map(out@).dom().contains(k) <==> (target.dom().contains(k)
                && merged_below(a@, b@, 0, 0, k)) by {
                if merged_below(a@, b@, 0, 0, k) {
                    lemma_key_below(a@, 0, k);
                    lemma_key_below(b@, 0, k);
                }
            }
            assert forall|sigma: spec_fn(GVar) -> int| #[trigger] lin_sum(out@, sigma) % modulus() == (lin_sum(
                a@.subrange(0, 0),
                sigma,
            ) + lin_sum(b@.subrange(0, 0), sigma)) % modulus() by {
                assert(a@.subrange(0, 0).len() == 0);
                assert(b@.subrange(0, 0).len() == 0);
            }
            assert forall|sigma: spec_fn(GVar) -> int| #[trigger] lin_sum(out@, sigma) == lin_sum(a@.subrange(0, 0), sigma)
                + lin_sum(b@.subrange(0, 0), sigma) by {
                assert(a@.subrange(0, 0).len() == 0);
                assert(b@.subrange(0, 0).len() == 0);
            }
        }
        while i < a.len() || j < b.len()
            invariant
                keys_sorted(a@),
                keys_sorted(b@),
                am == assoc_map(a@),
                bm == assoc_map(b@),
                target == add_coeffs(am, bm),
                i <= a@.len(),
                j <= b@.len(),
                keys_sorted(out@),
                forall|k: int| 0 <= k < out@.len() ==> merged_below(a@, b@, i as int, j as int, (#[trigger] out@[k]).0),
                forall|x: int| 0 <= x < i ==> merged_below(a@, b@, i as int, j as int, (#[trigger] a@[x]).0),
                forall|y: int| 0 <= y < j ==> merged_below(a@, b@, i as int, j as int, (#[trigger] b@[y]).0),
                forall|k: GVar| #[trigger] assoc_map(out@).dom().contains(k) <==> (target.dom().contains(k)
                    && merged_below(a@, b@, i as int, j as int, k)),
                forall|k: GVar| #[trigger] assoc_map(out@).dom().contains(k) ==> assoc_map(out@)[k] == target[k],
                sums_agree(out@, a@, b@, i as int, j as int),
                exact == sum_fits(self.constant(), am, other.constant(), bm),
                exact ==> sums_exact(out@, a@, b@, i as int, j as int),
            decreases a@.len() + b@.len() - i - j,
        {
            let ghost prev = out@;
            let ghost pi = i as int;
            let ghost pj = j as int;
            let ghost key: GVar;
            if j == b.len() || (i < a.len() && a[i].0 < b[j].0) {
                let e = a[i];
                out.push(e);
                i += 1;
                proof {
                    let pushed = seq![e];
                    assert forall|sigma: spec_fn(GVar) -> int| #[trigger] lin_sum(pushed, sigma) % modulus() == (lin_sum(
                        a@.subrange(pi, pi + 1),
                        sigma,
                    ) + lin_sum(b@.subrange(pj, pj), sigma)) % modulus() by {
                        lemma_lin_sum_push(Seq::empty(), e, sigma);
                        assert(pushed == Seq::<(GVar, i64)>::empty().push(e));
                        assert(a@.subrange(pi, pi + 1) == pushed);
                        assert(b@.subrange(pj, pj).len() == 0);
                    }
                    lemma_merge_step(prev, pushed, a@, b@, pi, pj, pi + 1, pj);
                    assert(out@ == prev + pushed);
                    if exact {
                        assert forall|sigma: spec_fn(GVar) -> int| #[trigger] lin_sum(pushed, sigma) == lin_sum(
                            a@.subrange(pi, pi + 1),
                            sigma,
                        ) + lin_sum(b@.subrange(pj, pj), sigma) by {
                            lemma_lin_sum_push(Seq::empty(), e, sigma);
                            assert(pushed == Seq::<(GVar, i64)>::empty().push(e));
                            assert(a@.subrange(pi, pi + 1) == pushed);
                            assert(b@.subrange(pj, pj).len() == 0);
                        }
                        lemma_merge_step_exact(prev, pushed, a@, b@, pi, pj, pi + 1, pj);
                    }
                    key = e.0;
                    lemma_assoc_map_value(a@, pi);
                    lemma_key_below(b@, pj, key);
                }
            } else if i == a.len() || b[j].0 < a[i].0 {
                let (v, c) = b[j];
                proof {
                    key = v;
                    lemma_wrapping_add(0, c);
                    lemma_assoc_map_value(b@, pj);
                    lemma_key_below(a@, pi, key);
                }
                let c = 0i64.wrapping_add(c);
                if c != 0 {
                    out.push((v, c));
                }
                j += 1;
                proof {
                    let pushed = out@.subrange(prev.len() as int, out@.len() as int);
                    lemma_wrap_mod(0 + b@[pj].1);
                    assert forall|sigma: spec_fn(GVar) -> int| #[trigger] lin_sum(pushed, sigma) % modulus() == (lin_sum(
                        a@.subrange(pi, pi),
                        sigma,
                    ) + lin_sum(b@.subrange(pj, pj + 1), sigma)) % modulus() by {
                        lemma_lin_sum_push(Seq::empty(), b@[pj], sigma);
                        assert(b@.subrange(pj, pj + 1) == Seq::<(GVar, i64)>::empty().push(b@[pj]));
                        assert(a@.subrange(pi, pi).len() == 0);
                        if c != 0 {
                            assert(pushed == Seq::<(GVar, i64)>::empty().push(b@[pj]));
                        } else {
                            assert(pushed.len() == 0);
                        }
                    }
                    lemma_merge_step(prev, pushed, a@, b@, pi, pj, pi, pj + 1);
                    assert(out@ == prev + pushed);
                    if exact {
                        lemma_wrap_mod(b@[pj].1 as int);
                        assert forall|sigma: spec_fn(GVar) -> int| #[trigger] lin_sum(pushed, sigma) == lin_sum(
                            a@.subrange(pi, pi),
                            sigma,
                        ) + lin_sum(b@.subrange(pj, pj + 1), sigma) by {
                            lemma_lin_sum_push(Seq::empty(), b@[pj], sigma);
                            assert(b@.subrange(pj, pj + 1) == Seq::<(GVar, i64)>::empty().push(b@[pj]));
                            assert(a@.subrange(pi, pi).len() == 0);
                            if c != 0 {
                                assert(pushed == Seq::<(GVar, i64)>::empty().push(b@[pj]));
                            } else {
                                assert(pushed.len() == 0);
                                assert(b@[pj].1 == 0);
                                assert(b@[pj].1 * sigma(b@[pj].0) == 0);
                            }
                        }
                        lemma_merge_step_exact(prev, pushed, a@, b@, pi, pj, pi, pj + 1);
                    }
                }
            } else {
                let (v, c1) = a[i];
                let c2 = b[j].1;
                proof {
                    key = v;
                    lemma_wrapping_add(c1, c2);
                    lemma_assoc_map_value(a@, pi);
                    lemma_assoc_map_value(b@, pj);
                }
                let c = c1.wrapping_add(c2);
                if c != 0 {
                    out.push((v, c));
                }
                i += 1;
                j += 1;
                proof {
                    let pushed = out@.subrange(prev.len() as int, out@.len() as int);
                    lemma_wrap_mod(c1 + c2);
                    assert forall|sigma: spec_fn(GVar) -> int| #[trigger] lin_sum(pushed, sigma) % modulus() == (lin_sum(
                        a@.subrange(pi, pi + 1),
                        sigma,
                    ) + lin_sum(b@.subrange(pj, pj + 1), sigma)) % modulus() by {
                        let sv = sigma(v);
                        lemma_lin_sum_push(Seq::empty(), a@[pi], sigma);
                        lemma_lin_sum_push(Seq::empty(), b@[pj], sigma);
                        assert(a@.subrange(pi, pi + 1) == Seq::<(GVar, i64)>::empty().push(a@[pi]));
                        assert(b@.subrange(pj, pj + 1) == Seq::<(GVar, i64)>::empty().push(b@[pj]));
                        assert(b@[pj].0 == v);
                        assert(c1 * sv + c2 * sv == (c1 + c2) * sv) by (nonlinear_arith);
                        if c != 0 {
                            assert(pushed == Seq::<(GVar, i64)>::empty().push((v, c)));
                            lemma_lin_sum_push(Seq::empty(), (v, c), sigma);
                            lemma_mod_mul(c as int, c1 + c2, sv);
                        } else {
                            assert(pushed.len() == 0);
                            lemma_mod_mul(c1 + c2, 0, sv);
                        }
                    }
                    lemma_merge_step(prev, pushed, a@, b@, pi, pj, pi + 1, pj + 1);
                    assert(out@ == prev + pushed);
                    if exact {
                        assert(am.dom().contains(v) && bm.dom().contains(v));
                        assert(i64::MIN <= am[v] + bm[v] <= i64::MAX);
                        assert(c == c1 + c2);
                        assert forall|sigma: spec_fn(GVar) -> int| #[trigger] lin_sum(pushed, sigma) == lin_sum(
                            a@.subrange(pi, pi + 1),
                            sigma,
                        ) + lin_sum(b@.subrange(pj, pj + 1), sigma) by {
                            let sv = sigma(v);
                            lemma_lin_sum_push(Seq::empty(), a@[pi], sigma);
                            lemma_lin_sum_push(Seq::empty(), b@[pj], sigma);
                            assert(a@.subrange(pi, pi + 1) == Seq::<(GVar, i64)>::empty().push(a@[pi]));
                            assert(b@.subrange(pj, pj + 1) == Seq::<(GVar, i64)>::empty().push(b@[pj]));
                            assert(b@[pj].0 == v);
                            assert(c1 * sv + c2 * sv == (c1 + c2) * sv) by (nonlinear_arith);
                            if c != 0 {
                                assert(pushed == Seq::<(GVar, i64)>::empty().push((v, c)));
                                lemma_lin_sum_push(Seq::empty(), (v, c), sigma);
                            } else {
                                assert(pushed.len() == 0);
                            }
                        }
                        lemma_merge_step_exact(prev, pushed, a@, b@, pi, pj, pi + 1, pj + 1);
                    }
                }
            }
            proof {
                // The newly processed keys are exactly `key`.
                assert forall|k: GVar| merged_below(a@, b@, i as int, j as int, k) implies
                    merged_below(a@, b@, pi, pj, k) || k == key || !target.dom().contains(k) by {
                    if !merged_below(a@, b@, pi, pj, k) && k != key {
                        lemma_assoc_map_dom(a@, k);
                        lemma_assoc_map_dom(b@, k);
                        if exists|x: int| 0 <= x < a@.len() && a@[x].0 == k {
                            let x = choose|x: int| 0 <= x < a@.len() && a@[x].0 == k;
                            if x < pi { assert(merged_below(a@, b@, pi, pj, a@[x].0)); }
                            if x > pi && i < a@.len() { assert(a@[x].0 >= a@[i as int].0); }
                        }
                        if exists|y: int| 0 <= y < b@.len() && b@[y].0 == k {
                            let y = choose|y: int| 0 <= y < b@.len() && b@[y].0 == k;
                            if y < pj { assert(merged_below(a@, b@, pi, pj, b@[y].0)); }
                            if y > pj && j < b@.len() { assert(b@[y].0 >= b@[j as int].0); }
                        }
                    }
                }
                if i < a@.len() && pi < i {
                    assert(a@[pi].0 < a@[i as int].0);
                }
                if j < b@.len() && pj < j {
                    assert(b@[pj].0 < b@[j as int].0);
                }
                if out@.len() > prev.len() {
                    lemma_assoc_map_push(prev, out@.last());
                    assert(out@ == prev.push(out@.last()));
                    assert(out@.last().0 == key);
                } else {
                    assert(out@ == prev);
                }
                assert forall|x: int| 0 <= x < i implies merged_below(a@, b@, i as int, j as int, (#[trigger] a@[x]).0) by {
                    if x < pi {
                        assert(merged_below(a@, b@, pi, pj, a@[x].0));
                    }
                    if i < a@.len() {
                        assert(a@[x].0 < a@[i as int].0);
                    }
                }
                assert forall|y: int| 0 <= y < j implies merged_below(a@, b@, i as int, j as int, (#[trigger] b@[y]).0) by {
                    if y < pj {
                        assert(merged_below(a@, b@, pi, pj, b@[y].0));
                    }
                    if j < b@.len() {
                        assert(b@[y].0 < b@[j as int].0);
                    }
                }
                assert forall|k: GVar| #[trigger] assoc_map(out@).dom().contains(k) <==> (target.dom().contains(k)
                    && merged_below(a@, b@, i as int, j as int, k)) by {
                    if k == key {
                        lemma_assoc_map_dom(a@, k);
                        lemma_assoc_map_dom(b@, k);
                        lemma_assoc_map_dom(prev, k);
                    }
                }
                assert forall|k: int| 0 <= k < out@.len() implies merged_below(a@, b@, i as int, j as int, (#[trigger] out@[k]).0) by {
                    if k < prev.len() {
                        assert(merged_below(a@, b@, pi, pj, prev[k].0));
                    }
                }
            }
        }
        proof {
            assert forall|k: GVar| target.dom().contains(k) implies merged_below(a@, b@, i as int, j as int, k) by {}
            assert(assoc_map(out@) =~= target);
            lemma_wrapping_add(self.const_offset, other.const_offset);
        }
        let res = SymOffset { const_offset: self.const_offset.wrapping_add(other.const_offset), coeffs: out };
        proof {
            assert(a@.subrange(0, a@.len() as int) == a@);
            assert(b@.subrange(0, b@.len() as int) == b@);
            let c1 = self.const_offset as int;
            let c2 = other.const_offset as int;
            lemma_wrap_mod(c1 + c2);
            assert forall|sigma: spec_fn(GVar) -> int| #[trigger] res.eval(sigma) % modulus() == (self.eval(sigma)
                + other.eval(sigma)) % modulus() by {
                let sa = lin_sum(a@, sigma);
                let sb = lin_sum(b@, sigma);
                assert(lin_sum(out@, sigma) % modulus() == (sa + sb) % modulus());
                lemma_mod_step(res.const_offset as int, c1 + c2, lin_sum(out@, sigma), sa + sb);
                assert(c1 + c2 + (sa + sb) == (c1 + sa) + (c2 + sb));
            }
            if exact {
                lemma_wrap_mod(c1 + c2);
                assert forall|sigma: spec_fn(GVar) -> int| #[trigger] res.eval(sigma) == self.eval(sigma) + other.eval(sigma) by {
                    assert(lin_sum(out@, sigma) == lin_sum(a@, sigma) + lin_sum(b@, sigma));
                }
            }
            assert forall|sigma: spec_fn(GVar) -> int|
                i64::MIN <= #[trigger] res.eval(sigma) <= i64::MAX && i64::MIN <= self.eval(sigma) + other.eval(sigma)
                    <= i64::MAX implies res.eval(sigma) == self.eval(sigma) + other.eval(sigma) by {
                lemma_congruent_in_range(res.eval(sigma), self.eval(sigma) + other.eval(sigma));
            }
        }
        res
    }
}

/// Without zero coefficients, adding `a` to `b` and `b` to `a` gives the
/// same combination (stated over what `add` returns), with no zero
/// coefficient.
pub proof fn lemma_add_swap(a: SymOffset, b: SymOffset, r1: SymOffset, r2: SymOffset)
    requires
        nonzero_coeffs(a.coeff_map()),
        nonzero_coeffs(b.coeff_map()),
        r1.wf(),
        r1.constant() == wrap(a.constant() + b.constant()),
        r1.coeff_map() == add_coeffs(a.coeff_map(), b.coeff_map()),
        r2.wf(),
        r2.constant() == wrap(b.constant() + a.constant()),
        r2.coeff_map() == add_coeffs(b.coeff_map(), a.coeff_map()),
    ensures
        r1.constant() == r2.constant(),
        r1.coeff_seq() == r2.coeff_seq(),
        nonzero_coeffs(r1.coeff_map()),
{
    lemma_add_coeffs_comm(a.coeff_map(), b.coeff_map());
    lemma_sorted_assoc_unique(r1.coeff_seq(), r2.coeff_seq());
    assert(a.constant() + b.constant() == b.constant() + a.constant());
}

/// The value of a symbolic offset: its constant and its coefficients.
pub type SymVal = (i64, Map<GVar, i64>);

pub open spec fn sv_scale(s: SymVal, f: i64) -> SymVal {
    if f == 0 {
        (0, Map::empty())
    } else {
        (wrap(s.0 * f), s.1.map_values(|c: i64| wrap(c * f)))
    }
}

pub open spec fn sv_add(s: SymVal, t: SymVal) -> SymVal {
    (wrap(s.0 + t.0), add_coeffs(s.1, t.1))
}

/// The coefficient of `v` in `s`, zero when absent.
pub open spec fn sv_coeff(s: SymVal, v: GVar) -> i64 {
    if s.1.dom().contains(v) {
        s.1[v]
    } else {
        0
    }
}

/// Substitutes, in order, each solved variable of `gs` by its value.
pub open spec fn simplify_spec(s: SymVal, gs: Seq<(GVar, SymVal)>) -> SymVal
    decreases gs.len(),
{
    if gs.len() == 0 {
        s
    } else {
        let (var, val) = gs[0];
        simplify_spec(
            sv_add((s.0, s.1.remove(var)), sv_scale(val, sv_coeff(s, var))),
            gs.drop_first(),
        )
    }
}

/// `gs` with `var` bound to `val`: an existing binding is replaced in place,
/// a new one goes last.
pub open spec fn subst_insert(gs: Seq<(GVar, SymVal)>, var: GVar, val: SymVal) -> Seq<(GVar, SymVal)> {
    if exists|i: int| 0 <= i < gs.len() && gs[i].0 == var {
        let i = choose|i: int| 0 <= i < gs.len() && gs[i].0 == var;
        gs.update(i, (var, val))
    } else {
        gs.push((var, val))
    }
}

/// Solving the constraints (each stating that a combination is zero) in
/// order: a simplified constraint with variables solves for its largest
/// variable; one without variables must have constant zero, else there is
/// no solution.
#[verifier::opaque]
pub open spec fn solve_spec(cs: Seq<SymVal>, gs: Seq<(GVar, SymVal)>) -> Option<Seq<(GVar, SymVal)>>
    decreases cs.len(),
{
    if cs.len() == 0 {
        Some(gs)
    } else {
        let c = simplify_spec(cs[0], gs);
        if c.1.dom().len() > 0 {
            let var = max_key(c.1);
            let coef = c.1[var];
            let rest = (c.0, c.1.remove(var));
            solve_spec(cs.drop_first(), subst_insert(gs, var, sv_scale(rest, wrap(-coef))))
        } else if c.0 != 0 {
            None
        } else {
            solve_spec(cs.drop_first(), gs)
        }
    }
}

/// One step of `solve_spec`, on a constraint that simplifies to `c`.
pub proof fn lemma_solve_step(cs: Seq<SymVal>, gs: Seq<(GVar, SymVal)>)
    requires
        cs.len() > 0,
    ensures
        ({
            let c = simplify_spec(cs[0], gs);
            if c.1.dom().len() > 0 {
                let var = max_key(c.1);
                solve_spec(cs, gs) == solve_spec(
                    cs.drop_first(),
                    subst_insert(gs, var, sv_scale((c.0, c.1.remove(var)), wrap(-c.1[var]))),
                )
            } else if c.0 != 0 {
                solve_spec(cs, gs) is None
            } else {
                solve_spec(cs, gs) == solve_spec(cs.drop_first(), gs)
            }
        }),
{
    reveal(solve_spec);
}

/// Solving no constraints keeps the substitution.
pub proof fn lemma_solve_done(gs: Seq<(GVar, SymVal)>)
    ensures
        solve_spec(Seq::empty(), gs) == Some(gs),
{
    reveal(solve_spec);
}

/// The largest key of a finite, nonempty map.
pub open spec fn max_key(m: Map<GVar, i64>) -> GVar {
    choose|k: GVar| m.dom().contains(k) && forall|k2: GVar| #[trigger] m.dom().contains(k2) ==> k2 <= k
}

impl SymOffset {
    pub closed spec fn val(&self) -> SymVal {
        (self.const_offset, assoc_map(self.coeffs@))
    }

    pub proof fn lemma_val(&self)
        ensures
            self.val() == (self.constant(), self.coeff_map()),
            self.coeff_map().dom().finite(),
    {
        lemma_assoc_map_finite(self.coeffs@);
    }

    /// A copy with the same value.
    pub fn duplicate(&self) -> (res: Self)
        requires
            self.wf(),
        ensures
            res.wf(),
            res.val() == self.val(),
    {
        let mut out: Vec<(GVar, i64)> = Vec::new();
        let mut i: usize = 0;
        while i < self.coeffs.len()
            invariant
                i <= self.coeffs@.len(),
                out@ == self.coeffs@.subrange(0, i as int),
            decreases self.coeffs@.len() - i,
        {
            out.push(self.coeffs[i]);
            i += 1;
        }
        proof {
            assert(out@ =~= self.coeffs@);
        }
        SymOffset { const_offset: self.const_offset, coeffs: out }
    }

    /// Removes the coefficient of `var`; returns it, if it was present.
    pub fn remove_var(&mut self, var: GVar) -> (res: Option<i64>)
        requires
            old(self).wf(),
        ensures
            final(self).wf(),
            final(self).constant() == old(self).constant(),
            final(self).coeff_map() == old(self).coeff_map().remove(var),
            res == (if old(self).coeff_map().dom().contains(var) {
                Some(old(self).coeff_map()[var])
            } else {
                None
            }),
            forall|sigma: spec_fn(GVar) -> int| #[trigger] final(self).eval(sigma) + (match res {
                Some(c) => c as int,
                None => 0,
            }) * sigma(var) == old(self).eval(sigma),
    {
        let mut k: usize = 0;
        while k < self.coeffs.len()
            invariant
                k <= self.coeffs@.len(),
                keys_sorted(self.coeffs@),
                self.coeffs@ == old(self).coeffs@,
                self.const_offset == old(self).const_offset,
                forall|x: int| 0 <= x < k ==> self.coeffs@[x].0 != var,
            decreases self.coeffs@.len() - k,
        {
            if self.coeffs[k].0 == var {
                let ghost old_c = self.coeffs@;
                let (_, c) = self.coeffs.remove(k);
                proof {
                    lemma_assoc_map_value(old_c, k as int);
                    assert(self.coeffs@ == old_c.remove(k as int));
                    assert forall|x: int| 0 <= x < self.coeffs@.len() implies #[trigger] self.coeffs@[x] == (if x < k { old_c[x] } else { old_c[x + 1] }) by {}
                    assert forall|a: int, b: int| 0 <= a < b < self.coeffs@.len() implies self.coeffs@[a].0 < self.coeffs@[b].0 by {
                        if a < k { if b < k { assert(old_c[a].0 < old_c[b].0); } else { assert(old_c[a].0 < old_c[b + 1].0); } }
                        else { assert(old_c[a + 1].0 < old_c[b + 1].0); }
                    }
                    assert forall|key: GVar| assoc_map(self.coeffs@).dom().contains(key) <==> old(self).coeff_map().remove(var).dom().contains(key) by {
                        lemma_assoc_map_dom(self.coeffs@, key);
                        lemma_assoc_map_dom(old_c, key);
                        if exists|x: int| 0 <= x < old_c.len() && old_c[x].0 == key {
                            let x = choose|x: int| 0 <= x < old_c.len() && old_c[x].0 == key;
                            if x < k { assert(self.coeffs@[x] == old_c[x]); }
                            if x > k { assert(self.coeffs@[x - 1] == old_c[x]); }
                        }
                        if exists|x: int| 0 <= x < self.coeffs@.len() && self.coeffs@[x].0 == key {
                            let x = choose|x: int| 0 <= x < self.coeffs@.len() && self.coeffs@[x].0 == key;
                            if x < k { assert(self.coeffs@[x] == old_c[x]); } else { assert(self.coeffs@[x] == old_c[x + 1]); }
                        }
                    }
                    assert forall|key: GVar| #[trigger] assoc_map(self.coeffs@).dom().contains(key) implies assoc_map(self.coeffs@)[key] == old(self).coeff_map()[key] by {
                        lemma_assoc_map_dom(self.coeffs@, key);
                        let x = choose|x: int| 0 <= x < self.coeffs@.len() && self.coeffs@[x].0 == key;
                        lemma_assoc_map_value(self.coeffs@, x);
                        if x < k { lemma_assoc_map_value(old_c, x); } else { lemma_assoc_map_value(old_c, x + 1); }
                    }
                    assert(assoc_map(self.coeffs@) =~= old(self).coeff_map().remove(var));
                    assert forall|sigma: spec_fn(GVar) -> int| #[trigger] self.eval(sigma) + c * sigma(var) == old(self).eval(sigma) by {
                        lemma_lin_sum_remove(old_c, k as int, sigma);
                    }
                }
                return Some(c);
            }
            k += 1;
        }
        proof {
            lemma_assoc_map_dom(self.coeffs@, var);
            assert(self.coeff_map().remove(var) =~= self.coeff_map());
        }
        None
    }

    /// Removes the entry with the largest variable, if any.
    pub fn pop_last(&mut self) -> (res: Option<(GVar, i64)>)
        requires
            old(self).wf(),
        ensures
            final(self).wf(),
            final(self).constant() == old(self).constant(),
            old(self).coeff_map().dom().len() == 0 <==> res is None,
            res matches Some(e) ==> e.0 == max_key(old(self).coeff_map()) && e.1 == old(self).coeff_map()[e.0]
                && final(self).coeff_map() == old(self).coeff_map().remove(e.0),
            res is None ==> final(self).coeff_map() == old(self).coeff_map(),
    {
        let ghost old_c = self.coeffs@;
        proof {
            lemma_assoc_map_finite(old_c);
            lemma_assoc_map_len(old_c);
        }
        match self.coeffs.pop() {
            None => None,
            Some(e) => {
                proof {
                    assert(self.coeffs@ == old_c.drop_last());
                    lemma_assoc_map_value(old_c, old_c.len() - 1);
                    assert forall|k2: GVar| #[trigger] old(self).coeff_map().dom().contains(k2) implies k2 <= e.0 by {
                        lemma_assoc_map_dom(old_c, k2);
                        let x = choose|x: int| 0 <= x < old_c.len() && old_c[x].0 == k2;
                        if x < old_c.len() - 1 { assert(old_c[x].0 < old_c[old_c.len() - 1].0); }
                    }
                    let mk = max_key(old(self).coeff_map());
                    assert(mk == e.0);
                    lemma_assoc_map_dom(self.coeffs@, e.0);
                    assert forall|x: int| 0 <= x < self.coeffs@.len() implies self.coeffs@[x].0 != e.0 by {
                        assert(old_c[x].0 < old_c[old_c.len() - 1].0);
                    }
                    assert(assoc_map(self.coeffs@) =~= old(self).coeff_map().remove(e.0));
                }
                Some(e)
            },
        }
    }
}

/// The values of a substitution.
pub open spec fn subst_view(gs: Seq<(GVar, SymOffset)>) -> Seq<(GVar, SymVal)> {
    gs.map_values(|e: (GVar, SymOffset)| (e.0, e.1.val()))
}

/// Every value of a substitution is well-formed.
pub open spec fn subst_wf(gs: Seq<(GVar, SymOffset)>) -> bool {
    forall|i: int| 0 <= i < gs.len() ==> (#[trigger] gs[i]).1.wf()
}

/// Substitutes each solved variable of `gsubst`, in order, by its value.
pub fn simplify(sym: SymOffset, gsubst: &Vec<(GVar, SymOffset)>) -> (res: SymOffset)
    requires
        sym.wf(),
        subst_wf(gsubst@),
    ensures
        res.wf(),
        res.val() == simplify_spec(sym.val(), subst_view(gsubst@)),
        forall|sigma: spec_fn(GVar) -> int| #[trigger] solves(gsubst@, sigma) ==> res.eval(sigma) % modulus()
            == sym.eval(sigma) % modulus(),
        forall|sigma: spec_fn(GVar) -> int|
            #[trigger] solves(gsubst@, sigma) && i64::MIN <= res.eval(sigma) <= i64::MAX && i64::MIN <= sym.eval(sigma)
                <= i64::MAX ==> res.eval(sigma) == sym.eval(sigma),
        values_free(gsubst@) ==> forall|k: int|
            0 <= k < gsubst@.len() ==> !res.coeff_map().dom().contains(#[trigger] gsubst@[k].0),
{
    let ghost start = sym;
    let mut sym = sym;
    let ghost orig = sym.val();
    let mut idx: usize = 0;
    proof {
        assert(subst_view(gsubst@).skip(0) =~= subst_view(gsubst@));
    }
    while idx < gsubst.len()
        invariant
            idx <= gsubst@.len(),
            sym.wf(),
            subst_wf(gsubst@),
            simplify_spec(sym.val(), subst_view(gsubst@).skip(idx as int)) == simplify_spec(
                orig,
                subst_view(gsubst@),
            ),
            forall|sigma: spec_fn(GVar) -> int| #[trigger] solves(gsubst@, sigma) ==> sym.eval(sigma) % modulus()
                == start.eval(sigma) % modulus(),
            values_free(gsubst@) ==> forall|k: int|
                0 <= k < idx ==> !sym.coeff_map().dom().contains(#[trigger] gsubst@[k].0),
        decreases gsubst@.len() - idx,
    {
        let (var, val) = &gsubst[idx];
        let ghost before = sym.val();
        let ghost before_sym = sym;
        let coef = match sym.remove_var(*var) {
            Some(c) => c,
            None => 0,
        };
        proof {
            let _ = gsubst@[idx as int].1.wf();
        }
        let ghost removed = sym;
        let scaled = val.scale(coef);
        sym = sym.add(&scaled);
        proof {
            assert forall|sigma: spec_fn(GVar) -> int| #[trigger] solves(gsubst@, sigma) implies sym.eval(sigma) % modulus()
                == start.eval(sigma) % modulus() by {
                let m = modulus();
                let e = val.eval(sigma);
                let sv = sigma(*var);
                let r = removed.eval(sigma);
                assert(sv % m == e % m) by {
                    assert(gsubst@[idx as int].0 == *var);
                }
                assert(r + coef * sv == before_sym.eval(sigma));
                assert(scaled.eval(sigma) % m == (coef * e) % m);
                assert(sym.eval(sigma) % m == (r + scaled.eval(sigma)) % m);
                lemma_mod_mul(sv, e, coef as int);
                assert(sv * coef == coef * sv && e * coef == coef * e) by (nonlinear_arith);
                lemma_mod_step(r, r, coef * sv, scaled.eval(sigma));
            }
            let rest = subst_view(gsubst@).skip(idx as int);
            assert(rest[0] == (*var, val.val()));
            assert(rest.drop_first() == subst_view(gsubst@).skip(idx + 1));
            assert(sym.val() == sv_add((before.0, before.1.remove(*var)), sv_scale(val.val(), sv_coeff(before, *var))));
            if values_free(gsubst@) {
                assert forall|k: int| 0 <= k < idx + 1 implies !sym.coeff_map().dom().contains(#[trigger] gsubst@[k].0) by {
                    let w = gsubst@[k].0;
                    assert(!val.coeff_map().dom().contains(w)) by {
                        assert(gsubst@[idx as int].1 == *val);
                    }
                    assert(!removed.coeff_map().dom().contains(w)) by {
                        if k < idx {
                            assert(!before_sym.coeff_map().dom().contains(w));
                        } else {
                            assert(w == *var);
                        }
                    }
                    assert(!scaled.coeff_map().dom().contains(w));
                }
            }
        }
        idx += 1;
    }
    proof {
        assert(subst_view(gsubst@).skip(idx as int) =~= Seq::empty());
        assert forall|sigma: spec_fn(GVar) -> int|
            #[trigger] solves(gsubst@, sigma) && i64::MIN <= sym.eval(sigma) <= i64::MAX && i64::MIN <= start.eval(sigma)
                <= i64::MAX implies sym.eval(sigma) == start.eval(sigma) by {
            lemma_congruent_in_range(sym.eval(sigma), start.eval(sigma));
        }
    }
    sym
}

/// No value of `gs` mentions a variable that `gs` solves.
pub open spec fn values_free(gs: Seq<(GVar, SymOffset)>) -> bool {
    forall|k: int, l: int|
        0 <= k < gs.len() && 0 <= l < gs.len() ==> !(#[trigger] gs[l].1.coeff_map()).dom().contains(#[trigger] gs[k].0)
}

/// Whether `sigma` gives each solved variable of `gs` the value, modulo
/// 2^64, of what it is solved to.
pub open spec fn solves(gs: Seq<(GVar, SymOffset)>, sigma: spec_fn(GVar) -> int) -> bool {
    forall|k: int| 0 <= k < gs.len() ==> sigma(gs[k].0) % modulus() == (#[trigger] gs[k]).1.eval(sigma) % modulus()
}

/// The offset that a symbolic offset comes to once the solved variables are
/// substituted: its constant part.
pub fn resolve(s: SymOffset, gsubst: &Vec<(GVar, SymOffset)>) -> (res: Offset)
    requires
        s.wf(),
        subst_wf(gsubst@),
    ensures
        res == Offset(simplify_spec(s.val(), subst_view(gsubst@)).0),
{
    let r = simplify(s, gsubst);
    Offset(r.const_offset)
}

/// The values of a sequence of symbolic offsets.
pub open spec fn vals_of(cs: Seq<SymOffset>) -> Seq<SymVal> {
    cs.map_values(|c: SymOffset| c.val())
}

/// The position of the binding of `var` in `gs`, if any.
fn subst_position(gs: &Vec<(GVar, SymOffset)>, var: GVar) -> (res: Option<usize>)
    ensures
        match res {
            Some(j) => j < gs@.len() && gs@[j as int].0 == var && forall|x: int| 0 <= x < j ==> gs@[x].0 != var,
            None => forall|x: int| 0 <= x < gs@.len() ==> gs@[x].0 != var,
        },
{
    let mut j: usize = 0;
    while j < gs.len()
        invariant
            j <= gs@.len(),
            forall|x: int| 0 <= x < j ==> gs@[x].0 != var,
        decreases gs@.len() - j,
    {
        if gs[j].0 == var {
            return Some(j);
        }
        j += 1;
    }
    None
}

/// Binds `var` to `val` in `gs` (see `subst_insert`).
fn subst_set(gs: &mut Vec<(GVar, SymOffset)>, var: GVar, val: SymOffset)
    requires
        subst_wf(old(gs)@),
        val.wf(),
        forall|a: int, b: int| 0 <= a < b < old(gs)@.len() ==> old(gs)@[a].0 != old(gs)@[b].0,
    ensures
        subst_wf(final(gs)@),
        forall|a: int, b: int| 0 <= a < b < final(gs)@.len() ==> final(gs)@[a].0 != final(gs)@[b].0,
        subst_view(final(gs)@) == subst_insert(subst_view(old(gs)@), var, val.val()),
{
    let ghost gview = subst_view(gs@);
    let ghost v2 = val.val();
    let pos = subst_position(gs, var);
    if let Some(j) = pos {
        let ghost before = gs@;
        gs.set(j, (var, val));
        proof {
            assert(exists|i: int| 0 <= i < gview.len() && gview[i].0 == var) by {
                assert(gview[j as int].0 == var);
            }
            let i = choose|i: int| 0 <= i < gview.len() && gview[i].0 == var;
            assert(i == j) by {
                if i < j { assert(before[i].0 != var); }
                else if i > j { assert(before[j as int].0 != before[i].0); }
            }
            assert(subst_view(gs@) =~= subst_insert(gview, var, v2));
        }
    } else {
        proof {
            assert forall|i: int| 0 <= i < gview.len() implies gview[i].0 != var by {
                assert(gs@[i].0 != var);
            }
        }
        gs.push((var, val));
        proof {
            assert(!exists|i: int| 0 <= i < gview.len() && gview[i].0 == var);
            assert(subst_view(gs@) =~= subst_insert(gview, var, v2));
        }
    }
}

/// Solves the constraints in order (see `solve_spec`); `None` when one of
/// them simplifies to a nonzero constant.
pub fn solve(constraints: Vec<SymOffset>) -> (res: Option<Vec<(GVar, SymOffset)>>)
    requires
        forall|i: int| 0 <= i < constraints@.len() ==> (#[trigger] constraints@[i]).wf(),
    ensures
        res is None <==> solve_spec(vals_of(constraints@), Seq::empty()) is None,
        res matches Some(gs) ==> subst_wf(gs@) && solve_spec(vals_of(constraints@), Seq::empty())
            == Some(subst_view(gs@)),
{
    let ghost cvals = vals_of(constraints@);
    let mut gsubst: Vec<(GVar, SymOffset)> = Vec::new();
    proof {
        assert(cvals.skip(0) =~= cvals);
        assert(subst_view(gsubst@) =~= Seq::empty());
    }
    let mut ci: usize = 0;
    while ci < constraints.len()
        invariant
            ci <= cvals.len(),
            cvals == vals_of(constraints@),
            forall|i: int| 0 <= i < constraints@.len() ==> (#[trigger] constraints@[i]).wf(),
            subst_wf(gsubst@),
            forall|a: int, b: int| 0 <= a < b < gsubst@.len() ==> gsubst@[a].0 != gsubst@[b].0,
            solve_spec(cvals, Seq::empty()) == solve_spec(cvals.skip(ci as int), subst_view(gsubst@)),
        decreases cvals.len() - ci,
    {
        let ghost k = ci as int;
        let ghost rest = cvals.skip(k);
        let c = constraints[ci].duplicate();
        ci += 1;
        proof {
            assert(rest[0] == c.val());
            assert(rest.drop_first() == cvals.skip(k + 1));
        }
        let ghost gview = subst_view(gsubst@);
        let mut c = simplify(c, &gsubst);
        proof {
            c.lemma_val();
        }
        let ghost cv = c.val();
        proof {
            lemma_solve_step(rest, gview);
        }
        match c.pop_last() {
            Some((var, coef)) => {
                let neg = 0i64.wrapping_sub(coef);
                proof {
                    crate::offset::lemma_wrapping_neg(coef);
                }
                let c2 = c.scale(neg);
                let ghost v2 = c2.val();
                proof {
                    assert(v2 == sv_scale((cv.0, cv.1.remove(var)), wrap(-coef)));
                }
                subst_set(&mut gsubst, var, c2);
            },
            None => {
                if c.const_offset != 0 {
                    return None;
                }
            },
        }
    }
    proof {
        assert(cvals.skip(ci as int) =~= Seq::empty());
        lemma_solve_done(subst_view(gsubst@));
    }
    Some(gsubst)
}

/// Wrapping multiplication is multiplication followed by `wrap`.
pub proof fn lemma_wrapping_mul(a: i64, b: i64)
    ensures
        a.wrapping_mul(b) == wrap(a * b),
{
    let m = crate::offset::modulus();
    let x = a * b;
    crate::offset::lemma_wrap_mod(x);
}

} // verus!
