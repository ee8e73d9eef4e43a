use vstd::prelude::*;
use crate::api::{Analysis, Either, Id, Semilattice};
use crate::cases::caviar_offset::{CaviarLang, OffsetId};
use crate::offset::{lemma_wrap_add_inner, lemma_wrapping_add, Offset};
use crate::uf::Unionfind;
use crate::egraph::EGraph;
use crate::decimal::{decimal, decimal_chars};
use crate::symbol::string_of_chars;
use crate::cases::caviar_offset::parse::chars_of;

verus! {

/// The analysis of the arithmetic language: e-classes are known up to an
/// offset, and constants are propagated.
pub struct CaviarAnalysis;

/// `1` for true, `0` for false.
pub open spec fn b2i(b: bool) -> i64 {
    if b {
        1
    } else {
        0
    }
}

pub fn bool_to_int(b: bool) -> (res: i64)
    ensures
        res == b2i(b),
{
    if b {
        1
    } else {
        0
    }
}

/// Where the child `g*x` stands: its root, with the accumulated offset.
pub open spec fn found(uf: Unionfind<Option<i64>>, c: OffsetId) -> OffsetId {
    uf.find_from(c.0, c.1.0 as nat)
}

/// The constant known for the child `g*x`, if any.
pub open spec fn child_value(uf: Unionfind<Option<i64>>, c: OffsetId) -> Option<i64> {
    <Option<i64> as Semilattice>::acted(found(uf, c).0, uf.data(found(uf, c).1.0 as nat))
}

/// The value of the binary operator of `n` on `a` and `b`; `None` where it
/// has none (division or remainder by zero, or an overflowing one).
pub open spec fn eval_binary(n: CaviarLang, a: i64, b: i64) -> Option<i64> {
    match n {
        CaviarLang::Add(_) => Some(a.wrapping_add(b)),
        CaviarLang::Sub(_) => Some(a.wrapping_sub(b)),
        CaviarLang::Mul(_) => Some(a.wrapping_mul(b)),
        CaviarLang::Div(_) => a.checked_div(b),
        CaviarLang::Mod(_) => a.checked_rem(b),
        CaviarLang::Max(_) => Some(if a >= b { a } else { b }),
        CaviarLang::Min(_) => Some(if a <= b { a } else { b }),
        CaviarLang::Lt(_) => Some(b2i(a < b)),
        CaviarLang::Gt(_) => Some(b2i(a > b)),
        CaviarLang::Let(_) => Some(b2i(a <= b)),
        CaviarLang::Get(_) => Some(b2i(a >= b)),
        CaviarLang::Eq(_) => Some(b2i(a == b)),
        CaviarLang::IEq(_) => Some(b2i(a != b)),
        CaviarLang::Or(_) => Some(b2i(a != 0 || b != 0)),
        CaviarLang::And(_) => Some(b2i(a != 0 && b != 0)),
        _ => None,
    }
}

/// The constant that the e-node `n` is known to equal, if any.
pub open spec fn node_value(n: CaviarLang, uf: Unionfind<Option<i64>>) -> Option<i64> {
    match n {
        CaviarLang::Constant(c) => Some(c),
        CaviarLang::Symbol(_) => None,
        CaviarLang::Not(x) => match child_value(uf, x) {
            Some(a) => Some(b2i(a == 0)),
            None => None,
        },
        CaviarLang::Or(a) => match child_value(uf, a[0]) {
            Some(x) => if x != 0 {
                Some(1)
            } else {
                match child_value(uf, a[1]) {
                    Some(y) => Some(b2i(y != 0)),
                    None => None,
                }
            },
            None => None,
        },
        CaviarLang::And(a) => match child_value(uf, a[0]) {
            Some(x) => if x == 0 {
                Some(0)
            } else {
                match child_value(uf, a[1]) {
                    Some(y) => Some(b2i(y != 0)),
                    None => None,
                }
            },
            None => None,
        },
        _ => match (child_value(uf, n.kids()[0]), child_value(uf, n.kids()[1])) {
            (Some(a), Some(b)) => eval_binary(n, a, b),
            _ => None,
        },
    }
}

/// The canonical form of `n`: `(g, m)` with `n == g*m`. A sum whose operands
/// have known constants folds them into the offset; a constant `c` becomes
/// `c*0`; other e-nodes get their children's roots as children.
pub open spec fn canon_result(n: CaviarLang, uf: Unionfind<Option<i64>>) -> (
    Offset,
    Either<CaviarLang, Id>,
) {
    match n {
        CaviarLang::Add(a) => {
            let (ox, x) = found(uf, a[0]);
            let (oy, y) = found(uf, a[1]);
            let o = ox.0.wrapping_add(oy.0);
            match (uf.data(x.0 as nat), uf.data(y.0 as nat)) {
                (Some(cx), Some(cy)) => (
                    Offset(o.wrapping_add(cx).wrapping_add(cy)),
                    Either::L(CaviarLang::Constant(0)),
                ),
                (None, Some(cy)) => (Offset(o.wrapping_add(cy)), Either::R(x)),
                (Some(cx), None) => (Offset(o.wrapping_add(cx)), Either::R(y)),
                (None, None) => (
                    Offset(o),
                    Either::L(CaviarLang::Add([(Offset(0), x), (Offset(0), y)])),
                ),
            }
        },
        CaviarLang::Constant(c) => (Offset(c), Either::L(CaviarLang::Constant(0))),
        CaviarLang::Symbol(s) => (Offset(0), Either::L(CaviarLang::Symbol(s))),
        _ => (Offset(0), Either::L(n.with_kids(n.kids().map_values(|c: OffsetId| found(uf, c))))),
    }
}

/// A canonical e-node is its own canonical form: where `canon` gives an
/// e-node `n2` for `n`, it gives `n2` back for `n2`, with the zero offset.
pub proof fn lemma_canon_fixed(n: CaviarLang, uf: Unionfind<Option<i64>>)
    requires
        uf.wf(),
        forall|i: int| 0 <= i < n.kids().len() ==> (#[trigger] n.kids()[i]).1.0 < uf.len(),
        canon_result(n, uf).1 is L,
    ensures
        canon_result(canon_result(n, uf).1->L_0, uf) == (Offset(0), canon_result(n, uf).1),
{
    assert forall|c: OffsetId| c.1.0 < uf.len() implies found(uf, #[trigger] found(uf, c)) == found(uf, c)
        && found(uf, c).1.0 < uf.len() by {
        uf.lemma_find_from_in_range(c.0, c.1.0 as nat);
        let r = found(uf, c);
        uf.lemma_find_root(r.0, r.1.0 as nat);
    }
    let k = n.kids();
    let n2 = canon_result(n, uf).1->L_0;
    match n {
        CaviarLang::Add(a) => {
            assert(k[0] == a[0] && k[1] == a[1]);
            let x = found(uf, a[0]).1;
            let y = found(uf, a[1]).1;
            uf.lemma_find_from_in_range(a[0].0, a[0].1.0 as nat);
            uf.lemma_find_from_in_range(a[1].0, a[1].1.0 as nat);
            uf.lemma_find_root(Offset(0), x.0 as nat);
            uf.lemma_find_root(Offset(0), y.0 as nat);
            assert(0i64.wrapping_add(0i64) == 0i64);
        },
        CaviarLang::Constant(_) => {},
        CaviarLang::Symbol(_) => {},
        _ => {
            let k2 = k.map_values(|c: OffsetId| found(uf, c));
            assert(n2.kids() =~= k2);
            assert(k2.map_values(|c: OffsetId| found(uf, c)) =~= k2);
        },
    }
}

proof fn lemma_found_stable(uf: Unionfind<Option<i64>>)
    requires
        uf.wf(),
    ensures
        forall|c: OffsetId| c.1.0 < uf.len() ==> found(uf, #[trigger] found(uf, c)) == found(uf, c)
            && found(uf, c).1.0 < uf.len(),
{
    assert forall|c: OffsetId| c.1.0 < uf.len() implies found(uf, #[trigger] found(uf, c)) == found(uf, c)
        && found(uf, c).1.0 < uf.len() by {
        uf.lemma_find_from_in_range(c.0, c.1.0 as nat);
        let r = found(uf, c);
        uf.lemma_find_root(r.0, r.1.0 as nat);
    }
}

#[verifier::rlimit(40)]
proof fn lemma_canon_value_add(a: [OffsetId; 2], uf: Unionfind<Option<i64>>)
    requires
        uf.wf(),
        canon_result(CaviarLang::Add(a), uf).1 is L,
        node_value(CaviarLang::Add(a), uf) is Some,
    ensures
        node_value(canon_result(CaviarLang::Add(a), uf).1->L_0, uf) == Some(0i64),
        node_value(CaviarLang::Add(a), uf)->Some_0 == canon_result(CaviarLang::Add(a), uf).0.0,
{
    let n = CaviarLang::Add(a);
    assert(n.kids()[0] == a[0] && n.kids()[1] == a[1]);
    let (ox, x) = found(uf, a[0]);
    let (oy, y) = found(uf, a[1]);
    let cx = uf.data(x.0 as nat)->Some_0;
    let cy = uf.data(y.0 as nat)->Some_0;
    let ax = crate::offset::wrap(cx + ox.0);
    let ay = crate::offset::wrap(cy + oy.0);
    let v = node_value(n, uf)->Some_0;
    assert(v == ax.wrapping_add(ay));
    lemma_wrapping_add(ax, ay);
    let o = ox.0.wrapping_add(oy.0);
    lemma_wrapping_add(ox.0, oy.0);
    lemma_wrapping_add(o, cx);
    lemma_wrapping_add(o.wrapping_add(cx), cy);
    crate::offset::lemma_wrap_add_inner(ox.0 + oy.0, cx as int);
    crate::offset::lemma_wrap_add_inner(ox.0 + oy.0 + cx, cy as int);
    crate::offset::lemma_wrap_add_inner(cx + ox.0, ay as int);
    crate::offset::lemma_wrap_add_inner(cy + oy.0, cx + ox.0);
    assert(cx + ox.0 + (cy + oy.0) == ox.0 + oy.0 + cx + cy);
    assert(ay + (cx + ox.0) == (cx + ox.0) + ay);
}

#[verifier::rlimit(40)]
proof fn lemma_canon_value_other(n: CaviarLang, uf: Unionfind<Option<i64>>)
    requires
        uf.wf(),
        forall|i: int| 0 <= i < n.kids().len() ==> (#[trigger] n.kids()[i]).1.0 < uf.len(),
        !(n is Add) && !(n is Constant) && !(n is Symbol),
        node_value(n, uf) is Some,
    ensures
        node_value(canon_result(n, uf).1->L_0, uf) == node_value(n, uf),
        canon_result(n, uf).0 == Offset(0),
{
    lemma_found_stable(uf);
    let k = n.kids();
    let m = canon_result(n, uf).1->L_0;
    let k2 = k.map_values(|c: OffsetId| found(uf, c));
    assert(m.kids() =~= k2);
    assert forall|i: int| 0 <= i < k.len() implies child_value(uf, #[trigger] k2[i]) == child_value(uf, k[i]) by {
        assert(found(uf, k2[i]) == found(uf, k[i]));
    }
    match n {
        CaviarLang::Not(x) => {
            assert(k[0] == x);
            assert(child_value(uf, m.kids()[0]) == child_value(uf, x));
        },
        CaviarLang::Or(p) => {
            assert(k[0] == p[0] && k[1] == p[1]);
            assert(child_value(uf, m.kids()[0]) == child_value(uf, p[0]));
            assert(child_value(uf, m.kids()[1]) == child_value(uf, p[1]));
        },
        CaviarLang::And(p) => {
            assert(k[0] == p[0] && k[1] == p[1]);
            assert(child_value(uf, m.kids()[0]) == child_value(uf, p[0]));
            assert(child_value(uf, m.kids()[1]) == child_value(uf, p[1]));
        },
        _ => {
            assert(child_value(uf, m.kids()[0]) == child_value(uf, k[0]));
            assert(child_value(uf, m.kids()[1]) == child_value(uf, k[1]));
        },
    }
}

/// Canonicalizing keeps the value: where `canon` gives `(g, m)` for an
/// e-node `n` whose value `v` is known, `m` has a known value `w` too, and
/// `v` is `w` moved by `g` (`v == w + g`, with wrapping arithmetic).
pub proof fn lemma_canon_value(n: CaviarLang, uf: Unionfind<Option<i64>>)
    requires
        uf.wf(),
        forall|i: int| 0 <= i < n.kids().len() ==> (#[trigger] n.kids()[i]).1.0 < uf.len(),
    ensures
        canon_result(n, uf).1 is L && node_value(n, uf) is Some ==> node_value(canon_result(n, uf).1->L_0, uf) is Some
            && node_value(n, uf)->Some_0 == crate::offset::wrap(
            node_value(canon_result(n, uf).1->L_0, uf)->Some_0 + canon_result(n, uf).0.0,
        ),
{
    if canon_result(n, uf).1 is L && node_value(n, uf) is Some {
        let g = canon_result(n, uf).0;
        let v = node_value(n, uf)->Some_0;
        match n {
            CaviarLang::Add(a) => {
                lemma_canon_value_add(a, uf);
                crate::offset::lemma_wrap_mod(g.0 as int);
            },
            CaviarLang::Constant(c) => {
                crate::offset::lemma_wrap_mod(c as int);
            },
            CaviarLang::Symbol(_) => {},
            _ => {
                lemma_canon_value_other(n, uf);
                crate::offset::lemma_wrap_mod(v as int);
            },
        }
    }
}

/// Canonicalizing an e-node that stays an e-node of its operator keeps its
/// children in place, each replaced by the root of its e-class.
pub proof fn lemma_canon_children(n: CaviarLang, uf: Unionfind<Option<i64>>)
    requires
        uf.wf(),
        forall|i: int| 0 <= i < n.kids().len() ==> (#[trigger] n.kids()[i]).1.0 < uf.len(),
    ensures
        canon_result(n, uf).1 is L && !(canon_result(n, uf).1->L_0 is Constant) ==> canon_result(n, uf).1->L_0.kids().len()
            == n.kids().len() && forall|i: int|
            0 <= i < n.kids().len() ==> (#[trigger] canon_result(n, uf).1->L_0.kids()[i]).1 == found(uf, n.kids()[i]).1,
{
    let k = n.kids();
    match n {
        CaviarLang::Add(a) => {
            assert(k[0] == a[0] && k[1] == a[1]);
        },
        CaviarLang::Constant(_) => {},
        CaviarLang::Symbol(_) => {},
        _ => {
            let m = canon_result(n, uf).1->L_0;
            let k2 = k.map_values(|c: OffsetId| found(uf, c));
            assert(m.kids() =~= k2);
        },
    }
}

proof fn lemma_wrapping_sub(a: i64, b: i64)
    ensures
        a.wrapping_sub(b) == crate::offset::wrap(a - b),
{
    let m = crate::offset::modulus();
    let s = a - b;
    crate::offset::lemma_wrap_mod(s);
    if s > i64::MAX {
        crate::offset::lemma_wrap_mod(s - m);
        assert((s - m) % m == s % m) by {
            vstd::arithmetic::div_mod::lemma_mod_sub_multiples_vanish(s, m);
        }
        crate::offset::lemma_wrap_congruent(s - m, s);
    } else if s < i64::MIN {
        crate::offset::lemma_wrap_mod(s + m);
        assert((s + m) % m == s % m) by {
            vstd::arithmetic::div_mod::lemma_mod_add_multiples_vanish(s, m);
        }
        crate::offset::lemma_wrap_congruent(s + m, s);
    }
}

/// What each binary operator computes from its operands `a` and `b`: a
/// comparison gives 1 when it holds and 0 when not; sums, differences and
/// products are taken modulo 2^64 into `i64`; the maximum and minimum are
/// the larger and the smaller operand; `||` and `&&` give 1 or 0 by whether
/// the operands are nonzero.
pub proof fn lemma_eval_meaning(n: CaviarLang, a: i64, b: i64)
    ensures
        n is Lt ==> eval_binary(n, a, b) == Some(if a < b { 1i64 } else { 0i64 }),
        n is Gt ==> eval_binary(n, a, b) == Some(if a > b { 1i64 } else { 0i64 }),
        n is Let ==> eval_binary(n, a, b) == Some(if a <= b { 1i64 } else { 0i64 }),
        n is Get ==> eval_binary(n, a, b) == Some(if a >= b { 1i64 } else { 0i64 }),
        n is Eq ==> eval_binary(n, a, b) == Some(if a == b { 1i64 } else { 0i64 }),
        n is IEq ==> eval_binary(n, a, b) == Some(if a != b { 1i64 } else { 0i64 }),
        n is Add ==> eval_binary(n, a, b) == Some(crate::offset::wrap(a + b)),
        n is Sub ==> eval_binary(n, a, b) == Some(crate::offset::wrap(a - b)),
        n is Mul ==> eval_binary(n, a, b) == Some(crate::offset::wrap(a * b)),
        n is Max ==> (eval_binary(n, a, b) matches Some(r) && r >= a && r >= b && (r == a || r == b)),
        n is Min ==> (eval_binary(n, a, b) matches Some(r) && r <= a && r <= b && (r == a || r == b)),
        n is Or ==> eval_binary(n, a, b) == Some(if a != 0 || b != 0 { 1i64 } else { 0i64 }),
        n is And ==> eval_binary(n, a, b) == Some(if a != 0 && b != 0 { 1i64 } else { 0i64 }),
{
    lemma_wrapping_add(a, b);
    lemma_wrapping_sub(a, b);
    crate::cases::offset::lemma_wrapping_mul(a, b);
}

/// Division of naturals, with its remainder.
proof fn lemma_nat_div(x: int, d: int)
    requires
        x >= 0,
        d > 0,
    ensures
        x == d * (x / d) + x % d,
        0 <= x % d < d,
        0 <= x / d <= x,
{
    vstd::arithmetic::div_mod::lemma_fundamental_div_mod(x, d);
    vstd::arithmetic::div_mod::lemma_mod_pos_bound(x, d);
    let q = x / d;
    let r = x % d;
    assert(q >= 0) by (nonlinear_arith)
        requires x == d * q + r, 0 <= r < d, x >= 0, d > 0;
    assert(q <= x) by (nonlinear_arith)
        requires x == d * q + r, 0 <= r, d >= 1, q >= 0;
}

/// Division and remainder truncate toward zero: they are undefined exactly
/// on a zero divisor and on `i64::MIN / -1`; otherwise the quotient `q` and
/// remainder `r` satisfy `q*b + r == a`, with `r` smaller than `b` in size
/// and of the sign of `a`.
pub proof fn lemma_div_mod_meaning(k: [OffsetId; 2], a: i64, b: i64)
    ensures
        eval_binary(CaviarLang::Div(k), a, b) is None <==> (b == 0 || (a == i64::MIN && b == -1)),
        eval_binary(CaviarLang::Mod(k), a, b) is None <==> (b == 0 || (a == i64::MIN && b == -1)),
        eval_binary(CaviarLang::Div(k), a, b) matches Some(q) ==> (eval_binary(CaviarLang::Mod(k), a, b) matches Some(r)
            && q * b + r == a && (if b > 0 { -b < r < b } else { b < r < -b }) && (r == 0 || (r > 0) == (a > 0))),
{
    let x = a as int;
    let d = b as int;
    if d != 0 {
        if x > 0 && d > 0 {
            lemma_nat_div(x, d);
            let q = x / d;
            let r = x % d;
            assert(q * d + r == x) by (nonlinear_arith)
                requires x == d * q + r;
            assert(a.checked_div(b) == Some(q as i64));
            assert(a.checked_rem(b) == Some(r as i64));
            assert((q as i64) as int == q && (r as i64) as int == r);
            assert((q as i64) * b + (r as i64) == a);
            assert(eval_binary(CaviarLang::Div(k), a, b) == Some(q as i64));
            assert(eval_binary(CaviarLang::Mod(k), a, b) == Some(r as i64));
            assert(if b > 0 { -b < (r as i64) < b } else { b < (r as i64) < -b });
            assert((r as i64) == 0 || ((r as i64) > 0) == (a > 0));
        } else if x < 0 && d < 0 {
            lemma_nat_div(-x, -d);
            let q = (-x) / (-d);
            let r = -((-x) % (-d));
            assert(q * d + r == x) by (nonlinear_arith)
                requires -x == (-d) * q + (-x) % (-d), r == -((-x) % (-d));
            if !(a == i64::MIN && b == -1) {
                assert(q <= i64::MAX) by (nonlinear_arith)
                    requires -x == (-d) * q + (-x) % (-d), 0 <= (-x) % (-d), 0 <= q <= -x, -x <= 0x8000_0000_0000_0000,
                        !(-x == 0x8000_0000_0000_0000 && d == -1), d <= -1;
                assert(a.checked_div(b) == Some(q as i64));
                assert(a.checked_rem(b) == Some(r as i64));
            assert((q as i64) as int == q && (r as i64) as int == r);
            assert((q as i64) * b + (r as i64) == a);
            assert(eval_binary(CaviarLang::Div(k), a, b) == Some(q as i64));
            assert(eval_binary(CaviarLang::Mod(k), a, b) == Some(r as i64));
            assert(if b > 0 { -b < (r as i64) < b } else { b < (r as i64) < -b });
            assert((r as i64) == 0 || ((r as i64) > 0) == (a > 0));
            } else {
                assert(q == 0x8000_0000_0000_0000) by (nonlinear_arith)
                    requires -x == (-d) * q + (-x) % (-d), 0 <= (-x) % (-d) < -d, d == -1,
                        x == -0x8000_0000_0000_0000;
                assert(a.checked_div(b) is None);
            }
        } else if x < 0 {
            lemma_nat_div(-x, d);
            let q = -((-x) / d);
            let r = -((-x) % d);
            assert(q * d + r == x) by (nonlinear_arith)
                requires -x == d * ((-x) / d) + (-x) % d, q == -((-x) / d), r == -((-x) % d);
            assert(a.checked_div(b) == Some(q as i64));
            assert(a.checked_rem(b) == Some(r as i64));
            assert((q as i64) as int == q && (r as i64) as int == r);
            assert((q as i64) * b + (r as i64) == a);
            assert(eval_binary(CaviarLang::Div(k), a, b) == Some(q as i64));
            assert(eval_binary(CaviarLang::Mod(k), a, b) == Some(r as i64));
            assert(if b > 0 { -b < (r as i64) < b } else { b < (r as i64) < -b });
            assert((r as i64) == 0 || ((r as i64) > 0) == (a > 0));
        } else if x > 0 {
            lemma_nat_div(x, -d);
            let q = -(x / (-d));
            let r = x % (-d);
            assert(q * d + r == x) by (nonlinear_arith)
                requires x == (-d) * (x / (-d)) + r, q == -(x / (-d));
            assert(a.checked_div(b) == Some(q as i64));
            assert(a.checked_rem(b) == Some(r as i64));
            assert((q as i64) as int == q && (r as i64) as int == r);
            assert((q as i64) * b + (r as i64) == a);
            assert(eval_binary(CaviarLang::Div(k), a, b) == Some(q as i64));
            assert(eval_binary(CaviarLang::Mod(k), a, b) == Some(r as i64));
            assert(if b > 0 { -b < (r as i64) < b } else { b < (r as i64) < -b });
            assert((r as i64) == 0 || ((r as i64) > 0) == (a > 0));
        } else {
            assert(a.checked_div(b) == Some(0i64));
            assert(a.checked_rem(b) == Some(0i64));
            assert(x == 0);
            assert(0i64 * b + 0i64 == a);
        }
    }
}

/// Folding an e-node whose operands have known values `a` and `b` gives
/// the operator's value on them (see `lemma_eval_meaning`); `||` is 1 as
/// soon as its left operand is nonzero, and `&&` is 0 as soon as its left
/// operand is 0; `!` gives 1 exactly on 0.
pub proof fn lemma_fold_meaning(n: CaviarLang, uf: Unionfind<Option<i64>>, a: i64, b: i64)
    requires
        n.kids().len() >= 1 ==> child_value(uf, n.kids()[0]) == Some(a),
        n.kids().len() >= 2 ==> child_value(uf, n.kids()[1]) == Some(b),
    ensures
        n is Not ==> node_value(n, uf) == Some(if a == 0 { 1i64 } else { 0i64 }),
        n is Or ==> node_value(n, uf) == Some(if a != 0 || b != 0 { 1i64 } else { 0i64 }),
        n is And ==> node_value(n, uf) == Some(if a != 0 && b != 0 { 1i64 } else { 0i64 }),
        n.kids().len() == 2 && !(n is Or) && !(n is And) ==> node_value(n, uf) == eval_binary(n, a, b),
        n is Constant ==> node_value(n, uf) == Some(n->Constant_0),
        n is Symbol ==> node_value(n, uf) is None,
{
    match n {
        CaviarLang::Not(x) => {
            assert(n.kids()[0] == x);
        },
        CaviarLang::Or(k) => {
            assert(n.kids()[0] == k[0] && n.kids()[1] == k[1]);
        },
        CaviarLang::And(k) => {
            assert(n.kids()[0] == k[0] && n.kids()[1] == k[1]);
        },
        _ => {},
    }
}

/// `||` is known to be 1 once its left operand is known nonzero, and `&&`
/// to be 0 once its left operand is known to be 0, whatever the right one.
pub proof fn lemma_fold_short_circuit(n: CaviarLang, uf: Unionfind<Option<i64>>, a: i64)
    requires
        n is Or || n is And,
        child_value(uf, n.kids()[0]) == Some(a),
    ensures
        n is Or && a != 0 ==> node_value(n, uf) == Some(1i64),
        n is And && a == 0 ==> node_value(n, uf) == Some(0i64),
{
    match n {
        CaviarLang::Or(k) => {
            assert(n.kids()[0] == k[0]);
        },
        CaviarLang::And(k) => {
            assert(n.kids()[0] == k[0]);
        },
        _ => {},
    }
}

/// Canonicalizing a sum does not depend on the order of its operands: the
/// offset is the same, and so is the e-class it comes to (or the folded
/// constant).
pub proof fn lemma_canon_add_swap(a: OffsetId, b: OffsetId, uf: Unionfind<Option<i64>>)
    requires
        uf.wf(),
        a.1.0 < uf.len(),
        b.1.0 < uf.len(),
    ensures
        canon_result(CaviarLang::Add([a, b]), uf).0 == canon_result(CaviarLang::Add([b, a]), uf).0,
        canon_result(CaviarLang::Add([a, b]), uf).1 is R <==> canon_result(CaviarLang::Add([b, a]), uf).1 is R,
        canon_result(CaviarLang::Add([a, b]), uf).1 is R ==> canon_result(CaviarLang::Add([a, b]), uf).1
            == canon_result(CaviarLang::Add([b, a]), uf).1,
        canon_result(CaviarLang::Add([a, b]), uf).1 == Either::<CaviarLang, Id>::L(CaviarLang::Constant(0))
            <==> canon_result(CaviarLang::Add([b, a]), uf).1 == Either::<CaviarLang, Id>::L(CaviarLang::Constant(0)),
{
    let (ox, x) = found(uf, a);
    let (oy, y) = found(uf, b);
    lemma_wrapping_add(ox.0, oy.0);
    lemma_wrapping_add(oy.0, ox.0);
    assert(ox.0 + oy.0 == oy.0 + ox.0);
    let o = ox.0.wrapping_add(oy.0);
    assert(o == oy.0.wrapping_add(ox.0));
    match (uf.data(x.0 as nat), uf.data(y.0 as nat)) {
        (Some(cx), Some(cy)) => {
            lemma_wrapping_add(o, cx);
            lemma_wrapping_add(o.wrapping_add(cx), cy);
            lemma_wrapping_add(o, cy);
            lemma_wrapping_add(o.wrapping_add(cy), cx);
            lemma_wrap_add_inner(o + cx, cy as int);
            lemma_wrap_add_inner(o + cy, cx as int);
            assert(o + cx + cy == o + cy + cx);
        },
        _ => {},
    }
}

/// A sum that canonicalizes to an e-class comes to the e-class of one of
/// its operands, one whose value is not known.
pub proof fn lemma_canon_add_unknown(a: OffsetId, b: OffsetId, uf: Unionfind<Option<i64>>)
    requires
        uf.wf(),
        a.1.0 < uf.len(),
        b.1.0 < uf.len(),
    ensures
        canon_result(CaviarLang::Add([a, b]), uf).1 matches Either::R(z) ==> uf.data(z.0 as nat) is None && (z
            == found(uf, a).1 || z == found(uf, b).1),
{
}

fn eval_binary_exec(n: &CaviarLang, a: i64, b: i64) -> (res: Option<i64>)
    ensures
        res == eval_binary(*n, a, b),
{
    match n {
        CaviarLang::Add(_) => Some(a.wrapping_add(b)),
        CaviarLang::Sub(_) => Some(a.wrapping_sub(b)),
        CaviarLang::Mul(_) => Some(a.wrapping_mul(b)),
        CaviarLang::Div(_) => a.checked_div(b),
        CaviarLang::Mod(_) => a.checked_rem(b),
        CaviarLang::Max(_) => Some(if a >= b { a } else { b }),
        CaviarLang::Min(_) => Some(if a <= b { a } else { b }),
        CaviarLang::Lt(_) => Some(bool_to_int(a < b)),
        CaviarLang::Gt(_) => Some(bool_to_int(a > b)),
        CaviarLang::Let(_) => Some(bool_to_int(a <= b)),
        CaviarLang::Get(_) => Some(bool_to_int(a >= b)),
        CaviarLang::Eq(_) => Some(bool_to_int(a == b)),
        CaviarLang::IEq(_) => Some(bool_to_int(a != b)),
        CaviarLang::Or(_) => Some(bool_to_int(a != 0 || b != 0)),
        CaviarLang::And(_) => Some(bool_to_int(a != 0 && b != 0)),
        _ => None,
    }
}

impl CaviarAnalysis {
    /// The e-nodes that every e-class `x` has implicitly, once the constant
    /// `0` is stored: `x + 0` and `0 + x` (one of them when they coincide).
    pub open spec fn implied_spec(x: Id, eg: EGraph<CaviarAnalysis>) -> Seq<(Offset, CaviarLang)> {
        match EGraph::<CaviarAnalysis>::lookup_spec(eg.entries(), CaviarLang::Constant(0)) {
            None => Seq::empty(),
            Some(k) => {
                let zero = (eg.entries()[k].1.0, eg.entries()[k].1.1);
                let xx = (Offset(0), x);
                if xx == zero {
                    seq![(Offset(0), CaviarLang::Add([xx, zero]))]
                } else {
                    seq![
                        (Offset(0), CaviarLang::Add([xx, zero])),
                        (Offset(0), CaviarLang::Add([zero, xx])),
                    ]
                }
            },
        }
    }

    /// The e-nodes that the e-class `x` has implicitly, as `implied_spec`
    /// says.
    pub fn implied_nodes(x: Id, eg: &EGraph<CaviarAnalysis>) -> (res: Vec<(Offset, CaviarLang)>)
        ensures
            res@ == Self::implied_spec(x, *eg),
    {
        let zero = match eg.lookup(&CaviarLang::Constant(0)) {
            Some(z) => z,
            None => {
                return Vec::new();
            },
        };
        let xx = (Offset(0), x);
        let node1 = (Offset(0), CaviarLang::Add([xx, zero]));
        if crate::cases::caviar_offset::oid_eq(xx, zero) {
            let mut out: Vec<(Offset, CaviarLang)> = Vec::new();
            out.push(node1);
            proof {
                assert(out@ =~= Self::implied_spec(x, *eg));
            }
            out
        } else {
            let node2 = (Offset(0), CaviarLang::Add([zero, xx]));
            let mut out: Vec<(Offset, CaviarLang)> = Vec::new();
            out.push(node1);
            out.push(node2);
            proof {
                assert(out@ =~= Self::implied_spec(x, *eg));
            }
            out
        }
    }
}

/// The text of the operator of `n`.
pub open spec fn op_text(n: CaviarLang) -> Seq<char> {
    match n {
            CaviarLang::Add(_) => seq!['+'],
            CaviarLang::Sub(_) => seq!['-'],
            CaviarLang::Mul(_) => seq!['*'],
            CaviarLang::Div(_) => seq!['/'],
            CaviarLang::Mod(_) => seq!['%'],
            CaviarLang::Max(_) => seq!['m', 'a', 'x'],
            CaviarLang::Min(_) => seq!['m', 'i', 'n'],
            CaviarLang::Lt(_) => seq!['<'],
            CaviarLang::Gt(_) => seq!['>'],
            CaviarLang::Let(_) => seq!['<', '='],
            CaviarLang::Get(_) => seq!['>', '='],
            CaviarLang::Eq(_) => seq!['=', '='],
            CaviarLang::IEq(_) => seq!['!', '='],
            CaviarLang::Or(_) => seq!['|', '|'],
            CaviarLang::And(_) => seq!['&', '&'],
        CaviarLang::Not(_) => seq!['!'],
        _ => Seq::empty(),
    }
}

/// How `n` is printed, its children printed as `cs`: `(op a b)`, `(! a)`,
/// the constant in decimal, or the name.
pub open spec fn pretty(n: CaviarLang, cs: Seq<Seq<char>>) -> Seq<char> {
    match n {
        CaviarLang::Constant(c) => decimal(c as int),
        CaviarLang::Symbol(s) => s@,
        CaviarLang::Not(_) => seq!['('] + op_text(n) + seq![' '] + cs[0] + seq![')'],
        _ => seq!['('] + op_text(n) + seq![' '] + cs[0] + seq![' '] + cs[1] + seq![')'],
    }
}

fn push_op(out: &mut Vec<char>, n: &CaviarLang)
    ensures
        final(out)@ == old(out)@ + op_text(*n),
{
    let ghost start = out@;
    match n {
            CaviarLang::Add(_) => {
                out.push('+');
            },
            CaviarLang::Sub(_) => {
                out.push('-');
            },
            CaviarLang::Mul(_) => {
                out.push('*');
            },
            CaviarLang::Div(_) => {
                out.push('/');
            },
            CaviarLang::Mod(_) => {
                out.push('%');
            },
            CaviarLang::Max(_) => {
                out.push('m');
                out.push('a');
                out.push('x');
            },
            CaviarLang::Min(_) => {
                out.push('m');
                out.push('i');
                out.push('n');
            },
            CaviarLang::Lt(_) => {
                out.push('<');
            },
            CaviarLang::Gt(_) => {
                out.push('>');
            },
            CaviarLang::Let(_) => {
                out.push('<');
                out.push('=');
            },
            CaviarLang::Get(_) => {
                out.push('>');
                out.push('=');
            },
            CaviarLang::Eq(_) => {
                out.push('=');
                out.push('=');
            },
            CaviarLang::IEq(_) => {
                out.push('!');
                out.push('=');
            },
            CaviarLang::Or(_) => {
                out.push('|');
                out.push('|');
            },
            CaviarLang::And(_) => {
                out.push('&');
                out.push('&');
            },
        CaviarLang::Not(_) => {
            out.push('!');
        },
        _ => {},
    }
    proof {
        assert(out@ =~= start + op_text(*n));
    }
}

fn push_all(out: &mut Vec<char>, s: &Vec<char>)
    ensures
        final(out)@ == old(out)@ + s@,
{
    let mut i: usize = 0;
    while i < s.len()
        invariant
            i <= s@.len(),
            out@ == old(out)@ + s@.subrange(0, i as int),
        decreases s.len() - i,
    {
        out.push(s[i]);
        i += 1;
        proof {
            assert(s@.subrange(0, i as int) == s@.subrange(0, i - 1).push(s@[i - 1]));
        }
    }
    proof {
        assert(s@.subrange(0, i as int) == s@);
    }
}

impl CaviarAnalysis {
    /// Prints `n`, its children printed as `cs`, as `pretty` says.
    pub fn prettyprint(n: &CaviarLang, cs: &Vec<String>) -> (res: String)
        requires
            cs@.len() >= n.kids().len(),
        ensures
            res@ == pretty(*n, cs@.map_values(|c: String| c@)),
    {
        let ghost v = cs@.map_values(|c: String| c@);
        match n {
            CaviarLang::Constant(c) => {
                let d = decimal_chars(*c);
                string_of_chars(d.as_slice())
            },
            CaviarLang::Symbol(s) => {
                let d = chars_of(s.as_str());
                string_of_chars(d.as_slice())
            },
            CaviarLang::Not(_) => {
                let mut out: Vec<char> = Vec::new();
                out.push('(');
                push_op(&mut out, n);
                out.push(' ');
                let c0 = chars_of(cs[0].as_str());
                push_all(&mut out, &c0);
                out.push(')');
                proof {
                    assert(v[0] == cs@[0]@);
                    assert(out@ =~= pretty(*n, v));
                }
                string_of_chars(out.as_slice())
            },
            _ => {
                let mut out: Vec<char> = Vec::new();
                out.push('(');
                push_op(&mut out, n);
                out.push(' ');
                let c0 = chars_of(cs[0].as_str());
                push_all(&mut out, &c0);
                out.push(' ');
                let c1 = chars_of(cs[1].as_str());
                push_all(&mut out, &c1);
                out.push(')');
                proof {
                    assert(v[0] == cs@[0]@);
                    assert(v[1] == cs@[1]@);
                    assert(out@ =~= pretty(*n, v));
                }
                string_of_chars(out.as_slice())
            },
        }
    }
}

impl Analysis for CaviarAnalysis {
    type G = Offset;

    type S = Option<i64>;

    type L = CaviarLang;

    open spec fn canon_spec(n: CaviarLang, uf: Unionfind<Option<i64>>) -> (Offset, Either<CaviarLang, Id>) {
        canon_result(n, uf)
    }

    open spec fn mk_spec(n: CaviarLang, id: Id, uf: Unionfind<Option<i64>>) -> Option<i64> {
        node_value(n, uf)
    }

    open spec fn same(a: CaviarLang, b: CaviarLang) -> bool {
        CaviarLang::same_node(a, b)
    }

    open spec fn same_shape(a: CaviarLang, b: CaviarLang) -> bool {
        a.kids().len() == b.kids().len() && CaviarLang::same_node(
            a.with_kids(Seq::new(a.kids().len(), |i: int| (Offset(0), Id(0)))),
            b.with_kids(Seq::new(b.kids().len(), |i: int| (Offset(0), Id(0)))),
        )
    }

    open spec fn kids_of(n: CaviarLang) -> Seq<OffsetId> {
        n.kids()
    }

    open spec fn replace_kids(n: CaviarLang, k: Seq<OffsetId>) -> CaviarLang {
        n.with_kids(k)
    }

    open spec fn children_below(n: CaviarLang, len: nat) -> bool {
        forall|i: int| 0 <= i < n.kids().len() ==> (#[trigger] n.kids()[i]).1.0 < len
    }

    proof fn lemma_children_below(n: CaviarLang, len: nat) {
        assert(Self::kids_of(n) == n.kids());
        if Self::children_below(n, len) {
            assert forall|i: int| 0 <= i < Self::kids_of(n).len() implies (#[trigger] Self::kids_of(
                n,
            )[i]).1.0 < len by {
                assert(n.kids()[i] == Self::kids_of(n)[i]);
            }
        }
        if forall|i: int| 0 <= i < Self::kids_of(n).len() ==> (#[trigger] Self::kids_of(n)[i]).1.0 < len {
            assert forall|i: int| 0 <= i < n.kids().len() implies (#[trigger] n.kids()[i]).1.0 < len by {
                assert(n.kids()[i] == Self::kids_of(n)[i]);
            }
        }
    }

    proof fn lemma_same_refl(n: CaviarLang) {
    }

    proof fn lemma_canon_stable(n: CaviarLang, old: Unionfind<Option<i64>>, new: Unionfind<Option<i64>>) {
        assert forall|c: OffsetId| c.1.0 < old.len() implies #[trigger] found(new, c) == found(old, c) && new.data(
            found(old, c).1.0 as nat,
        ) == old.data(found(old, c).1.0 as nat) by {
            Unionfind::lemma_find_same_edges(old, new, c.0, c.1.0 as nat);
            old.lemma_find_from_in_range(c.0, c.1.0 as nat);
        }
        let k = n.kids();
        assert(forall|i: int| 0 <= i < k.len() ==> (#[trigger] k[i]).1.0 < old.len());
        assert(k.map_values(|c: OffsetId| found(new, c)) =~= k.map_values(|c: OffsetId| found(old, c)));
        match n {
            CaviarLang::Add(a) => {
                assert(k[0] == a[0] && k[1] == a[1]);
            },
            _ => {},
        }
    }

    proof fn lemma_replace_kids(n: CaviarLang, k: Seq<OffsetId>) {
        assert(n.with_kids(k).kids() =~= k);
    }

    fn canon(n: &CaviarLang, uf: &Unionfind<Option<i64>>) -> (res: (Offset, Either<CaviarLang, Id>)) {
        match n {
            CaviarLang::Add(a) => {
                proof {
                    assert(n.kids()[0] == a[0] && n.kids()[1] == a[1]);
                }
                let (ox, x) = uf.find(a[0]);
                let (oy, y) = uf.find(a[1]);
                let o = ox.0.wrapping_add(oy.0);
                let cx = *uf.get_leader_semilattice(x);
                let cy = *uf.get_leader_semilattice(y);
                match (cx, cy) {
                    (Some(cx), Some(cy)) => (
                        Offset(o.wrapping_add(cx).wrapping_add(cy)),
                        Either::L(CaviarLang::Constant(0)),
                    ),
                    (None, Some(cy)) => (Offset(o.wrapping_add(cy)), Either::R(x)),
                    (Some(cx), None) => (Offset(o.wrapping_add(cx)), Either::R(y)),
                    (None, None) => {
                        let m = CaviarLang::Add([(Offset(0), x), (Offset(0), y)]);
                        proof {
                            assert(Self::kids_of(m) == seq![(Offset(0), x), (Offset(0), y)]);
                        }
                        (Offset(o), Either::L(m))
                    },
                }
            },
            CaviarLang::Constant(c) => (Offset(*c), Either::L(CaviarLang::Constant(0))),
            CaviarLang::Symbol(s) => (Offset(0), Either::L(CaviarLang::Symbol(s.dup()))),
            _ => {
                let k = n.children();
                let mut k2: Vec<OffsetId> = Vec::new();
                let mut i: usize = 0;
                while i < k.len()
                    invariant
                        uf.wf(),
                        k@ == n.kids(),
                        forall|j: int| 0 <= j < k@.len() ==> (#[trigger] k@[j]).1.0 < uf.len(),
                        i <= k@.len(),
                        k2@.len() == i,
                        forall|j: int| 0 <= j < i ==> #[trigger] k2@[j] == found(*uf, k@[j]),
                        forall|j: int| 0 <= j < i ==> (#[trigger] k2@[j]).1.0 < uf.len(),
                        forall|j: int| 0 <= j < i ==> uf.is_root((#[trigger] k2@[j]).1.0 as nat),
                    decreases k.len() - i,
                {
                    let c = k[i];
                    let (g, r) = uf.find(c);
                    k2.push((g, r));
                    i += 1;
                }
                proof {
                    assert(k2@ =~= n.kids().map_values(|c: OffsetId| found(*uf, c)));
                }
                let m = n.set_children(&k2);
                proof {
                    assert forall|j: int| 0 <= j < m.kids().len() implies (#[trigger] m.kids()[j]).1.0 < uf.len() by {
                        assert(m.kids()[j] == k2@[j]);
                    }
                    assert(Self::kids_of(m) == k2@);
                }
                (Offset(0), Either::L(m))
            },
        }
    }

    fn mk(n: &CaviarLang, id: Id, uf: &Unionfind<Option<i64>>) -> (res: Option<i64>) {
        match n {
            CaviarLang::Constant(c) => Some(*c),
            CaviarLang::Symbol(_) => None,
            CaviarLang::Not(x) => {
                proof {
                    assert(n.kids()[0] == *x);
                }
                match uf.get_semilattice(x) {
                    Some(a) => Some(bool_to_int(a == 0)),
                    None => None,
                }
            },
            CaviarLang::Or(a) => {
                proof {
                    assert(n.kids()[0] == a[0] && n.kids()[1] == a[1]);
                }
                match uf.get_semilattice(&a[0]) {
                    Some(x) => if x != 0 {
                        Some(1)
                    } else {
                        match uf.get_semilattice(&a[1]) {
                            Some(y) => Some(bool_to_int(y != 0)),
                            None => None,
                        }
                    },
                    None => None,
                }
            },
            CaviarLang::And(a) => {
                proof {
                    assert(n.kids()[0] == a[0] && n.kids()[1] == a[1]);
                }
                match uf.get_semilattice(&a[0]) {
                    Some(x) => if x == 0 {
                        Some(0)
                    } else {
                        match uf.get_semilattice(&a[1]) {
                            Some(y) => Some(bool_to_int(y != 0)),
                            None => None,
                        }
                    },
                    None => None,
                }
            },
            _ => {
                let k = n.children();
                let a = uf.get_semilattice(&k[0]);
                let b = uf.get_semilattice(&k[1]);
                match (a, b) {
                    (Some(a), Some(b)) => eval_binary_exec(n, a, b),
                    _ => None,
                }
            },
        }
    }

    fn node_eq(a: &CaviarLang, b: &CaviarLang) -> (res: bool) {
        a.same(b)
    }

    fn nodes_match(a: &CaviarLang, b: &CaviarLang) -> (res: bool) {
        let ka = a.children();
        let kb = b.children();
        if ka.len() != kb.len() {
            return false;
        }
        let mut nils: Vec<OffsetId> = Vec::new();
        let mut i: usize = 0;
        while i < ka.len()
            invariant
                i <= ka@.len(),
                nils@ == Seq::new(i as nat, |j: int| (Offset(0), Id(0))),
            decreases ka.len() - i,
        {
            nils.push((Offset(0), Id(0)));
            i += 1;
        }
        let ca = a.set_children(&nils);
        let cb = b.set_children(&nils);
        ca.same(&cb)
    }

    fn dup_node(n: &CaviarLang) -> (res: CaviarLang) {
        n.dup()
    }

    fn children(n: &CaviarLang) -> (res: Vec<OffsetId>) {
        n.children()
    }

    fn set_children(n: &CaviarLang, k: Vec<OffsetId>) -> (res: CaviarLang) {
        n.set_children(&k)
    }
}

} // verus!
