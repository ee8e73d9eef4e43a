use group_egraph::api::{Group, Id, Semilattice};
use group_egraph::cases::offset::{resolve, simplify, solve, SymOffset};
use group_egraph::offset::Offset;
use group_egraph::uf::Unionfind;
use group_egraph::cases::slotted::{restrict, SlotMap as PartialMap};
use group_egraph::slotted::{complete, restrict as perm_restrict, SlotMap as PermMap};
use std::collections::HashSet;

#[test]
fn unionfind_links_and_finds() {
    let mut uf: Unionfind<Option<i64>> = Unionfind::new();
    let a = uf.makeset(None);
    let b = uf.makeset(None);
    let c = uf.makeset(Some(10));
    assert_eq!((a, b, c), (Id(0), Id(1), Id(2)));
    assert_eq!(uf.next_id(), Id(3));
    // a == 2 + b
    assert!(uf.union((Offset(0), a), (Offset(2), b)));
    assert_eq!(uf.find((Offset(0), a)), (Offset(2), b));
    assert_eq!(uf.find1(a), (Offset(2), b));
    // b == c - 3, so b is known to be 7.
    assert!(uf.union((Offset(0), b), (Offset(-3), c)));
    assert_eq!(uf.find((Offset(0), a)), (Offset(-1), c));
    assert_eq!(uf.get_semilattice(&(Offset(0), a)), Some(9));
    assert_eq!(uf.get_id_semilattice(b), Some(7));
    assert_eq!(*uf.get_leader_semilattice(c), Some(10));
    assert!(uf.is_equal((Offset(0), a), (Offset(2), b)));
    assert!(!uf.is_equal((Offset(0), a), (Offset(0), b)));
    assert_eq!(uf.get_g_between((Offset(0), a), (Offset(0), c)), Some(Offset(1)));
    assert_eq!(uf.classes(), vec![c]);
    // a second union of the same fact changes nothing
    assert!(!uf.union((Offset(0), a), (Offset(2), b)));
}

#[test]
fn unionfind_refusals() {
    let mut uf: Unionfind<Option<i64>> = Unionfind::new();
    let a = uf.makeset(Some(1));
    let b = uf.makeset(Some(2));
    assert!(!uf.can_union((Offset(0), a), (Offset(0), b)));
    assert!(uf.can_union((Offset(1), a), (Offset(0), b)));
    assert!(!uf.can_union((Offset(1), a), (Offset(0), a)));
    assert!(uf.can_union((Offset(1), a), (Offset(1), a)));
    assert!(uf.can_merge_s(&(Offset(1), a), &Some(2)));
    assert!(!uf.can_merge_s(&(Offset(0), a), &Some(2)));
    assert_eq!(uf.get_g_between((Offset(0), a), (Offset(0), b)), None);
}

#[test]
fn merge_into_class() {
    let mut uf: Unionfind<Option<i64>> = Unionfind::new();
    let a = uf.makeset(None);
    assert!(uf.merge_s((Offset(5), a), Some(12)));
    assert_eq!(uf.get_id_semilattice(a), Some(7));
    assert!(!uf.merge_s((Offset(5), a), Some(12)));
    assert!(!uf.merge_s((Offset(5), a), None));
}

#[test]
fn constant_semilattice() {
    let mut s: Option<i64> = None;
    assert!(s.merge(Some(3)));
    assert_eq!(s, Some(3));
    assert!(!s.merge(Some(3)));
    assert!(!s.merge(None));
    assert!(s.can_merge(&Some(3)));
    assert!(!s.can_merge(&Some(4)));
    assert_eq!(<Option<i64> as Semilattice>::act(&Offset(2), &Some(3)), Some(5));
    assert_eq!(<Option<i64> as Semilattice>::act(&Offset(2), &None), None);
    assert!(s.contains_self_edge(&Offset(0)));
    assert!(!s.contains_self_edge(&Offset(1)));
    assert!(s.can_insert_self_edge(&Offset(0)));
    assert!(!s.can_insert_self_edge(&Offset(4)));
}

#[test]
fn symoffset_arithmetic() {
    let z = SymOffset::zero();
    assert_eq!(z.constant_part(), 0);
    assert_eq!(z.coeff(0), 0);
    let c = SymOffset::from_const(7);
    assert_eq!(c.constant_part(), 7);
    let x = SymOffset::from_gvar(3);
    assert_eq!(x.constant_part(), 0);
    assert_eq!(x.coeff(3), 1);
    let s = x.add(&c).scale(-2);
    assert_eq!(s.constant_part(), -14);
    assert_eq!(s.coeff(3), -2);
    let t = s.add(&SymOffset::from_gvar(3).scale(2));
    assert_eq!(t.coeff(3), 0);
    assert_eq!(t.constant_part(), -14);
    assert_eq!(SymOffset::from_const(i64::MAX).add(&SymOffset::from_const(1)).constant_part(), i64::MIN);
    let zeroed = x.scale(0);
    assert_eq!(zeroed.coeff(3), 0);
}

fn eval(s: &SymOffset, sigma: &[(usize, i64)]) -> i64 {
    let mut r = s.constant_part();
    for (v, x) in sigma {
        r = r.wrapping_add(s.coeff(*v).wrapping_mul(*x));
    }
    r
}

#[test]
fn symoffset_evaluation() {
    // s = 3 + 2*g0 + 5*g1, with g0 solved to 4 + g1
    let s = SymOffset::from_const(3)
        .add(&SymOffset::from_gvar(0).scale(2))
        .add(&SymOffset::from_gvar(1).scale(5));
    let g0 = SymOffset::from_const(4).add(&SymOffset::from_gvar(1));
    let sigma = [(0usize, 14i64), (1usize, 10i64)];
    assert_eq!(eval(&s, &sigma), 81);
    assert_eq!(eval(&s.scale(-3), &sigma), -243);
    assert_eq!(eval(&s.add(&g0), &sigma), 81 + 14);
    assert_eq!(eval(&g0.add(&s), &sigma), 81 + 14);
    assert_eq!(s.add(&g0).coeff(1), g0.add(&s).coeff(1));
    let r = simplify(s, &vec![(0usize, g0)]);
    assert_eq!(r.coeff(0), 0);
    assert_eq!(r.coeff(1), 7);
    assert_eq!(r.constant_part(), 11);
    assert_eq!(eval(&r, &sigma), 81);
}

#[test]
fn symoffset_solve() {
    // x1 - x2 + 3 == 0 and x2 - 5 == 0
    let c1 = SymOffset::from_gvar(1).add(&SymOffset::from_gvar(2).scale(-1)).add(&SymOffset::from_const(3));
    let c2 = SymOffset::from_gvar(2).add(&SymOffset::from_const(-5));
    let sol = solve(vec![c1, c2]).unwrap();
    let e = SymOffset::from_gvar(1).add(&SymOffset::from_gvar(2));
    let r = simplify(e, &sol);
    assert_eq!(r.coeff(1), 0);
    assert_eq!(r.coeff(2), 0);
    let e = SymOffset::from_gvar(1).add(&SymOffset::from_gvar(2));
    assert_eq!(resolve(e, &sol), Offset(7));
    // 4 == 0 cannot hold
    assert!(solve(vec![SymOffset::from_const(4)]).is_none());
}

#[test]
fn permutation_slotmaps() {
    let p = PermMap::mk(vec![(2, 1), (1, 2), (3, 3)]);
    assert_eq!(p.iter(), vec![(1, 2), (2, 1)]);
    assert_eq!(p.support(), vec![1, 2]);
    assert_eq!(p.get(1), 2);
    assert_eq!(p.get(7), 7);
    let q = PermMap::mk(vec![(2, 3), (3, 2)]);
    let pq = PermMap::compose(&p, &q);
    // p(q(1)) = 2, p(q(2)) = p(3) = 3, p(q(3)) = p(2) = 1
    assert_eq!(pq.get(1), 2);
    assert_eq!(pq.get(2), 3);
    assert_eq!(pq.get(3), 1);
    let inv = pq.inverse();
    assert_eq!(inv.get(2), 1);
    assert_eq!(PermMap::compose(&pq, &inv).iter(), vec![]);
    assert_eq!(PermMap::identity().iter(), vec![]);
    let slots: HashSet<usize> = [1, 2].into_iter().collect();
    assert_eq!(perm_restrict(&p, &slots).map(|m| m.iter()), Some(vec![(1, 2), (2, 1)]));
    assert!(perm_restrict(&q, &slots).is_none());
}

#[test]
fn partial_slotmaps() {
    let m = PartialMap::mk(vec![(5, 1), (2, 7), (3, 3)]);
    assert_eq!(m.iter(), vec![(2, 7), (3, 3), (5, 1)]);
    assert_eq!(m.keys(), vec![2, 3, 5]);
    assert_eq!(m.values(), vec![7, 3, 1]);
    assert_eq!(m.get(5), Some(1));
    assert_eq!(m.get(4), None);
    let r = PartialMap::mk(vec![(10, 2), (11, 4)]);
    let c = PartialMap::compose(&m, &r);
    assert_eq!(c.iter(), vec![(10, 7)]);
    assert_eq!(m.inverse().iter(), vec![(1, 5), (3, 3), (7, 2)]);
    let slots: HashSet<usize> = [3, 5].into_iter().collect();
    assert!(restrict(&m, &slots).is_none());
    let slots: HashSet<usize> = [3].into_iter().collect();
    let m2 = PartialMap::mk(vec![(3, 3), (4, 6)]);
    assert_eq!(restrict(&m2, &slots).map(|x| x.iter()), Some(vec![(3, 3)]));
}

#[test]
fn completing_partial_maps() {
    assert_eq!(complete(vec![(1, 5)]).iter(), vec![(1, 5), (5, 1)]);
    assert_eq!(complete(vec![(1, 2), (3, 4)]).iter(), vec![(1, 2), (2, 1), (3, 4), (4, 3)]);
    assert_eq!(complete(vec![(1, 2), (2, 3)]).iter(), vec![(1, 2), (2, 3), (3, 1)]);
    assert_eq!(complete(vec![(7, 7)]).iter(), vec![]);
    assert_eq!(complete(vec![]).iter(), vec![]);
    let p = complete(vec![(4, 9), (9, 6)]);
    assert_eq!(p.get(6), 4);
    assert_eq!(p.get(5), 5);
}

#[test]
fn permutation_iter_is_support_mapped() {
    let p = PermMap::mk(vec![(4, 9), (9, 5), (5, 4), (7, 7)]);
    let mapped: Vec<(usize, usize)> = p.support().into_iter().map(|x| (x, p.get(x))).collect();
    assert_eq!(p.iter(), mapped);
    assert_eq!(p.support(), vec![4, 5, 9]);
}

#[test]
fn symoffset_add_either_order_and_simplify_removes_solved() {
    // a = 3 + 2*g1, b = 5 - 2*g1 + 5*g2
    let a = SymOffset::from_const(3).add(&SymOffset::from_gvar(1).scale(2));
    let b = SymOffset::from_const(5)
        .add(&SymOffset::from_gvar(1).scale(-2))
        .add(&SymOffset::from_gvar(2).scale(5));
    let ab = a.add(&b);
    let ba = b.add(&a);
    assert_eq!(ab.constant_part(), 8);
    assert_eq!(ba.constant_part(), 8);
    for v in 0..4 {
        assert_eq!(ab.coeff(v), ba.coeff(v));
    }
    assert_eq!(ab.coeff(1), 0);
    assert_eq!(ab.coeff(2), 5);
    // s = g0 + g1 with g0 = 1 + g2 and g1 = 3*g2
    let s = SymOffset::from_gvar(0).add(&SymOffset::from_gvar(1));
    let gs = vec![
        (0usize, SymOffset::from_const(1).add(&SymOffset::from_gvar(2))),
        (1usize, SymOffset::from_gvar(2).scale(3)),
    ];
    let r = simplify(s, &gs);
    assert_eq!(r.coeff(0), 0);
    assert_eq!(r.coeff(1), 0);
    assert_eq!(r.coeff(2), 4);
    assert_eq!(r.constant_part(), 1);
}
