use group_egraph::guf::{opt_act, opt_compose, opt_inverse, opt_join, opt_mk, Grp, Lat, GUF};
use group_egraph::offset::Offset;

#[test]
fn guf_offsets_and_unions() {
    let mut uf: GUF<Offset, bool> = GUF::new();
    assert_eq!(uf.alloc_id(), 0);
    assert_eq!(uf.alloc_id(), 1);
    assert_eq!(uf.alloc_id(), 2);
    assert_eq!(uf.find(0), (None, 0));
    assert_eq!(uf.get_lattice(0), None);
    // 3 == 5*0
    assert_eq!(uf.offset((Offset(5), 0)), 3);
    assert_eq!(uf.find(3), (Some(Offset(5)), 0));
    // 4 == 2*3 == 7*0
    assert_eq!(uf.offset((Offset(2), 3)), 4);
    assert_eq!(uf.find(4), (Some(Offset(7)), 0));
    // one class already: only a self-edge is recorded
    uf.union(3, 4);
    assert_eq!(uf.find(3), (Some(Offset(5)), 0));
    assert_eq!(uf.find(4), (Some(Offset(7)), 0));
    // two leaders with unknown elements
    uf.union(1, 2);
    assert_eq!(uf.find(1), (None, 2));
    assert_eq!(uf.find(2), (None, 2));
    // linking 0 below 2: what led to 0 now leads to 2
    uf.union(3, 1);
    assert_eq!(uf.find(3), (None, 2));
    assert_eq!(uf.find(4), (None, 2));
    assert_eq!(uf.find(0), (None, 2));
    assert_eq!(uf.find_gid((Some(Offset(1)), 2)), (Some(Offset(1)), 2));
    assert_eq!(uf.get_lattice(4), None);
}

#[test]
fn guf_known_elements() {
    let mut uf: GUF<Offset, bool> = GUF::new();
    let a = uf.alloc_id();
    let b = uf.offset((Offset(4), a));
    let c = uf.offset((Offset(-1), a));
    // b == 4*a and c == -1*a lead to the same leader
    assert_eq!(uf.find(b).1, uf.find(c).1);
    uf.union(b, c);
    assert_eq!(uf.find(b), (Some(Offset(4)), a));
    assert_eq!(uf.find(c), (Some(Offset(-1)), a));
}

#[test]
fn guf_element_helpers() {
    assert_eq!(Offset(3).inverse(), Offset(-3));
    assert_eq!(Offset::compose(Offset(3), Offset(4)), Offset(7));
    assert_eq!(Offset::compose(Offset(i64::MAX), Offset(1)), Offset(i64::MIN));
    assert_eq!(opt_inverse(Some(Offset(2))), Some(Offset(-2)));
    assert_eq!(opt_inverse::<Offset>(None), None);
    assert_eq!(opt_compose(Some(Offset(1)), Some(Offset(2))), Some(Offset(3)));
    assert_eq!(opt_compose(Some(Offset(1)), None), None);
    assert_eq!(opt_join::<Offset, bool>(Some(true), Some(false)), Some(true));
    assert_eq!(opt_join::<Offset, bool>(Some(false), None), None);
    assert_eq!(opt_mk::<Offset, bool>(Some(Offset(0))), Some(false));
    assert_eq!(opt_mk::<Offset, bool>(Some(Offset(9))), Some(true));
    assert_eq!(opt_act::<Offset, bool>(Some(Offset(9)), Some(true)), Some(true));
    assert_eq!(opt_act::<Offset, bool>(None, Some(true)), None);
    assert!(<bool as Lat<Offset>>::join(false, true));
}
