use group_egraph::api::Id;
use group_egraph::cases::offset::analysis::{OffsetAnalysis, OffsetLang};
use group_egraph::cases::offset::matching::resolve_match;
use group_egraph::egraph::EGraph;
use group_egraph::ematch::{skeleton_ematch, Pattern, Skel};
use group_egraph::eqsat::add_expr;
use group_egraph::offset::Offset;
use group_egraph::symbol::Symbol;

type Pat = Pattern<OffsetAnalysis>;

fn nil() -> (Offset, Id) {
    (Offset(0), Id(0))
}
fn mk_pvar(x: &str) -> Pat {
    Pattern::PVar(Symbol::new(x))
}
fn mk_const(x: i64) -> Pat {
    Pattern::Node(OffsetLang::Const(x), vec![])
}
fn mk_symbol(x: &str) -> Pat {
    Pattern::Node(OffsetLang::Symbol(Symbol::new(x)), vec![])
}
fn mk_add(x: Pat, y: Pat) -> Pat {
    Pattern::Node(OffsetLang::Add([nil(), nil()]), vec![x, y])
}
fn mk_app(x: Pat, y: Pat) -> Pat {
    Pattern::Node(OffsetLang::App([nil(), nil()]), vec![x, y])
}

#[test]
// (app a b) matches (app a (+ ?x 17)), with ?x = b - 17
fn test_offset_ematching1() {
    let mut eg: EGraph<OffsetAnalysis> = EGraph::new();
    add_expr(&mk_const(42), &mut eg);
    let b = add_expr(&mk_symbol("b"), &mut eg);
    assert_eq!(b.0, Offset(0));
    let a = add_expr(&mk_app(mk_symbol("a"), mk_symbol("b")), &mut eg);
    OffsetAnalysis::rebuild_nodes(&mut eg);
    let pat = mk_app(mk_symbol("a"), mk_add(mk_pvar("?x"), mk_const(17)));
    let m = OffsetAnalysis::ematch(&eg, a.1, &pat);
    assert_eq!(m.len(), 1);
    assert_eq!(m[0], vec![(Symbol::new("?x"), (Offset(-17), b.1))]);
}

#[test]
// (app (a-5) (a+5)) does not match (app ?x ?x)
fn test_offset_ematching2() {
    let mut eg: EGraph<OffsetAnalysis> = EGraph::new();
    add_expr(&mk_const(0), &mut eg);
    let ex = mk_app(mk_add(mk_symbol("a"), mk_const(-5)), mk_add(mk_symbol("a"), mk_const(5)));
    add_expr(&ex, &mut eg);
    let pat = mk_app(mk_pvar("?x"), mk_pvar("?x"));
    assert_eq!(eg.rebuild(), Ok(()));
    OffsetAnalysis::rebuild_nodes(&mut eg);
    let matches = OffsetAnalysis::ematch_all(&eg, &pat);
    assert!(matches.is_empty());
}

#[test]
// (app (a+5) (a+5)) does match (app ?x ?x), with ?x = 5 + a
fn offset_ematch_equal_children() {
    let mut eg: EGraph<OffsetAnalysis> = EGraph::new();
    let ex = mk_app(mk_add(mk_symbol("a"), mk_const(5)), mk_add(mk_const(5), mk_symbol("a")));
    let app = add_expr(&ex, &mut eg);
    let a = add_expr(&mk_symbol("a"), &mut eg);
    assert_eq!(eg.rebuild(), Ok(()));
    let matches = OffsetAnalysis::ematch(&eg, app.1, &mk_app(mk_pvar("?x"), mk_pvar("?x")));
    assert_eq!(matches, vec![vec![(Symbol::new("?x"), (Offset(5), a.1))]]);
}

#[test]
fn offset_ematch_through_app() {
    let mut eg: EGraph<OffsetAnalysis> = EGraph::new();
    let app = add_expr(&mk_app(mk_symbol("a"), mk_symbol("b")), &mut eg);
    let b = add_expr(&mk_symbol("b"), &mut eg);
    assert_eq!(eg.rebuild(), Ok(()));
    let pat = mk_app(mk_symbol("a"), mk_pvar("?x"));
    let matches = OffsetAnalysis::ematch(&eg, app.1, &pat);
    assert_eq!(matches, vec![vec![(Symbol::new("?x"), (Offset(0), b.1))]]);
    // the name must agree
    let pat = mk_app(mk_symbol("c"), mk_pvar("?x"));
    assert!(OffsetAnalysis::ematch(&eg, app.1, &pat).is_empty());
    // everywhere: only the application matches
    let pat = mk_app(mk_symbol("a"), mk_pvar("?x"));
    assert_eq!(OffsetAnalysis::ematch_all(&eg, &pat).len(), 1);
}

#[test]
fn offset_ematch_sum_variables() {
    let mut eg: EGraph<OffsetAnalysis> = EGraph::new();
    let a = add_expr(&mk_symbol("a"), &mut eg);
    let b = add_expr(&mk_symbol("b"), &mut eg);
    let s = add_expr(&mk_add(mk_symbol("a"), mk_symbol("b")), &mut eg);
    assert_eq!(eg.rebuild(), Ok(()));
    let matches = OffsetAnalysis::ematch(&eg, s.1, &mk_add(mk_pvar("?x"), mk_pvar("?y")));
    assert_eq!(
        matches,
        vec![vec![(Symbol::new("?x"), (Offset(0), a.1)), (Symbol::new("?y"), (Offset(0), b.1))]]
    );
}

#[test]
fn skeleton_of_an_application() {
    let mut eg: EGraph<OffsetAnalysis> = EGraph::new();
    let app = add_expr(&mk_app(mk_symbol("a"), mk_symbol("b")), &mut eg);
    let a = add_expr(&mk_symbol("a"), &mut eg);
    let b = add_expr(&mk_symbol("b"), &mut eg);
    assert_eq!(eg.rebuild(), Ok(()));
    let r = skeleton_ematch(&eg, app.1, &mk_app(mk_pvar("?x"), mk_pvar("?y")));
    assert_eq!(r.len(), 1);
    assert_eq!(r[0].0, vec![(Symbol::new("?x"), a.1), (Symbol::new("?y"), b.1)]);
    match &r[0].1 {
        Skel::Node(g, n, ch) => {
            assert_eq!(*g, Offset(0));
            assert!(matches!(n, OffsetLang::App(_)));
            assert_eq!(ch.len(), 2);
            assert!(matches!(ch[0].2, Skel::PVar(x) if x == a.1));
            assert!(matches!(ch[1].2, Skel::PVar(x) if x == b.1));
        }
        Skel::PVar(_) => panic!("expected an e-node"),
    }
    // a repeated variable must meet the same e-class
    assert!(skeleton_ematch(&eg, app.1, &mk_app(mk_pvar("?x"), mk_pvar("?x"))).is_empty());
}

#[test]
fn resolving_matches() {
    let x = Id(0);
    let pat = mk_app(mk_pvar("?x"), mk_pvar("?x"));
    let same = Skel::Node(
        Offset(0),
        OffsetLang::App([(Offset(2), x), (Offset(2), x)]),
        vec![(Offset(2), None, Skel::PVar(x)), (Offset(2), None, Skel::PVar(x))],
    );
    assert_eq!(resolve_match(&same, &pat), Some(vec![(Symbol::new("?x"), (Offset(2), x))]));
    let differ = Skel::Node(
        Offset(0),
        OffsetLang::App([(Offset(1), x), (Offset(2), x)]),
        vec![(Offset(1), None, Skel::PVar(x)), (Offset(2), None, Skel::PVar(x))],
    );
    assert_eq!(resolve_match(&differ, &pat), None);
    // a constant matches a constant: the root offset makes up the difference
    let c = Skel::Node(Offset(3), OffsetLang::Const(0), vec![]);
    assert_eq!(resolve_match(&c, &mk_const(10)), Some(vec![]));
    // an application does not move with its root offset
    let app = Skel::Node(
        Offset(4),
        OffsetLang::App([(Offset(0), x), (Offset(0), x)]),
        vec![(Offset(0), None, Skel::PVar(x)), (Offset(0), None, Skel::PVar(x))],
    );
    assert_eq!(resolve_match(&app, &pat), Some(vec![(Symbol::new("?x"), (Offset(0), x))]));
}
