use group_egraph::api::{Analysis, Either, Id};
use group_egraph::cases::caviar_offset::analysis::CaviarAnalysis;
use group_egraph::cases::caviar_offset::parse::parse;
use group_egraph::cases::caviar_offset::CaviarLang;
use group_egraph::cases::offset::analysis::{OffsetAnalysis, OffsetLang};
use group_egraph::decimal::decimal_chars;
use group_egraph::egraph::EGraph;
use group_egraph::eqsat::{check_rule, check_well_shaped};
use group_egraph::offset::Offset;
use group_egraph::symbol::Symbol;
use group_egraph::uf::Unionfind;

#[test]
fn offset_lang_canon_and_values() {
    let mut uf: Unionfind<Option<i64>> = Unionfind::new();
    let a = uf.makeset(None);
    let c = uf.makeset(Some(10));
    let (g, m) = OffsetAnalysis::canon(&OffsetLang::Add([(Offset(2), a), (Offset(3), c)]), &uf);
    assert_eq!(g, Offset(15));
    assert_eq!(m, Either::R(a));
    let (g, m) = OffsetAnalysis::canon(&OffsetLang::App([(Offset(2), a), (Offset(3), c)]), &uf);
    assert_eq!(g, Offset(0));
    assert_eq!(m, Either::L(OffsetLang::App([(Offset(2), a), (Offset(3), c)])));
    let (g, m) = OffsetAnalysis::canon(&OffsetLang::Const(9), &uf);
    assert_eq!((g, m), (Offset(9), Either::L(OffsetLang::Const(0))));
    assert_eq!(OffsetAnalysis::mk(&OffsetLang::Add([(Offset(1), c), (Offset(1), c)]), Id(0), &uf), Some(22));
    assert_eq!(OffsetAnalysis::mk(&OffsetLang::Add([(Offset(1), c), (Offset(1), a)]), Id(0), &uf), None);
    assert_eq!(OffsetAnalysis::mk(&OffsetLang::App([(Offset(1), c), (Offset(1), c)]), Id(0), &uf), None);
    assert_eq!(OffsetAnalysis::mk(&OffsetLang::Const(4), Id(0), &uf), Some(4));
}

#[test]
fn offset_lang_matching_shapes() {
    assert!(OffsetAnalysis::nodes_match(&OffsetLang::Const(1), &OffsetLang::Const(2)));
    assert!(OffsetAnalysis::nodes_match(
        &OffsetLang::Add([(Offset(1), Id(0)), (Offset(0), Id(1))]),
        &OffsetLang::Add([(Offset(0), Id(0)), (Offset(0), Id(0))])
    ));
    assert!(!OffsetAnalysis::nodes_match(&OffsetLang::Symbol(Symbol::new("a")), &OffsetLang::Symbol(Symbol::new("b"))));
    assert!(OffsetAnalysis::nodes_match(&OffsetLang::Symbol(Symbol::new("a")), &OffsetLang::Symbol(Symbol::new("a"))));
    assert!(!CaviarAnalysis::nodes_match(&CaviarLang::Constant(1), &CaviarLang::Constant(2)));
    assert!(CaviarAnalysis::nodes_match(
        &CaviarLang::Lt([(Offset(1), Id(0)), (Offset(0), Id(1))]),
        &CaviarLang::Lt([(Offset(0), Id(0)), (Offset(0), Id(0))])
    ));
}

#[test]
fn offset_lang_egraph() {
    let mut eg: EGraph<OffsetAnalysis> = EGraph::new();
    let a = eg.add(&OffsetLang::Symbol(Symbol::new("a")));
    let b = eg.add(&OffsetLang::Symbol(Symbol::new("b")));
    let k = eg.add(&OffsetLang::Const(3));
    let ak = eg.add(&OffsetLang::Add([a, k]));
    assert_eq!(ak, (Offset(3), a.1));
    let app1 = eg.add(&OffsetLang::App([a, b]));
    let app2 = eg.add(&OffsetLang::App([b, b]));
    assert!(!eg.is_equal(app1, app2));
    assert_eq!(eg.union(a, b), Ok(()));
    assert!(eg.is_equal(app1, app2));
    let zero = eg.add(&OffsetLang::Const(0));
    let implied = OffsetAnalysis::implied_nodes(a.1, &eg);
    assert_eq!(implied.len(), 2);
    assert_eq!(implied[0].1, OffsetLang::Add([(Offset(0), a.1), (Offset(0), zero.1)]));
}

#[test]
fn printing() {
    let n = CaviarLang::Add([(Offset(0), Id(0)), (Offset(0), Id(1))]);
    let cs = vec![String::from("x"), String::from("(* y 2)")];
    assert_eq!(CaviarAnalysis::prettyprint(&n, &cs), "(+ x (* y 2))");
    let n = CaviarLang::IEq([(Offset(0), Id(0)), (Offset(0), Id(1))]);
    assert_eq!(CaviarAnalysis::prettyprint(&n, &cs), "(!= x (* y 2))");
    let n = CaviarLang::Not((Offset(0), Id(0)));
    assert_eq!(CaviarAnalysis::prettyprint(&n, &cs), "(! x)");
    assert_eq!(CaviarAnalysis::prettyprint(&CaviarLang::Constant(-42), &vec![]), "-42");
    assert_eq!(CaviarAnalysis::prettyprint(&CaviarLang::Symbol(Symbol::new("v1")), &vec![]), "v1");
    let n = OffsetLang::App([(Offset(0), Id(0)), (Offset(0), Id(1))]);
    assert_eq!(OffsetAnalysis::prettyprint(&n, &cs), "(app x (* y 2))");
    assert_eq!(OffsetAnalysis::prettyprint(&OffsetLang::Const(7), &vec![]), "7");
}

#[test]
fn decimal_edges() {
    let s = |v: Vec<char>| v.into_iter().collect::<String>();
    assert_eq!(s(decimal_chars(0)), "0");
    assert_eq!(s(decimal_chars(i64::MIN)), "-9223372036854775808");
    assert_eq!(s(decimal_chars(i64::MAX)), "9223372036854775807");
    assert_eq!(s(decimal_chars(-7)), "-7");
}

#[test]
fn rule_checks() {
    let ok = (parse("(+ ?a ?b)").unwrap(), parse("(+ ?b ?a)").unwrap());
    assert!(check_rule(&ok));
    let unbound = (parse("(+ ?a 0)").unwrap(), parse("?b").unwrap());
    assert!(!check_rule(&unbound));
    assert!(check_well_shaped(&parse("(! (max a b))").unwrap()));
}

#[test]
fn symbols() {
    let s = Symbol::new("abc");
    assert_eq!(s.as_str(), "abc");
    assert!(s.same(&Symbol::from_chars(&['a', 'b', 'c'])));
    assert!(!s.same(&Symbol::new("abd")));
    assert!(s.same(&s.dup()));
}

#[test]
fn adding_twice_changes_nothing() {
    let mut eg: EGraph<OffsetAnalysis> = EGraph::new();
    let a = eg.add(&OffsetLang::Symbol(Symbol::new("a")));
    let b = eg.add(&OffsetLang::Symbol(Symbol::new("b")));
    let n = OffsetLang::App([a, b]);
    let r1 = eg.add(&n);
    let size = eg.size();
    let r2 = eg.add(&n);
    assert_eq!(r1, r2);
    assert_eq!(eg.size(), size);
    let r3 = eg.add(&OffsetLang::Symbol(Symbol::new("a")));
    assert_eq!(r3, a);
    assert_eq!(eg.size(), size);
}
