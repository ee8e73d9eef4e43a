use group_egraph::api::{Analysis, Either, Group, Id};
use group_egraph::uf::Unionfind;
use group_egraph::cases::caviar_offset::analysis::CaviarAnalysis;
use group_egraph::cases::caviar_offset::parse::{parse, parse_int, tokenize};
use group_egraph::cases::caviar_offset::rules::{mk_rules, rule_texts};
use group_egraph::cases::caviar_offset::CaviarLang;
use group_egraph::cases::caviar_offset::print::prettyprint;
use group_egraph::cases::caviar_offset::run::{caviar_step, Finding};
use group_egraph::cases::caviar_offset::expressions::{expression_pairs, expressions_of_bytes, JsonValue};
use group_egraph::egraph::{Contradiction, EGraph};
use group_egraph::ematch::{is_term, Pattern};
use group_egraph::baseline_ematch::{baseline_ematch, ematch_all};
use group_egraph::eqsat::{add_expr, eqsat, instantiate};
use group_egraph::symbol::Symbol;
use group_egraph::offset::Offset;

type Pat = Pattern<CaviarAnalysis>;

fn chars(s: &str) -> Vec<char> {
    s.chars().collect()
}

fn is_pvar(p: &Pat, name: &str) -> bool {
    match p {
        Pattern::PVar(s) => s.as_str() == name,
        _ => false,
    }
}

fn is_const(p: &Pat, c: i64) -> bool {
    match p {
        Pattern::Node(CaviarLang::Constant(d), ch) => *d == c && ch.is_empty(),
        _ => false,
    }
}

fn is_symbol(p: &Pat, name: &str) -> bool {
    match p {
        Pattern::Node(CaviarLang::Symbol(s), ch) => s.as_str() == name && ch.is_empty(),
        _ => false,
    }
}

#[test]
fn rules_parse() {
    let rules = mk_rules();
    assert!(rules.is_some());
    assert_eq!(rules.unwrap().len(), rule_texts().len());
}

#[test]
fn rules_count_and_first_rule() {
    let rules = mk_rules().unwrap();
    assert_eq!(rules.len(), 132);
    let (l, r) = &rules[0];
    match (l, r) {
        (Pattern::Node(CaviarLang::Add(_), lc), Pattern::Node(CaviarLang::Add(_), rc)) => {
            assert!(is_pvar(&lc[0], "?a") && is_pvar(&lc[1], "?b"));
            assert!(is_pvar(&rc[0], "?b") && is_pvar(&rc[1], "?a"));
        }
        _ => panic!("add-comm is not a sum"),
    }
}

#[test]
fn parse_binary_with_pvars() {
    let p = parse("(+ ?a (* 2 x))").unwrap();
    match &p {
        Pattern::Node(CaviarLang::Add(_), ch) => {
            assert_eq!(ch.len(), 2);
            assert!(is_pvar(&ch[0], "?a"));
            match &ch[1] {
                Pattern::Node(CaviarLang::Mul(_), ch2) => {
                    assert!(is_const(&ch2[0], 2));
                    assert!(is_symbol(&ch2[1], "x"));
                }
                _ => panic!("expected a product"),
            }
        }
        _ => panic!("expected a sum"),
    }
    assert!(!is_term(&p));
}

#[test]
fn parse_not_parens_and_operators() {
    let p = parse("( ! ( (x) ) )").unwrap();
    match &p {
        Pattern::Node(CaviarLang::Not(_), ch) => {
            assert_eq!(ch.len(), 1);
            assert!(is_symbol(&ch[0], "x"));
        }
        _ => panic!("expected a negation"),
    }
    assert!(is_term(&p));
    assert!(matches!(parse("(max a b)"), Some(Pattern::Node(CaviarLang::Max(_), _))));
    assert!(matches!(parse("(<= a b)"), Some(Pattern::Node(CaviarLang::Let(_), _))));
    assert!(matches!(parse("(|| a b)"), Some(Pattern::Node(CaviarLang::Or(_), _))));
    assert!(is_const(&parse("(0)").unwrap(), 0));
    assert!(is_const(&parse("-1").unwrap(), -1));
}

#[test]
fn parse_rejects() {
    assert!(parse("").is_none());
    assert!(parse("(+ a)").is_none());
    assert!(parse("(! a b)").is_none());
    assert!(parse("(foo a b)").is_none());
    assert!(parse("max").is_none());
    assert!(parse("a b").is_none());
    assert!(parse("(+ a b").is_none());
    assert!(parse("9223372036854775808").is_none());
}

#[test]
fn parse_int_edges() {
    assert_eq!(parse_int(&chars("9223372036854775807")), Some(i64::MAX));
    assert_eq!(parse_int(&chars("-9223372036854775808")), Some(i64::MIN));
    assert_eq!(parse_int(&chars("9223372036854775808")), None);
    assert_eq!(parse_int(&chars("+5")), Some(5));
    assert_eq!(parse_int(&chars("-")), None);
    assert_eq!(parse_int(&chars("12a")), None);
    assert_eq!(parse_int(&chars("")), None);
}

#[test]
fn tokenize_splits_parens_and_trims() {
    let t = tokenize(&chars("(+\t?a\n(x))"));
    let t: Vec<String> = t.iter().map(|v| v.iter().collect()).collect();
    assert_eq!(t, vec!["(", "+\t?a", "(", "x", ")", ")"]);
    let t = tokenize(&chars("  a \t "));
    assert_eq!(t.len(), 1);
    assert_eq!(t[0], vec!['a']);
}

#[test]
fn constants_share_one_class() {
    let mut eg: EGraph<CaviarAnalysis> = EGraph::new();
    let three = add_expr(&parse("3").unwrap(), &mut eg);
    let five = add_expr(&parse("5").unwrap(), &mut eg);
    assert_eq!(three.1, five.1);
    assert_eq!(three.0, Offset(3));
    assert_eq!(five.0, Offset(5));
    assert!(!eg.is_equal(three, five));
    assert!(eg.is_equal(three, (Offset(3), three.1)));
    assert_eq!(eg.get_g_between(five, three), Some(Offset(-2)));
}

#[test]
fn folding_of_sums() {
    let mut eg: EGraph<CaviarAnalysis> = EGraph::new();
    let x = add_expr(&parse("x").unwrap(), &mut eg);
    let x_plus_2 = add_expr(&parse("(+ x 2)").unwrap(), &mut eg);
    assert_eq!(x_plus_2.1, x.1);
    assert_eq!(x_plus_2.0, Offset(2));
    let sum = add_expr(&parse("(+ 4 (+ 1 2))").unwrap(), &mut eg);
    assert_eq!(sum.0, Offset(7));
}

#[test]
fn union_then_equal() {
    let mut eg: EGraph<CaviarAnalysis> = EGraph::new();
    let a = add_expr(&parse("a").unwrap(), &mut eg);
    let b = add_expr(&parse("b").unwrap(), &mut eg);
    let fa = add_expr(&parse("(* a a)").unwrap(), &mut eg);
    let fb = add_expr(&parse("(* b b)").unwrap(), &mut eg);
    assert!(!eg.is_equal(a, b));
    assert!(!eg.is_equal(fa, fb));
    assert_eq!(eg.union(a, (Offset(1), b.1)), Ok(()));
    assert!(eg.is_equal(a, (Offset(1), b.1)));
    assert!(!eg.is_equal(a, b));
    let c = add_expr(&parse("c").unwrap(), &mut eg);
    assert_eq!(eg.union(c, b), Ok(()));
    assert!(eg.is_equal(c, b));
    assert!(eg.is_equal(a, (Offset(1), c.1)));
    assert!(eg.is_equal((Offset(1), c.1), a));
}

#[test]
fn congruence_after_union() {
    let mut eg: EGraph<CaviarAnalysis> = EGraph::new();
    let a = add_expr(&parse("a").unwrap(), &mut eg);
    let b = add_expr(&parse("b").unwrap(), &mut eg);
    let fa = add_expr(&parse("(* a 3)").unwrap(), &mut eg);
    let fb = add_expr(&parse("(* b 3)").unwrap(), &mut eg);
    assert_eq!(eg.union(a, b), Ok(()));
    assert!(eg.is_equal(fa, fb));
}

#[test]
fn constant_propagation_through_union() {
    let mut eg: EGraph<CaviarAnalysis> = EGraph::new();
    let a = add_expr(&parse("a").unwrap(), &mut eg);
    let seven = add_expr(&parse("7").unwrap(), &mut eg);
    assert_eq!(eg.union(a, seven), Ok(()));
    let a_plus_1 = add_expr(&parse("(+ a 1)").unwrap(), &mut eg);
    let eight = add_expr(&parse("8").unwrap(), &mut eg);
    assert!(eg.is_equal(a_plus_1, eight));
}

#[test]
fn contradiction_on_different_constants() {
    let mut eg: EGraph<CaviarAnalysis> = EGraph::new();
    let three = add_expr(&parse("3").unwrap(), &mut eg);
    let five = add_expr(&parse("5").unwrap(), &mut eg);
    let size = eg.size();
    assert_eq!(eg.union(three, five), Err(Contradiction));
    assert_eq!(eg.size(), size);
    assert!(!eg.is_equal(three, five));
}

#[test]
fn lookup_and_nodes_of() {
    let mut eg: EGraph<CaviarAnalysis> = EGraph::new();
    let x = add_expr(&parse("x").unwrap(), &mut eg);
    let y = add_expr(&parse("y").unwrap(), &mut eg);
    let m = add_expr(&parse("(* x y)").unwrap(), &mut eg);
    let n = CaviarLang::Mul([(Offset(0), x.1), (Offset(0), y.1)]);
    assert_eq!(eg.lookup(&n), Some((Offset(0), m.1)));
    let nodes = eg.nodes_of_bare(m.1);
    assert_eq!(nodes.len(), 1);
    assert_eq!(nodes[0].0, Offset(0));
    let nodes = eg.nodes_of((Offset(4), m.1));
    assert_eq!(nodes[0].0, Offset(4));
    assert_eq!(eg.classes().len(), 3);
    assert_eq!(eg.find((Offset(1), x.1)), (Offset(1), x.1));
}

#[test]
fn implied_nodes_need_zero() {
    let mut eg: EGraph<CaviarAnalysis> = EGraph::new();
    let x = add_expr(&parse("x").unwrap(), &mut eg);
    assert!(CaviarAnalysis::implied_nodes(x.1, &eg).is_empty());
    let zero = add_expr(&parse("0").unwrap(), &mut eg);
    let nodes = CaviarAnalysis::implied_nodes(x.1, &eg);
    assert_eq!(nodes.len(), 2);
    assert_eq!(nodes[0].1, CaviarLang::Add([(Offset(0), x.1), (Offset(0), zero.1)]));
    assert_eq!(nodes[1].1, CaviarLang::Add([(Offset(0), zero.1), (Offset(0), x.1)]));
    let nodes = CaviarAnalysis::implied_nodes(zero.1, &eg);
    assert_eq!(nodes.len(), 1);
}

fn value_of(n: fn([(Offset, Id); 2]) -> CaviarLang, x: i64, y: i64) -> Option<i64> {
    let mut uf: Unionfind<Option<i64>> = Unionfind::new();
    let a = uf.makeset(Some(x));
    let b = uf.makeset(Some(y));
    CaviarAnalysis::mk(&n([(Offset(0), a), (Offset(0), b)]), Id(0), &uf)
}

#[test]
fn constant_values_of_operators() {
    assert_eq!(value_of(CaviarLang::Add, 3, 5), Some(8));
    assert_eq!(value_of(CaviarLang::Sub, 3, 5), Some(-2));
    assert_eq!(value_of(CaviarLang::Mul, 4, 5), Some(20));
    assert_eq!(value_of(CaviarLang::Div, 7, 2), Some(3));
    assert_eq!(value_of(CaviarLang::Div, -7, 2), Some(-3));
    assert_eq!(value_of(CaviarLang::Mod, -7, 2), Some(-1));
    assert_eq!(value_of(CaviarLang::Max, 3, 9), Some(9));
    assert_eq!(value_of(CaviarLang::Min, 3, 9), Some(3));
    assert_eq!(value_of(CaviarLang::Lt, 3, 9), Some(1));
    assert_eq!(value_of(CaviarLang::Gt, 3, 9), Some(0));
    assert_eq!(value_of(CaviarLang::Let, 3, 3), Some(1));
    assert_eq!(value_of(CaviarLang::Get, 2, 3), Some(0));
    assert_eq!(value_of(CaviarLang::Eq, 3, 3), Some(1));
    assert_eq!(value_of(CaviarLang::IEq, 3, 3), Some(0));
    assert_eq!(value_of(CaviarLang::Or, 0, 5), Some(1));
    assert_eq!(value_of(CaviarLang::And, 0, 5), Some(0));
    assert_eq!(value_of(CaviarLang::Add, i64::MAX, 1), Some(i64::MIN));
    assert_eq!(value_of(CaviarLang::Mul, i64::MAX, 2), Some(-2));
}

#[test]
fn division_without_value() {
    assert_eq!(value_of(CaviarLang::Div, 7, 0), None);
    assert_eq!(value_of(CaviarLang::Mod, 7, 0), None);
    assert_eq!(value_of(CaviarLang::Div, i64::MIN, -1), None);
    assert_eq!(value_of(CaviarLang::Mod, i64::MIN, -1), None);
    let mut uf: Unionfind<Option<i64>> = Unionfind::new();
    let a = uf.makeset(None);
    let b = uf.makeset(Some(2));
    assert_eq!(CaviarAnalysis::mk(&CaviarLang::Add([(Offset(0), a), (Offset(0), b)]), Id(0), &uf), None);
    assert_eq!(CaviarAnalysis::mk(&CaviarLang::Not((Offset(0), b)), Id(0), &uf), Some(0));
    assert_eq!(CaviarAnalysis::mk(&CaviarLang::Not((Offset(-2), b)), Id(0), &uf), Some(1));
}

#[test]
fn canon_folds_known_operands() {
    let mut uf: Unionfind<Option<i64>> = Unionfind::new();
    let a = uf.makeset(None);
    let b = uf.makeset(Some(2));
    let (g, m) = CaviarAnalysis::canon(&CaviarLang::Add([(Offset(1), a), (Offset(3), b)]), &uf);
    assert_eq!(g, Offset(6));
    assert_eq!(m, Either::R(a));
    let (g, m) = CaviarAnalysis::canon(&CaviarLang::Add([(Offset(1), b), (Offset(3), b)]), &uf);
    assert_eq!(g, Offset(8));
    assert_eq!(m, Either::L(CaviarLang::Constant(0)));
    let (g, m) = CaviarAnalysis::canon(&CaviarLang::Constant(-4), &uf);
    assert_eq!(g, Offset(-4));
    assert_eq!(m, Either::L(CaviarLang::Constant(0)));
    let (g, m) = CaviarAnalysis::canon(&CaviarLang::Add([(Offset(1), a), (Offset(3), a)]), &uf);
    assert_eq!(g, Offset(4));
    assert_eq!(m, Either::L(CaviarLang::Add([(Offset(0), a), (Offset(0), a)])));
    let (g, m) = CaviarAnalysis::canon(&CaviarLang::Mul([(Offset(1), a), (Offset(3), b)]), &uf);
    assert_eq!(g, Offset(0));
    assert_eq!(m, Either::L(CaviarLang::Mul([(Offset(1), a), (Offset(3), b)])));
}

#[test]
fn canon_of_canonical_node_is_itself() {
    let mut uf: Unionfind<Option<i64>> = Unionfind::new();
    let a = uf.makeset(None);
    let b = uf.makeset(None);
    let nodes = vec![
        CaviarLang::Add([(Offset(1), a), (Offset(3), b)]),
        CaviarLang::Mul([(Offset(1), a), (Offset(3), b)]),
        CaviarLang::Constant(9),
        CaviarLang::Not((Offset(-2), a)),
    ];
    for n in nodes {
        let (_, m) = CaviarAnalysis::canon(&n, &uf);
        let n2 = match m {
            Either::L(n2) => n2,
            Either::R(_) => panic!("expected a canonical e-node"),
        };
        let (g2, m2) = CaviarAnalysis::canon(&n2, &uf);
        assert_eq!(g2, Offset(0));
        assert_eq!(m2, Either::L(n2));
    }
}

#[test]
fn offsets_wrap() {
    let a = Offset(i64::MAX);
    let b = Offset(1);
    assert_eq!(Offset::compose(&a, &b), Offset(i64::MIN));
    assert_eq!(Offset(i64::MIN).inverse(), Offset(i64::MIN));
    assert_eq!(Offset::identity(), Offset(0));
    assert_eq!(Offset(5).apply(-7), -2);
    assert_eq!(Offset(1).apply(i64::MAX), i64::MIN);
}

#[test]
fn node_helpers() {
    let n = CaviarLang::Sub([(Offset(1), Id(2)), (Offset(3), Id(4))]);
    assert_eq!(n.children(), vec![(Offset(1), Id(2)), (Offset(3), Id(4))]);
    let m = n.set_children(&vec![(Offset(0), Id(0)), (Offset(0), Id(1))]);
    assert_eq!(m, CaviarLang::Sub([(Offset(0), Id(0)), (Offset(0), Id(1))]));
    assert!(n.same(&n.dup()));
    assert!(!n.same(&m));
    assert!(CaviarLang::Constant(3).children().is_empty());
}

#[test]
fn eqsat_applies_rules() {
    let mut eg: EGraph<CaviarAnalysis> = EGraph::new();
    let ab = add_expr(&parse("(* a b)").unwrap(), &mut eg);
    let ba = add_expr(&parse("(* b a)").unwrap(), &mut eg);
    assert!(!eg.is_equal(ab, ba));
    let lhs = parse("(* ?x ?y)").unwrap();
    let matches = ematch_all(&eg, &lhs);
    assert_eq!(matches.len(), 2);
    assert_eq!(baseline_ematch(ab.1, &lhs, &eg).len(), 1);
    let rules = vec![(parse("(* ?x ?y)").unwrap(), parse("(* ?y ?x)").unwrap())];
    assert_eq!(eqsat(&mut eg, &rules, 1), Ok(()));
    assert!(eg.is_equal(ab, ba));
}

#[test]
fn ematch_repeated_variable() {
    let mut eg: EGraph<CaviarAnalysis> = EGraph::new();
    add_expr(&parse("(- a a)").unwrap(), &mut eg);
    add_expr(&parse("(- a b)").unwrap(), &mut eg);
    let pat = parse("(- ?x ?x)").unwrap();
    let m = ematch_all(&eg, &pat);
    assert_eq!(m.len(), 1);
    assert_eq!(m[0].len(), 1);
    assert_eq!(m[0][0].0.as_str(), "?x");
}

#[test]
fn parse_rejects_malformed_text() {
    assert!(parse("(^ 1 2)").is_none());
    assert!(parse("(! 1 2)").is_none());
    assert!(parse("(+ 1)").is_none());
    assert!(parse("(+ 1 2").is_none());
    assert!(parse("1 2").is_none());
    assert!(parse("(! 1)").is_some());
}

#[test]
fn instantiate_fills_children_in_order() {
    let mut eg: EGraph<CaviarAnalysis> = EGraph::new();
    let a = add_expr(&parse("a").unwrap(), &mut eg);
    let b = add_expr(&parse("b").unwrap(), &mut eg);
    let ab = add_expr(&parse("(- a b)").unwrap(), &mut eg);
    let ba = add_expr(&parse("(- b a)").unwrap(), &mut eg);
    assert!(!eg.is_equal(ab, ba));
    let subst = vec![(Symbol::new("?x"), a), (Symbol::new("?y"), b)];
    let r = instantiate(&parse("(- ?x ?y)").unwrap(), &mut eg, &subst);
    assert_eq!(r, ab);
    let shifted = Pattern::G(Offset(3), Box::new(parse("?x").unwrap()));
    let r = instantiate(&shifted, &mut eg, &subst);
    assert_eq!(r, (Offset(3), a.1));
}

#[test]
fn expressions_from_json_bytes() {
    let text = br#"[{"expression": {"start": "(+ a 1)", "end": "a"}, "rules": []},
                    {"expression": {"end": "?x", "start": "7"}}]"#;
    let pairs = expressions_of_bytes(text).unwrap();
    assert_eq!(pairs.len(), 2);
    match &pairs[0].0 {
        Pattern::Node(CaviarLang::Add(_), ch) => {
            assert!(is_symbol(&ch[0], "a"));
            assert!(is_const(&ch[1], 1));
        }
        _ => panic!("expected a sum"),
    }
    assert!(is_symbol(&pairs[0].1, "a"));
    assert!(is_const(&pairs[1].0, 7));
    assert!(is_pvar(&pairs[1].1, "?x"));
    assert!(expressions_of_bytes(b"[]").unwrap().is_empty());
}

#[test]
fn expressions_from_json_rejected() {
    assert!(expressions_of_bytes(b"not json").is_none());
    assert!(expressions_of_bytes(br#"{"expression": {"start": "a", "end": "b"}}"#).is_none());
    assert!(expressions_of_bytes(br#"[{"expression": {"start": "a"}}]"#).is_none());
    assert!(expressions_of_bytes(br#"[{"expression": {"start": "a", "end": 3}}]"#).is_none());
    assert!(expressions_of_bytes(br#"[{"expression": {"start": "(+ a)", "end": "b"}}]"#).is_none());
    assert!(expressions_of_bytes(br#"[{"start": "a", "end": "b"}]"#).is_none());
}

#[test]
fn expression_pairs_of_values() {
    let entry = |s: &str, e: &str| {
        JsonValue::Object(vec![(
            "expression".to_string(),
            JsonValue::Object(vec![
                ("start".to_string(), JsonValue::Str(s.to_string())),
                ("end".to_string(), JsonValue::Str(e.to_string())),
            ]),
        )])
    };
    let v = JsonValue::Array(vec![entry("x", "(! 0)")]);
    let pairs = expression_pairs(&v).unwrap();
    assert!(is_symbol(&pairs[0].0, "x"));
    assert!(expression_pairs(&JsonValue::Null).is_none());
    assert!(expression_pairs(&JsonValue::Array(vec![entry("x", "(^ 1 2)")])).is_none());
    assert!(expression_pairs(&JsonValue::Array(vec![JsonValue::Number("1".to_string())])).is_none());
}

#[test]
fn or_and_read_the_left_operand_first() {
    let mut uf: Unionfind<Option<i64>> = Unionfind::new();
    let unknown = uf.makeset(None);
    let five = uf.makeset(Some(5));
    let zero = uf.makeset(Some(0));
    let or = |x: (Offset, Id), y: (Offset, Id)| CaviarLang::Or([x, y]);
    let and = |x: (Offset, Id), y: (Offset, Id)| CaviarLang::And([x, y]);
    assert_eq!(CaviarAnalysis::mk(&or((Offset(0), five), (Offset(0), unknown)), Id(0), &uf), Some(1));
    assert_eq!(CaviarAnalysis::mk(&or((Offset(0), unknown), (Offset(0), five)), Id(0), &uf), None);
    assert_eq!(CaviarAnalysis::mk(&or((Offset(0), zero), (Offset(0), unknown)), Id(0), &uf), None);
    assert_eq!(CaviarAnalysis::mk(&or((Offset(0), zero), (Offset(0), zero)), Id(0), &uf), Some(0));
    assert_eq!(CaviarAnalysis::mk(&and((Offset(0), zero), (Offset(0), unknown)), Id(0), &uf), Some(0));
    assert_eq!(CaviarAnalysis::mk(&and((Offset(0), unknown), (Offset(0), zero)), Id(0), &uf), None);
    assert_eq!(CaviarAnalysis::mk(&and((Offset(0), five), (Offset(0), five)), Id(0), &uf), Some(1));
    assert_eq!(CaviarAnalysis::mk(&and((Offset(-5), five), (Offset(0), five)), Id(0), &uf), Some(0));
}

#[test]
fn caviar_step_decides() {
    let rules = vec![(parse("(- ?x ?x)").unwrap(), parse("0").unwrap())];
    let mut eg: EGraph<CaviarAnalysis> = EGraph::new();
    let e = add_expr(&parse("(- b b)").unwrap(), &mut eg);
    let a = add_expr(&parse("a").unwrap(), &mut eg);
    let one = add_expr(&parse("1").unwrap(), &mut eg);
    let zero = add_expr(&parse("0").unwrap(), &mut eg);
    assert!(!eg.is_equal(zero, e));
    assert!(matches!(caviar_step(&mut eg, &rules, a, zero, one), Ok(Finding::Undecided)));
    assert!(matches!(caviar_step(&mut eg, &rules, one, zero, one), Ok(Finding::EqualToOne)));
    assert!(matches!(caviar_step(&mut eg, &rules, e, zero, one), Ok(Finding::EqualToZero)));
}

#[test]
fn prettyprint_patterns() {
    let p = parse("(+ ?a (* -2 x))").unwrap();
    assert_eq!(prettyprint(&p), "(+ ?a (* -2 x))");
    let q = parse("(!   (max 1 (min a b)))").unwrap();
    assert_eq!(prettyprint(&q), "(! (max 1 (min a b)))");
    let r = parse("(|| (<= a b) (!= c 0))").unwrap();
    assert_eq!(prettyprint(&r), "(|| (<= a b) (!= c 0))");
    let g = Pattern::G(Offset(-3), Box::new(parse("a").unwrap()));
    assert_eq!(prettyprint(&g), "Offset(-3) * a");
    assert_eq!(parse(&prettyprint(&p)).map(|x| prettyprint(&x)), Some(prettyprint(&p)));
}
