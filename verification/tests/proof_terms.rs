use group_egraph::proofs::{
    apply_proof, apply_proof_impl, dup_term, is_refl, mk_congr, mk_refl, mk_sym, mk_trans, pattern_apply,
    term_eq, term_match, Pattern, ProofObj, Rules, Term,
};
use group_egraph::symbol::Symbol;

fn atom(s: &str) -> Pattern {
    Pattern::Node(Symbol::new(s), vec![])
}
fn pvar(s: &str) -> Pattern {
    Pattern::PVar(s.to_string())
}
fn f(a: Pattern, b: Pattern) -> Pattern {
    Pattern::Node(Symbol::new("f"), vec![a, b])
}
fn h(a: Pattern) -> Pattern {
    Pattern::Node(Symbol::new("h"), vec![a])
}
fn user(s: &str) -> Box<ProofObj> {
    Box::new(ProofObj::User(Symbol::new(s)))
}

#[test]
fn proof_through_congruence() {
    let rules: Rules = vec![(Symbol::new("a -> b"), atom("a"), atom("b"))];
    let p = Box::new(ProofObj::Congr(vec![user("a -> b")]));
    assert_eq!(apply_proof(&h(atom("a")), &p, &rules), h(atom("b")));
}

#[test]
fn proof_rule_with_variables() {
    let rules: Rules = vec![(Symbol::new("h(?a) -> ?a"), h(pvar("?a")), pvar("?a"))];
    assert_eq!(apply_proof(&h(atom("a")), &user("h(?a) -> ?a"), &rules), atom("a"));
}

#[test]
fn proof_steps_in_order() {
    let rules: Rules = vec![
        (Symbol::new("f(?x,?y) -> ?y"), f(pvar("?x"), pvar("?y")), pvar("?y")),
        (Symbol::new("x -> f(x,y)"), atom("x"), f(atom("x"), atom("y"))),
    ];
    // first x -> f(x,y), then f(?x,?y) -> ?y
    let p = Box::new(ProofObj::Trans(user("x -> f(x,y)"), user("f(?x,?y) -> ?y")));
    assert_eq!(apply_proof(&atom("x"), &p, &rules), atom("y"));
    // read backwards, the second step comes first
    let q = Box::new(ProofObj::Trans(user("f(?x,?y) -> ?y"), user("x -> f(x,y)")));
    assert_eq!(apply_proof_impl(&atom("x"), &q, &rules, true), atom("y"));
    assert_eq!(apply_proof_impl(&atom("x"), &Box::new(ProofObj::Sym(q)), &rules, false), atom("y"));
    // reflexivity leaves the term
    assert_eq!(apply_proof(&f(atom("x"), atom("z")), &mk_refl(), &rules), f(atom("x"), atom("z")));
}

#[test]
fn smart_proof_constructors() {
    assert!(is_refl(&mk_refl()));
    assert!(!is_refl(&user("r")));
    assert_eq!(mk_trans(mk_refl(), user("r")), user("r"));
    assert_eq!(mk_trans(user("r"), mk_refl()), user("r"));
    assert_eq!(mk_trans(user("r"), user("s")), Box::new(ProofObj::Trans(user("r"), user("s"))));
    assert_eq!(mk_sym(mk_refl()), mk_refl());
    assert_eq!(mk_sym(user("r")), Box::new(ProofObj::Sym(user("r"))));
    assert_eq!(mk_sym(mk_sym(user("r"))), user("r"));
    assert_eq!(mk_congr(vec![mk_refl(), mk_refl()]), mk_refl());
    assert_eq!(mk_congr(vec![]), mk_refl());
    assert_eq!(mk_congr(vec![mk_refl(), user("r")]), Box::new(ProofObj::Congr(vec![mk_refl(), user("r")])));
}

#[test]
fn matching_and_instantiating_terms() {
    let t: Term = f(atom("a"), h(atom("b")));
    let mut subst: Vec<(String, Term)> = Vec::new();
    term_match(&t, &f(pvar("?x"), pvar("?y")), &mut subst);
    assert_eq!(subst, vec![("?x".to_string(), atom("a")), ("?y".to_string(), h(atom("b")))]);
    assert_eq!(pattern_apply(&f(pvar("?y"), pvar("?x")), &subst), f(h(atom("b")), atom("a")));
    // a variable seen again against an equal term
    let mut s2: Vec<(String, Term)> = Vec::new();
    term_match(&f(atom("a"), atom("a")), &f(pvar("?x"), pvar("?x")), &mut s2);
    assert_eq!(s2, vec![("?x".to_string(), atom("a"))]);
    assert!(term_eq(&t, &dup_term(&t)));
    assert!(!term_eq(&t, &f(atom("a"), h(atom("c")))));
    assert!(!term_eq(&atom("a"), &pvar("a")));
    assert!(!term_eq(&h(atom("a")), &f(atom("a"), atom("a"))));
}
