use vstd::prelude::*;
use crate::cases::caviar_offset::analysis::CaviarAnalysis;
use crate::cases::caviar_offset::parse::{denotes, parse, read_all, tokens};
use crate::eqsat::Rule;

verus! {

/// The rewrite rules of the arithmetic language, as text: name, searcher,
/// applier. Side conditions of rules are not checked.
pub open spec fn rule_table() -> Seq<(&'static str, &'static str, &'static str)> {
    seq![
        ("add-comm", "(+ ?a ?b)", "(+ ?b ?a)"),
        ("add-assoc", "(+ ?a (+ ?b ?c))", "(+ (+ ?a ?b) ?c)"),
        ("add-zero", "(+ ?a 0)", "?a"),
        ("add-dist-mul", "(* ?a (+ ?b ?c))", "(+ (* ?a ?b) (* ?a ?c))"),
        ("add-fact-mul", "(+ (* ?a ?b) (* ?a ?c))", "(* ?a (+ ?b ?c))"),
        ("add-denom-mul", "(+ (/ ?a ?b) ?c)", "(/ (+ ?a (* ?b ?c)) ?b)"),
        ("add-denom-div", "(/ (+ ?a (* ?b ?c)) ?b)", "(+ (/ ?a ?b) ?c)"),
        ("add-div-mod", "( + ( / ?x 2 ) ( % ?x 2 ) )", "( / ( + ?x 1 ) 2 )"),
        ("add-const", "( + (* ?x ?a) (* ?y ?b))", "( * (+ (* ?x (/ ?a ?b)) ?y) ?b)"),
        ("and-over-or", "(&& ?a (|| ?b ?c))", "(|| (&& ?a ?b) (&& ?a ?c))"),
        ("or-over-and", "(|| ?a (&& ?b ?c))", "(&& (|| ?a ?b) (|| ?a ?c))"),
        ("or-x-and-x-y", "(|| ?x (&& ?x ?y))", "?x"),
        ("and-comm", "(&& ?y ?x)", "(&& ?x ?y)"),
        ("and-assoc", "(&& ?a (&& ?b ?c))", "(&& (&& ?a ?b) ?c)"),
        ("and-x-1", "(&& 1 ?x)", "?x"),
        ("and-x-x", "(&& ?x ?x)", "?x"),
        ("and-x-not-x", "(&& ?x (! ?x))", "0"),
        ("and-eq-eq", "( && ( == ?x ?c0 ) ( == ?x ?c1 ) )", "0"),
        ("and-ineq-eq", "( && ( != ?x ?c0 ) ( == ?x ?c1 ) )", "( == ?x ?c1 )"),
        ("and-lt-to-min", "(&& (< ?x ?y) (< ?x ?z))", "(< ?x (min ?y ?z))"),
        ("and-min-to-lt", "(< ?x (min ?y ?z))", "(&& (< ?x ?y) (< ?x ?z))"),
        ("and-eqlt-to-min", "(&& (<= ?x ?y) (<= ?x ?z))", "(<= ?x (min ?y ?z))"),
        ("and-min-to-eqlt", "(<= ?x (min ?y ?z))", "(&& (<= ?x ?y) (<= ?x ?z))"),
        ("and-lt-to-max", "(&& (< ?y ?x) (< ?z ?x))", "(< (max ?y ?z) ?x)"),
        ("and-max-to-lt", "(> ?x (max ?y ?z))", "(&& (< ?z ?x) (< ?y ?x))"),
        ("and-eqlt-to-max", "(&& (<= ?y ?x) (<= ?z ?x))", "(<= (max ?y ?z) ?x)"),
        ("and-max-to-eqlt", "(>= ?x (max ?y ?z))", "(&& (<= ?z ?x) (<= ?y ?x))"),
        ("and-lt-gt-to-0", "( && ( < ?c0 ?x ) ( < ?x ?c1 ) )", "0"),
        ("and-eqlt-eqgt-to-0", "( && ( <= ?c0 ?x ) ( <= ?x ?c1 ) )", "0"),
        ("and-eqlt-gt-to-0", "( && ( <= ?c0 ?x ) ( < ?x ?c1 ) )", "0"),
        ("div-zero", "(/ 0 ?x)", "(0)"),
        ("div-cancel", "(/ ?a ?a)", "1"),
        ("div-minus-down", "(/ (* -1 ?a) ?b)", "(/ ?a (* -1 ?b))"),
        ("div-minus-up", "(/ ?a (* -1 ?b))", "(/ (* -1 ?a) ?b)"),
        ("div-minus-in", "(* -1 (/ ?a ?b))", "(/ (* -1 ?a) ?b)"),
        ("div-minus-out", "(/ (* -1 ?a) ?b)", "(* -1 (/ ?a ?b))"),
        ("div-consts-div", "( / ( * ?x ?a ) ?b )", "( / ?x ( / ?b ?a ) )"),
        ("div-consts-mul", "( / ( * ?x ?a ) ?b )", "( * ?x ( / ?a ?b ) )"),
        ("div-consts-add", "( / ( + ( * ?x ?a ) ?y ) ?b )", "( + ( * ?x ( / ?a ?b ) ) ( / ?y ?b ) )"),
        ("div-separate", "( / ( + ?x ?a ) ?b )", "( + ( / ?x ?b ) ( / ?a ?b ) )"),
        ("eq-comm", "(== ?x ?y)", "(== ?y ?x)"),
        ("eq-x-y-0", "(== ?x ?y)", "(== (- ?x ?y) 0)"),
        ("eq-swap", "(== (+ ?x ?y) ?z)", "(== ?x (- ?z ?y))"),
        ("eq-x-x", "(== ?x ?x)", "1"),
        ("eq-mul-x-y-0", "(== (* ?x ?y) 0)", "(|| (== ?x 0) (== ?y 0))"),
        ("eq-max-lt", "( == (max ?x ?y) ?y)", "(<= ?x ?y)"),
        ("Eq-min-lt", "( == (min ?x ?y) ?y)", "(<= ?y ?x)"),
        ("Eq-lt-min", "(<= ?y ?x)", "( == (min ?x ?y) ?y)"),
        ("Eq-a-b", "(== (* ?a ?x) ?b)", "0"),
        ("Eq-max-c-pos", "(== (max ?x ?c) 0)", "0"),
        ("Eq-max-c-neg", "(== (max ?x ?c) 0)", "(== ?x 0)"),
        ("Eq-min-c-pos", "(== (min ?x ?c) 0)", "0"),
        ("Eq-min-c-neg", "(== (min ?x ?c) 0)", "(== ?x 0)"),
        ("ineq-to-eq", "(!= ?x ?y)", "(! (== ?x ?y))"),
        ("gt-to-lt", "(> ?x ?z)", "(< ?z ?x)"),
        ("lt-swap", "(< ?x ?y)", "(< (* -1 ?y) (* -1 ?x))"),
        ("lt-to-zero", "(< ?a ?a)", "0"),
        ("lt-swap-in", "(< (+ ?x ?y) ?z)", "(< ?x (- ?z ?y))"),
        ("lt-swap-out", "(< ?z (+ ?x ?y))", "(< (- ?z ?y) ?x)"),
        ("lt-x-x-sub-a", "(< (- ?a ?y) ?a )", "1"),
        ("lt-const-pos", "(< 0 ?y )", "1"),
        ("lt-const-neg", "(< ?y 0 )", "1"),
        ("min-lt-cancel", "( < ( min ?x ?y ) ?x )", "( < ?y ?x )"),
        ("lt-min-mutual-term", "( < ( min ?z ?y ) ( min ?x ?y ) )", "( < ?z ( min ?x ?y ) )"),
        ("lt-max-mutual-term", "( < ( max ?z ?y ) ( max ?x ?y ) )", "( < ( max ?z ?y ) ?x )"),
        ("lt-min-term-term+pos", "( < ( min ?z ?y ) ( min ?x ( + ?y ?c0 ) ) )", "( < ( min ?z ?y ) ?x )"),
        ("lt-max-term-term+pos", "( < ( max ?z ( + ?y ?c0 ) ) ( max ?x ?y ) )", "( < ( max ?z ( + ?y ?c0 ) ) ?x )"),
        ("lt-min-term+neg-term", "( < ( min ?z ( + ?y ?c0 ) ) ( min ?x ?y ) )", "( < ( min ?z ( + ?y ?c0 ) ) ?x )"),
        ("lt-max-term+neg-term", "( < ( max ?z ?y ) ( max ?x ( + ?y ?c0 ) ) )", "( < ( max ?z ?y ) ?x )"),
        ("lt-min-term+cpos", "( < ( min ?x ?y ) (+ ?x ?c0) )", "1"),
        ("lt-min-max-cancel", "(< (max ?a ?c) (min ?a ?b))", "0"),
        ("lt-mul-pos-cancel", "(< (* ?x ?y) ?z)", "(< ?x ( / (- ( + ?z ?y ) 1 ) ?y ) )"),
        ("lt-mul-div-cancel", "(< ?y (/ ?x ?z))", "( < ( - ( * ( + ?y 1 ) ?z ) 1 ) ?x )"),
        ("lt-const-mod", "(< ?a (% ?x ?b))", "1"),
        ("lt-const-mod-false", "(< ?a (% ?x ?b))", "0"),
        ("max-to-min", "(max ?a ?b)", "(* -1 (min (* -1 ?a) (* -1 ?b)))"),
        ("min-comm", "(min ?a ?b)", "(min ?b ?a)"),
        ("min-ass", "(min (min ?x ?y) ?z)", "(min ?x (min ?y ?z))"),
        ("min-x-x", "(min ?x ?x)", "?x"),
        ("min-max", "(min (max ?x ?y) ?x)", "?x"),
        ("min-max-max-x", "(min (max ?x ?y) (max ?x ?z))", "(max (min ?y ?z) ?x)"),
        ("min-max-min-y", "(min (max (min ?x ?y) ?z) ?y)", "(min (max ?x ?z) ?y)"),
        ("min-sub-both", "(min (+ ?a ?b) ?c)", "(+ (min ?b (- ?c ?a)) ?a)"),
        ("min-add-both", "(+ (min ?x ?y) ?z)", "(min (+ ?x ?z) (+ ?y ?z))"),
        ("min-x-x-plus-a-pos", "(min ?x (+ ?x ?a))", "?x"),
        ("min-x-x-plus-a-neg", "(min ?x (+ ?x ?a))", "(+ ?x ?a)"),
        ("min-mul-in-pos", "(* (min ?x ?y) ?z)", "(min (* ?x ?z) (* ?y ?z))"),
        ("min-mul-out-pos", "(min (* ?x ?z) (* ?y ?z))", "(* (min ?x ?y) ?z)"),
        ("min-mul-in-neg", "(* (min ?x ?y) ?z)", "(max (* ?x ?z) (* ?y ?z))"),
        ("min-mul-out-neg", "(max (* ?x ?z) (* ?y ?z))", "(* (min ?x ?y) ?z)"),
        ("min-div-in-pos", "(/ (min ?x ?y) ?z)", "(min (/ ?x ?z) (/ ?y ?z))"),
        ("min-div-out-pos", "(min (/ ?x ?z) (/ ?y ?z))", "(/ (min ?x ?y) ?z)"),
        ("min-div-in-neg", "(/ (max ?x ?y) ?z)", "(min (/ ?x ?z) (/ ?y ?z))"),
        ("min-div-out-neg", "(min (/ ?x ?z) (/ ?y ?z))", "(/ (max ?x ?y) ?z)"),
        ("min-max-const", "( min ( max ?x ?c0 ) ?c1 )", "?c1"),
        ("min-div-mul", "( min ( * ( / ?x ?c0 ) ?c0 ) ?x )", "( * ( / ?x ?c0 ) ?c0 )"),
        ("min-mod-const-to-mod", "(min (% ?x ?c0) ?c1)", "(% ?x ?c0)"),
        ("min-mod-const-to-const", "(min (% ?x ?c0) ?c1)", "?c1"),
        ("min-max-switch", "( min ( max ?x ?c0 ) ?c1 )", "( max ( min ?x ?c1 ) ?c0 )"),
        ("max-min-switch", "( max ( min ?x ?c1 ) ?c0 )", "( min ( max ?x ?c0 ) ?c1 )"),
        ("min-consts-or", "( < ( min ?y ?c0 ) ?c1 )", "( || ( < ?y ?c1 ) ( < ?c0 ?c1 ) )"),
        ("max-consts-and", "( < ( max ?y ?c0 ) ?c1 )", "( && ( < ?y ?c1 ) ( < ?c0 ?c1 ) )"),
        ("max-consts-or", "( < ?c1 ( max ?y ?c0 ) )", "( || ( < ?c1 ?y ) ( < ?c1 ?c0 ) )"),
        ("min-consts-div-pos", "( min ( * ?x ?a ) ?b )", "( * ( min ?x ( / ?b ?a ) ) ?a )"),
        ("min-min-div-pos", "( min ( * ?x ?a ) ( * ?y ?b ) )", "( * ( min ?x ( * ?y ( / ?b ?a ) ) ) ?a )"),
        ("min-consts-div-neg", "( min ( * ?x ?a ) ?b )", "( * ( max ?x ( / ?b ?a ) ) ?a )"),
        ("min-min-div-neg", "( min ( * ?x ?a ) ( * ?y ?b ) )", "( * ( max ?x ( * ?y ( / ?b ?a ) ) ) ?a )"),
        ("mod-zero", "(% 0 ?x)", "0"),
        ("mod-x-x", "(% ?x ?x)", "0"),
        ("mod-one", "(% ?x 1)", "0"),
        ("mod-const-add", "(% ?x ?c1)", "(% (+ ?x ?c1) ?c1)"),
        ("mod-const-sub", "(% ?x ?c1)", "(% (- ?x ?c1) ?c1)"),
        ("mod-minus-out", "(% (* ?x -1) ?c)", "(* -1 (% ?x ?c))"),
        ("mod-minus-in", "(* -1 (% ?x ?c))", "(% (* ?x -1) ?c)"),
        ("mod-two", "(% (- ?x ?y) 2)", "(% (+ ?x ?y) 2)"),
        ("mod-consts", "( % ( + ( * ?x ?c0 ) ?y ) ?c1 )", "( % ?y ?c1 )"),
        ("mod-multiple", "(% (* ?c0 ?x) ?c1)", "0"),
        ("mul-comm", "(* ?a ?b)", "(* ?b ?a)"),
        ("mul-assoc", "(* ?a (* ?b ?c))", "(* (* ?a ?b) ?c)"),
        ("mul-zero", "(* ?a 0)", "0"),
        ("mul-one", "(* ?a 1)", "?a"),
        ("mul-cancel-div", "(* (/ ?a ?b) ?b)", "(- ?a (% ?a ?b))"),
        ("mul-max-min", "(* (max ?a ?b) (min ?a ?b))", "(* ?a ?b)"),
        ("div-cancel-mul", "(/ (* ?y ?x) ?x)", "?y"),
        ("eqlt-to-not-gt", "(<= ?x ?y)", "(! (< ?y ?x))"),
        ("not-gt-to-eqlt", "(! (< ?y ?x))", "(<= ?x ?y)"),
        ("eqgt-to-not-lt", "(>= ?x ?y)", "(! (< ?x ?y))"),
        ("not-eq-to-ineq", "(! (== ?x ?y))", "(!= ?x ?y)"),
        ("not-not", "(! (! ?x))", "?x"),
        ("or-to-and", "(|| ?x ?y)", "(! (&& (! ?x) (! ?y)))"),
        ("or-comm", "(|| ?y ?x)", "(|| ?x ?y)"),
        ("sub-to-add", "(- ?a ?b)", "(+ ?a (* -1 ?b))"),
    ]
}

/// The rewrite rules, as text.
pub fn rule_texts() -> (res: Vec<(&'static str, &'static str, &'static str)>)
    ensures
        res@ == rule_table(),
{
    vec![
        ("add-comm", "(+ ?a ?b)", "(+ ?b ?a)"),
        ("add-assoc", "(+ ?a (+ ?b ?c))", "(+ (+ ?a ?b) ?c)"),
        ("add-zero", "(+ ?a 0)", "?a"),
        ("add-dist-mul", "(* ?a (+ ?b ?c))", "(+ (* ?a ?b) (* ?a ?c))"),
        ("add-fact-mul", "(+ (* ?a ?b) (* ?a ?c))", "(* ?a (+ ?b ?c))"),
        ("add-denom-mul", "(+ (/ ?a ?b) ?c)", "(/ (+ ?a (* ?b ?c)) ?b)"),
        ("add-denom-div", "(/ (+ ?a (* ?b ?c)) ?b)", "(+ (/ ?a ?b) ?c)"),
        ("add-div-mod", "( + ( / ?x 2 ) ( % ?x 2 ) )", "( / ( + ?x 1 ) 2 )"),
        ("add-const", "( + (* ?x ?a) (* ?y ?b))", "( * (+ (* ?x (/ ?a ?b)) ?y) ?b)"),
        ("and-over-or", "(&& ?a (|| ?b ?c))", "(|| (&& ?a ?b) (&& ?a ?c))"),
        ("or-over-and", "(|| ?a (&& ?b ?c))", "(&& (|| ?a ?b) (|| ?a ?c))"),
        ("or-x-and-x-y", "(|| ?x (&& ?x ?y))", "?x"),
        ("and-comm", "(&& ?y ?x)", "(&& ?x ?y)"),
        ("and-assoc", "(&& ?a (&& ?b ?c))", "(&& (&& ?a ?b) ?c)"),
        ("and-x-1", "(&& 1 ?x)", "?x"),
        ("and-x-x", "(&& ?x ?x)", "?x"),
        ("and-x-not-x", "(&& ?x (! ?x))", "0"),
        ("and-eq-eq", "( && ( == ?x ?c0 ) ( == ?x ?c1 ) )", "0"),
        ("and-ineq-eq", "( && ( != ?x ?c0 ) ( == ?x ?c1 ) )", "( == ?x ?c1 )"),
        ("and-lt-to-min", "(&& (< ?x ?y) (< ?x ?z))", "(< ?x (min ?y ?z))"),
        ("and-min-to-lt", "(< ?x (min ?y ?z))", "(&& (< ?x ?y) (< ?x ?z))"),
        ("and-eqlt-to-min", "(&& (<= ?x ?y) (<= ?x ?z))", "(<= ?x (min ?y ?z))"),
        ("and-min-to-eqlt", "(<= ?x (min ?y ?z))", "(&& (<= ?x ?y) (<= ?x ?z))"),
        ("and-lt-to-max", "(&& (< ?y ?x) (< ?z ?x))", "(< (max ?y ?z) ?x)"),
        ("and-max-to-lt", "(> ?x (max ?y ?z))", "(&& (< ?z ?x) (< ?y ?x))"),
        ("and-eqlt-to-max", "(&& (<= ?y ?x) (<= ?z ?x))", "(<= (max ?y ?z) ?x)"),
        ("and-max-to-eqlt", "(>= ?x (max ?y ?z))", "(&& (<= ?z ?x) (<= ?y ?x))"),
        ("and-lt-gt-to-0", "( && ( < ?c0 ?x ) ( < ?x ?c1 ) )", "0"),
        ("and-eqlt-eqgt-to-0", "( && ( <= ?c0 ?x ) ( <= ?x ?c1 ) )", "0"),
        ("and-eqlt-gt-to-0", "( && ( <= ?c0 ?x ) ( < ?x ?c1 ) )", "0"),
        ("div-zero", "(/ 0 ?x)", "(0)"),
        ("div-cancel", "(/ ?a ?a)", "1"),
        ("div-minus-down", "(/ (* -1 ?a) ?b)", "(/ ?a (* -1 ?b))"),
        ("div-minus-up", "(/ ?a (* -1 ?b))", "(/ (* -1 ?a) ?b)"),
        ("div-minus-in", "(* -1 (/ ?a ?b))", "(/ (* -1 ?a) ?b)"),
        ("div-minus-out", "(/ (* -1 ?a) ?b)", "(* -1 (/ ?a ?b))"),
        ("div-consts-div", "( / ( * ?x ?a ) ?b )", "( / ?x ( / ?b ?a ) )"),
        ("div-consts-mul", "( / ( * ?x ?a ) ?b )", "( * ?x ( / ?a ?b ) )"),
        ("div-consts-add", "( / ( + ( * ?x ?a ) ?y ) ?b )", "( + ( * ?x ( / ?a ?b ) ) ( / ?y ?b ) )"),
        ("div-separate", "( / ( + ?x ?a ) ?b )", "( + ( / ?x ?b ) ( / ?a ?b ) )"),
        ("eq-comm", "(== ?x ?y)", "(== ?y ?x)"),
        ("eq-x-y-0", "(== ?x ?y)", "(== (- ?x ?y) 0)"),
        ("eq-swap", "(== (+ ?x ?y) ?z)", "(== ?x (- ?z ?y))"),
        ("eq-x-x", "(== ?x ?x)", "1"),
        ("eq-mul-x-y-0", "(== (* ?x ?y) 0)", "(|| (== ?x 0) (== ?y 0))"),
        ("eq-max-lt", "( == (max ?x ?y) ?y)", "(<= ?x ?y)"),
        ("Eq-min-lt", "( == (min ?x ?y) ?y)", "(<= ?y ?x)"),
        ("Eq-lt-min", "(<= ?y ?x)", "( == (min ?x ?y) ?y)"),
        ("Eq-a-b", "(== (* ?a ?x) ?b)", "0"),
        ("Eq-max-c-pos", "(== (max ?x ?c) 0)", "0"),
        ("Eq-max-c-neg", "(== (max ?x ?c) 0)", "(== ?x 0)"),
        ("Eq-min-c-pos", "(== (min ?x ?c) 0)", "0"),
        ("Eq-min-c-neg", "(== (min ?x ?c) 0)", "(== ?x 0)"),
        ("ineq-to-eq", "(!= ?x ?y)", "(! (== ?x ?y))"),
        ("gt-to-lt", "(> ?x ?z)", "(< ?z ?x)"),
        ("lt-swap", "(< ?x ?y)", "(< (* -1 ?y) (* -1 ?x))"),
        ("lt-to-zero", "(< ?a ?a)", "0"),
        ("lt-swap-in", "(< (+ ?x ?y) ?z)", "(< ?x (- ?z ?y))"),
        ("lt-swap-out", "(< ?z (+ ?x ?y))", "(< (- ?z ?y) ?x)"),
        ("lt-x-x-sub-a", "(< (- ?a ?y) ?a )", "1"),
        ("lt-const-pos", "(< 0 ?y )", "1"),
        ("lt-const-neg", "(< ?y 0 )", "1"),
        ("min-lt-cancel", "( < ( min ?x ?y ) ?x )", "( < ?y ?x )"),
        ("lt-min-mutual-term", "( < ( min ?z ?y ) ( min ?x ?y ) )", "( < ?z ( min ?x ?y ) )"),
        ("lt-max-mutual-term", "( < ( max ?z ?y ) ( max ?x ?y ) )", "( < ( max ?z ?y ) ?x )"),
        ("lt-min-term-term+pos", "( < ( min ?z ?y ) ( min ?x ( + ?y ?c0 ) ) )", "( < ( min ?z ?y ) ?x )"),
        ("lt-max-term-term+pos", "( < ( max ?z ( + ?y ?c0 ) ) ( max ?x ?y ) )", "( < ( max ?z ( + ?y ?c0 ) ) ?x )"),
        ("lt-min-term+neg-term", "( < ( min ?z ( + ?y ?c0 ) ) ( min ?x ?y ) )", "( < ( min ?z ( + ?y ?c0 ) ) ?x )"),
        ("lt-max-term+neg-term", "( < ( max ?z ?y ) ( max ?x ( + ?y ?c0 ) ) )", "( < ( max ?z ?y ) ?x )"),
        ("lt-min-term+cpos", "( < ( min ?x ?y ) (+ ?x ?c0) )", "1"),
        ("lt-min-max-cancel", "(< (max ?a ?c) (min ?a ?b))", "0"),
        ("lt-mul-pos-cancel", "(< (* ?x ?y) ?z)", "(< ?x ( / (- ( + ?z ?y ) 1 ) ?y ) )"),
        ("lt-mul-div-cancel", "(< ?y (/ ?x ?z))", "( < ( - ( * ( + ?y 1 ) ?z ) 1 ) ?x )"),
        ("lt-const-mod", "(< ?a (% ?x ?b))", "1"),
        ("lt-const-mod-false", "(< ?a (% ?x ?b))", "0"),
        ("max-to-min", "(max ?a ?b)", "(* -1 (min (* -1 ?a) (* -1 ?b)))"),
        ("min-comm", "(min ?a ?b)", "(min ?b ?a)"),
        ("min-ass", "(min (min ?x ?y) ?z)", "(min ?x (min ?y ?z))"),
        ("min-x-x", "(min ?x ?x)", "?x"),
        ("min-max", "(min (max ?x ?y) ?x)", "?x"),
        ("min-max-max-x", "(min (max ?x ?y) (max ?x ?z))", "(max (min ?y ?z) ?x)"),
        ("min-max-min-y", "(min (max (min ?x ?y) ?z) ?y)", "(min (max ?x ?z) ?y)"),
        ("min-sub-both", "(min (+ ?a ?b) ?c)", "(+ (min ?b (- ?c ?a)) ?a)"),
        ("min-add-both", "(+ (min ?x ?y) ?z)", "(min (+ ?x ?z) (+ ?y ?z))"),
        ("min-x-x-plus-a-pos", "(min ?x (+ ?x ?a))", "?x"),
        ("min-x-x-plus-a-neg", "(min ?x (+ ?x ?a))", "(+ ?x ?a)"),
        ("min-mul-in-pos", "(* (min ?x ?y) ?z)", "(min (* ?x ?z) (* ?y ?z))"),
        ("min-mul-out-pos", "(min (* ?x ?z) (* ?y ?z))", "(* (min ?x ?y) ?z)"),
        ("min-mul-in-neg", "(* (min ?x ?y) ?z)", "(max (* ?x ?z) (* ?y ?z))"),
        ("min-mul-out-neg", "(max (* ?x ?z) (* ?y ?z))", "(* (min ?x ?y) ?z)"),
        ("min-div-in-pos", "(/ (min ?x ?y) ?z)", "(min (/ ?x ?z) (/ ?y ?z))"),
        ("min-div-out-pos", "(min (/ ?x ?z) (/ ?y ?z))", "(/ (min ?x ?y) ?z)"),
        ("min-div-in-neg", "(/ (max ?x ?y) ?z)", "(min (/ ?x ?z) (/ ?y ?z))"),
        ("min-div-out-neg", "(min (/ ?x ?z) (/ ?y ?z))", "(/ (max ?x ?y) ?z)"),
        ("min-max-const", "( min ( max ?x ?c0 ) ?c1 )", "?c1"),
        ("min-div-mul", "( min ( * ( / ?x ?c0 ) ?c0 ) ?x )", "( * ( / ?x ?c0 ) ?c0 )"),
        ("min-mod-const-to-mod", "(min (% ?x ?c0) ?c1)", "(% ?x ?c0)"),
        ("min-mod-const-to-const", "(min (% ?x ?c0) ?c1)", "?c1"),
        ("min-max-switch", "( min ( max ?x ?c0 ) ?c1 )", "( max ( min ?x ?c1 ) ?c0 )"),
        ("max-min-switch", "( max ( min ?x ?c1 ) ?c0 )", "( min ( max ?x ?c0 ) ?c1 )"),
        ("min-consts-or", "( < ( min ?y ?c0 ) ?c1 )", "( || ( < ?y ?c1 ) ( < ?c0 ?c1 ) )"),
        ("max-consts-and", "( < ( max ?y ?c0 ) ?c1 )", "( && ( < ?y ?c1 ) ( < ?c0 ?c1 ) )"),
        ("max-consts-or", "( < ?c1 ( max ?y ?c0 ) )", "( || ( < ?c1 ?y ) ( < ?c1 ?c0 ) )"),
        ("min-consts-div-pos", "( min ( * ?x ?a ) ?b )", "( * ( min ?x ( / ?b ?a ) ) ?a )"),
        ("min-min-div-pos", "( min ( * ?x ?a ) ( * ?y ?b ) )", "( * ( min ?x ( * ?y ( / ?b ?a ) ) ) ?a )"),
        ("min-consts-div-neg", "( min ( * ?x ?a ) ?b )", "( * ( max ?x ( / ?b ?a ) ) ?a )"),
        ("min-min-div-neg", "( min ( * ?x ?a ) ( * ?y ?b ) )", "( * ( max ?x ( * ?y ( / ?b ?a ) ) ) ?a )"),
        ("mod-zero", "(% 0 ?x)", "0"),
        ("mod-x-x", "(% ?x ?x)", "0"),
        ("mod-one", "(% ?x 1)", "0"),
        ("mod-const-add", "(% ?x ?c1)", "(% (+ ?x ?c1) ?c1)"),
        ("mod-const-sub", "(% ?x ?c1)", "(% (- ?x ?c1) ?c1)"),
        ("mod-minus-out", "(% (* ?x -1) ?c)", "(* -1 (% ?x ?c))"),
        ("mod-minus-in", "(* -1 (% ?x ?c))", "(% (* ?x -1) ?c)"),
        ("mod-two", "(% (- ?x ?y) 2)", "(% (+ ?x ?y) 2)"),
        ("mod-consts", "( % ( + ( * ?x ?c0 ) ?y ) ?c1 )", "( % ?y ?c1 )"),
        ("mod-multiple", "(% (* ?c0 ?x) ?c1)", "0"),
        ("mul-comm", "(* ?a ?b)", "(* ?b ?a)"),
        ("mul-assoc", "(* ?a (* ?b ?c))", "(* (* ?a ?b) ?c)"),
        ("mul-zero", "(* ?a 0)", "0"),
        ("mul-one", "(* ?a 1)", "?a"),
        ("mul-cancel-div", "(* (/ ?a ?b) ?b)", "(- ?a (% ?a ?b))"),
        ("mul-max-min", "(* (max ?a ?b) (min ?a ?b))", "(* ?a ?b)"),
        ("div-cancel-mul", "(/ (* ?y ?x) ?x)", "?y"),
        ("eqlt-to-not-gt", "(<= ?x ?y)", "(! (< ?y ?x))"),
        ("not-gt-to-eqlt", "(! (< ?y ?x))", "(<= ?x ?y)"),
        ("eqgt-to-not-lt", "(>= ?x ?y)", "(! (< ?x ?y))"),
        ("not-eq-to-ineq", "(! (== ?x ?y))", "(!= ?x ?y)"),
        ("not-not", "(! (! ?x))", "?x"),
        ("or-to-and", "(|| ?x ?y)", "(! (&& (! ?x) (! ?y)))"),
        ("or-comm", "(|| ?y ?x)", "(|| ?x ?y)"),
        ("sub-to-add", "(- ?a ?b)", "(+ ?a (* -1 ?b))"),
    ]
}

/// Whether the texts read as the rules: each searcher and each applier is
/// the pattern of its text.
pub open spec fn rules_read(
    texts: Seq<(&'static str, &'static str, &'static str)>,
    rules: Seq<Rule<CaviarAnalysis>>,
) -> bool {
    &&& rules.len() == texts.len()
    &&& forall|i: int|
        0 <= i < texts.len() ==> (read_all(tokens(texts[i].1@)) matches Some(l) && denotes(
            (#[trigger] rules[i]).0,
            l,
        )) && (read_all(tokens(texts[i].2@)) matches Some(r) && denotes(rules[i].1, r))
}

/// Whether some text of a rule is no pattern.
pub open spec fn some_text_unreadable(texts: Seq<(&'static str, &'static str, &'static str)>) -> bool {
    exists|i: int|
        0 <= i < texts.len() && (read_all(tokens((#[trigger] texts[i]).1@)) is None || read_all(
            tokens(texts[i].2@),
        ) is None)
}

/// The rewrite rules of the arithmetic language, read from their texts;
/// `None` if a text is no pattern.
pub fn mk_rules() -> (res: Option<Vec<Rule<CaviarAnalysis>>>)
    ensures
        match res {
            Some(rules) => rules_read(rule_table(), rules@),
            None => some_text_unreadable(rule_table()),
        },
{
    let texts = rule_texts();
    let mut out: Vec<Rule<CaviarAnalysis>> = Vec::new();
    let mut i: usize = 0;
    while i < texts.len()
        invariant
            texts@ == rule_table(),
            i <= texts@.len(),
            rules_read(texts@.take(i as int), out@),
        decreases texts.len() - i,
    {
        let (_, l, r) = texts[i];
        let lp = parse(l);
        let rp = parse(r);
        match (lp, rp) {
            (Some(lp), Some(rp)) => {
                let ghost prev = out@;
                let ghost gl = lp;
                let ghost gr = rp;
                out.push((lp, rp));
                proof {
                    assert(texts@[i as int].1 == l);
                    assert(texts@[i as int].2 == r);
                    assert(read_all(tokens(l@)) matches Some(t) && denotes(gl, t));
                    assert(out@.len() == texts@.take(i + 1).len());
                    assert forall|j: int| 0 <= j < i + 1 implies (read_all(
                        tokens(texts@.take(i + 1)[j].1@),
                    ) matches Some(l) && denotes((#[trigger] out@[j]).0, l)) && (read_all(
                        tokens(texts@.take(i + 1)[j].2@),
                    ) matches Some(r) && denotes(out@[j].1, r)) by {
                        if j < i {
                            assert(texts@.take(i as int)[j] == texts@.take(i + 1)[j]);
                            assert(out@[j] == prev[j]);
                        } else {
                            assert(texts@.take(i + 1)[j] == texts@[j]);
                            assert(out@[j] == (gl, gr));
                        }
                    }
                }
            },
            _ => {
                proof {
                    assert(texts@[i as int].1 == l);
                }
                return None;
            },
        }
        i += 1;
    }
    proof {
        assert(texts@.take(i as int) == texts@);
    }
    Some(out)
}

} // verus!
