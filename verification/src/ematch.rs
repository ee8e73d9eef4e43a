use vstd::prelude::*;
use crate::api::{Analysis, Group, Id, Semilattice};
use crate::baseline_ematch::{lemma_all_no_shift, no_shift};
use crate::egraph::EGraph;
use crate::symbol::Symbol;

verus! {

/// A pattern over e-nodes: a pattern variable, an e-node whose children are
/// given by sub-patterns (the e-node's own children are ignored), or a
/// pattern shifted by a group element.
pub enum Pattern<N: Analysis> {
    PVar(Symbol),
    Node(N::L, Vec<Pattern<N>>),
    G(N::G, Box<Pattern<N>>),
}

/// A substitution: pattern variables with the e-classes they stand for.
pub type Subst<N> = Vec<(Symbol, (<N as Analysis>::G, Id))>;

/// Whether the pattern holds no pattern variable and no shift: a term.
pub open spec fn is_term_spec<N: Analysis>(p: Pattern<N>) -> bool
    decreases p,
{
    match p {
        Pattern::PVar(_) => false,
        Pattern::Node(_, args) => all_terms::<N>(args@),
        Pattern::G(..) => false,
    }
}

/// Whether every pattern of `s` is a term.
pub open spec fn all_terms<N: Analysis>(s: Seq<Pattern<N>>) -> bool
    decreases s,
{
    s.len() == 0 || (is_term_spec::<N>(s.last()) && all_terms::<N>(s.drop_last()))
}

/// Whether every e-node of the pattern has as many sub-patterns as children.
pub open spec fn well_shaped<N: Analysis>(p: Pattern<N>) -> bool
    decreases p,
{
    match p {
        Pattern::PVar(_) => true,
        Pattern::Node(n, args) => args@.len() == N::kids_of(n).len() && all_well_shaped::<N>(args@),
        Pattern::G(_, q) => well_shaped::<N>(*q),
    }
}

/// Whether every pattern of `s` is well shaped.
pub open spec fn all_well_shaped<N: Analysis>(s: Seq<Pattern<N>>) -> bool
    decreases s,
{
    s.len() == 0 || (well_shaped::<N>(s.last()) && all_well_shaped::<N>(s.drop_last()))
}

/// Whether `v` is bound in `subst`.
pub open spec fn bound_in<G>(v: Symbol, subst: Seq<(Symbol, (G, Id))>) -> bool {
    exists|k: int| 0 <= k < subst.len() && (#[trigger] subst[k]).0@ == v@
}

/// Whether every pattern variable of `p` is bound in `subst`.
pub open spec fn vars_bound<N: Analysis>(p: Pattern<N>, subst: Seq<(Symbol, (N::G, Id))>) -> bool
    decreases p,
{
    match p {
        Pattern::PVar(v) => bound_in(v, subst),
        Pattern::Node(_, args) => all_vars_bound::<N>(args@, subst),
        Pattern::G(_, q) => vars_bound::<N>(*q, subst),
    }
}

/// Whether every pattern variable of the patterns of `s` is bound in `subst`.
pub open spec fn all_vars_bound<N: Analysis>(s: Seq<Pattern<N>>, subst: Seq<(Symbol, (N::G, Id))>) -> bool
    decreases s,
{
    s.len() == 0 || (vars_bound::<N>(s.last(), subst) && all_vars_bound::<N>(s.drop_last(), subst))
}

pub proof fn lemma_all_terms<N: Analysis>(s: Seq<Pattern<N>>)
    ensures
        all_terms::<N>(s) <==> forall|i: int| 0 <= i < s.len() ==> #[trigger] is_term_spec::<N>(s[i]),
    decreases s.len(),
{
    if s.len() > 0 {
        let t = s.drop_last();
        lemma_all_terms::<N>(t);
        if forall|i: int| 0 <= i < s.len() ==> #[trigger] is_term_spec::<N>(s[i]) {
            assert forall|i: int| 0 <= i < t.len() implies #[trigger] is_term_spec::<N>(t[i]) by {
                assert(t[i] == s[i]);
            }
            assert(is_term_spec::<N>(s[s.len() - 1]));
        }
        if all_terms::<N>(s) {
            assert forall|i: int| 0 <= i < s.len() implies #[trigger] is_term_spec::<N>(s[i]) by {
                if i < s.len() - 1 {
                    assert(t[i] == s[i]);
                }
            }
        }
    }
}

pub proof fn lemma_all_well_shaped<N: Analysis>(s: Seq<Pattern<N>>)
    ensures
        all_well_shaped::<N>(s) <==> forall|i: int| 0 <= i < s.len() ==> #[trigger] well_shaped::<N>(s[i]),
    decreases s.len(),
{
    if s.len() > 0 {
        let t = s.drop_last();
        lemma_all_well_shaped::<N>(t);
        if forall|i: int| 0 <= i < s.len() ==> #[trigger] well_shaped::<N>(s[i]) {
            assert forall|i: int| 0 <= i < t.len() implies #[trigger] well_shaped::<N>(t[i]) by {
                assert(t[i] == s[i]);
            }
            assert(well_shaped::<N>(s[s.len() - 1]));
        }
        if all_well_shaped::<N>(s) {
            assert forall|i: int| 0 <= i < s.len() implies #[trigger] well_shaped::<N>(s[i]) by {
                if i < s.len() - 1 {
                    assert(t[i] == s[i]);
                }
            }
        }
    }
}

pub proof fn lemma_all_vars_bound<N: Analysis>(s: Seq<Pattern<N>>, subst: Seq<(Symbol, (N::G, Id))>)
    ensures
        all_vars_bound::<N>(s, subst) <==> forall|i: int|
            0 <= i < s.len() ==> #[trigger] vars_bound::<N>(s[i], subst),
    decreases s.len(),
{
    if s.len() > 0 {
        let t = s.drop_last();
        lemma_all_vars_bound::<N>(t, subst);
        if forall|i: int| 0 <= i < s.len() ==> #[trigger] vars_bound::<N>(s[i], subst) {
            assert forall|i: int| 0 <= i < t.len() implies #[trigger] vars_bound::<N>(t[i], subst) by {
                assert(t[i] == s[i]);
            }
            assert(vars_bound::<N>(s[s.len() - 1], subst));
        }
        if all_vars_bound::<N>(s, subst) {
            assert forall|i: int| 0 <= i < s.len() implies #[trigger] vars_bound::<N>(s[i], subst) by {
                if i < s.len() - 1 {
                    assert(t[i] == s[i]);
                }
            }
        }
    }
}

/// Whether the pattern is a term.
#[verifier::loop_isolation(false)]
pub fn is_term<N: Analysis>(pat: &Pattern<N>) -> (res: bool)
    ensures
        res == is_term_spec::<N>(*pat),
    decreases pat,
{
    match pat {
        Pattern::PVar(_) => false,
        Pattern::Node(_, args) => {
            proof {
                lemma_all_terms::<N>(args@);
            }
            let mut i: usize = 0;
            while i < args.len()
                invariant
                    i <= args@.len(),
                    forall|j: int| 0 <= j < i ==> #[trigger] is_term_spec::<N>(args@[j]),
                    forall|j: int| 0 <= j < args@.len() ==> decreases_to!(*pat => args@[j]),
                decreases args.len() - i,
            {
                if !is_term(&args[i]) {
                    return false;
                }
                i += 1;
            }
            true
        },
        Pattern::G(..) => false,
    }
}

/// A match of a pattern with its group elements left unresolved: the
/// e-class that a pattern variable met, or an e-node met as `g*n`, with,
/// for each child `(h, y)` of `n` that the pattern covers, `h`, the data of
/// `y` and the match below it.
pub enum Skel<N: Analysis> {
    PVar(Id),
    Node(N::G, N::L, Vec<(N::G, N::S, Skel<N>)>),
}

/// Pattern variables bound to e-classes.
pub type IdSubst = Vec<(Symbol, Id)>;

/// The e-class that the variable named `name` is bound to in `s`.
pub open spec fn id_of(s: Seq<(Symbol, Id)>, name: Seq<char>) -> Option<Id> {
    if exists|i: int| 0 <= i < s.len() && (#[trigger] s[i]).0@ == name {
        Some(s[choose|i: int| 0 <= i < s.len() && (#[trigger] s[i]).0@ == name].1)
    } else {
        None
    }
}

/// No name is bound twice.
pub open spec fn unique_names(s: Seq<(Symbol, Id)>) -> bool {
    forall|i: int, j: int| 0 <= i < j < s.len() ==> (#[trigger] s[i]).0@ != (#[trigger] s[j]).0@
}

/// Every e-class bound in `s` is below `len`.
pub open spec fn ids_below(s: Seq<(Symbol, Id)>, len: nat) -> bool {
    forall|k: int| 0 <= k < s.len() ==> (#[trigger] s[k]).1.0 < len
}

/// `b` binds every variable of `a` to the same e-class.
pub open spec fn keeps(b: Seq<(Symbol, Id)>, a: Seq<(Symbol, Id)>) -> bool {
    forall|name: Seq<char>| (#[trigger] id_of(a, name)) is Some ==> id_of(b, name) == id_of(a, name)
}

/// The lesser of two lengths.
pub open spec fn min_len(a: nat, b: nat) -> nat {
    if a < b {
        a
    } else {
        b
    }
}

/// `sk` is a match of `p` under the bindings `s`: a pattern variable met the
/// e-class that `s` binds it to, and an e-node of the pattern's shape has a
/// match for each child that both it and the pattern have.
pub open spec fn skel_matches<N: Analysis>(sk: Skel<N>, p: Pattern<N>, s: Seq<(Symbol, Id)>) -> bool
    decreases sk,
{
    match sk {
        Skel::PVar(x) => match p {
            Pattern::PVar(v) => id_of(s, v@) == Some(x),
            _ => false,
        },
        Skel::Node(_, n, ch) => match p {
            Pattern::Node(pn, args) => N::same_shape(n, pn) && ch@.len() == min_len(
                N::kids_of(n).len(),
                args@.len(),
            ) && all_match::<N>(ch@, args@, s),
            _ => false,
        },
    }
}

/// The `i`-th child match of `cs` is a match of the `i`-th pattern of `args`.
pub open spec fn all_match<N: Analysis>(
    cs: Seq<(N::G, N::S, Skel<N>)>,
    args: Seq<Pattern<N>>,
    s: Seq<(Symbol, Id)>,
) -> bool
    decreases cs,
{
    cs.len() == 0 || (cs.len() <= args.len() && skel_matches::<N>(cs.last().2, args[cs.len() - 1], s)
        && all_match::<N>(cs.drop_last(), args, s))
}

/// `sk` is read off the e-graph `eg` at the e-class `x`: a pattern
/// variable met `x` itself; an e-node `g*n` is one that the hashcons stores
/// under `x` (see `EGraph::bare_nodes`), and each child match is read off at
/// the class of that child of `n`, with the child's element and the data of
/// that class.
pub open spec fn skel_in<N: Analysis>(eg: EGraph<N>, sk: Skel<N>, x: Id) -> bool
    decreases sk,
{
    match sk {
        Skel::PVar(y) => y == x,
        Skel::Node(g, n, ch) => {
            &&& exists|k: int|
                0 <= k < EGraph::<N>::bare_nodes(eg.entries(), x).len() && #[trigger] EGraph::<N>::bare_nodes(
                    eg.entries(),
                    x,
                )[k] == (g@, n)
            &&& all_in::<N>(eg, ch@, N::kids_of(n))
        },
    }
}

/// `sk` is the e-node `g*n`, read off as `skel_in` says, with its child
/// matches.
pub open spec fn node_read<N: Analysis>(eg: EGraph<N>, sk: Skel<N>, g: <N::G as View>::V, n: N::L) -> bool {
    match sk {
        Skel::Node(g2, m, ch) => g2@ == g && m == n && all_in::<N>(eg, ch@, N::kids_of(n)),
        Skel::PVar(_) => false,
    }
}

/// The `i`-th child match of `cs` is read off at the `i`-th child of `kids`.
pub open spec fn all_in<N: Analysis>(eg: EGraph<N>, cs: Seq<(N::G, N::S, Skel<N>)>, kids: Seq<(N::G, Id)>) -> bool
    decreases cs,
{
    cs.len() == 0 || ({
        let c = cs.last();
        let kid = kids[cs.len() - 1];
        &&& cs.len() <= kids.len()
        &&& c.0@ == kid.0@
        &&& c.1 == N::S::acted(
            eg.unionfind().find_from(N::G::unit(), kid.1.0 as nat).0,
            eg.unionfind().data(eg.unionfind().root(kid.1.0 as nat)),
        )
        &&& skel_in::<N>(eg, c.2, kid.1)
        &&& all_in::<N>(eg, cs.drop_last(), kids)
    })
}

/// Alike matches are read off alike.
pub proof fn lemma_same_in<N: Analysis>(eg: EGraph<N>, a: Skel<N>, b: Skel<N>, x: Id)
    requires
        same_skel::<N>(a, b),
        skel_in::<N>(eg, a, x),
    ensures
        skel_in::<N>(eg, b, x),
    decreases a,
{
    match a {
        Skel::PVar(_) => {},
        Skel::Node(g, n, ch) => {
            match b {
                Skel::Node(g2, n2, ch2) => {
                    let k = choose|k: int|
                        0 <= k < EGraph::<N>::bare_nodes(eg.entries(), x).len() && #[trigger] EGraph::<N>::bare_nodes(
                            eg.entries(),
                            x,
                        )[k] == (g@, n);
                    assert(EGraph::<N>::bare_nodes(eg.entries(), x)[k] == (g2@, n2));
                    lemma_all_same_in::<N>(eg, ch@, ch2@, N::kids_of(n));
                },
                _ => {},
            }
        },
    }
}

pub proof fn lemma_all_same_in<N: Analysis>(
    eg: EGraph<N>,
    c1: Seq<(N::G, N::S, Skel<N>)>,
    c2: Seq<(N::G, N::S, Skel<N>)>,
    kids: Seq<(N::G, Id)>,
)
    requires
        all_same::<N>(c1, c2),
        all_in::<N>(eg, c1, kids),
    ensures
        all_in::<N>(eg, c2, kids),
    decreases c1,
{
    if c1.len() > 0 {
        lemma_same_in::<N>(eg, c1.last().2, c2.last().2, kids[c1.len() - 1].1);
        lemma_all_same_in::<N>(eg, c1.drop_last(), c2.drop_last(), kids);
    }
}

/// Two matches alike but for the group elements, which have equal views.
pub open spec fn same_skel<N: Analysis>(a: Skel<N>, b: Skel<N>) -> bool
    decreases a,
{
    match a {
        Skel::PVar(x) => match b {
            Skel::PVar(y) => x == y,
            _ => false,
        },
        Skel::Node(g, n, ch) => match b {
            Skel::Node(g2, n2, ch2) => g2@ == g@ && n2 == n && all_same::<N>(ch@, ch2@),
            _ => false,
        },
    }
}

/// The child matches of `c1` and `c2` are alike, one by one.
pub open spec fn all_same<N: Analysis>(c1: Seq<(N::G, N::S, Skel<N>)>, c2: Seq<(N::G, N::S, Skel<N>)>) -> bool
    decreases c1,
{
    c1.len() == c2.len() && (c1.len() == 0 || (c1.last().0@ == c2.last().0@ && c1.last().1 == c2.last().1
        && same_skel::<N>(c1.last().2, c2.last().2) && all_same::<N>(c1.drop_last(), c2.drop_last())))
}

/// Likeness of matches is transitive.
pub proof fn lemma_same_trans<N: Analysis>(a: Skel<N>, b: Skel<N>, c: Skel<N>)
    requires
        same_skel::<N>(a, b),
        same_skel::<N>(b, c),
    ensures
        same_skel::<N>(a, c),
    decreases a,
{
    match a {
        Skel::PVar(_) => {},
        Skel::Node(_, _, ch) => match b {
            Skel::Node(_, _, ch2) => match c {
                Skel::Node(_, _, ch3) => {
                    lemma_all_same_trans::<N>(ch@, ch2@, ch3@);
                },
                _ => {},
            },
            _ => {},
        },
    }
}

pub proof fn lemma_all_same_trans<N: Analysis>(
    c1: Seq<(N::G, N::S, Skel<N>)>,
    c2: Seq<(N::G, N::S, Skel<N>)>,
    c3: Seq<(N::G, N::S, Skel<N>)>,
)
    requires
        all_same::<N>(c1, c2),
        all_same::<N>(c2, c3),
    ensures
        all_same::<N>(c1, c3),
    decreases c1,
{
    if c1.len() > 0 {
        lemma_same_trans::<N>(c1.last().2, c2.last().2, c3.last().2);
        lemma_all_same_trans::<N>(c1.drop_last(), c2.drop_last(), c3.drop_last());
    }
}

/// The `i`-th child match of `cs` is read off at the `i`-th child of `kids`.
pub proof fn lemma_all_in_at<N: Analysis>(
    eg: EGraph<N>,
    cs: Seq<(N::G, N::S, Skel<N>)>,
    kids: Seq<(N::G, Id)>,
    i: int,
)
    requires
        all_in::<N>(eg, cs, kids),
        0 <= i < cs.len(),
    ensures
        i < kids.len(),
        cs[i].0@ == kids[i].0@,
        cs[i].1 == N::S::acted(
            eg.unionfind().find_from(N::G::unit(), kids[i].1.0 as nat).0,
            eg.unionfind().data(eg.unionfind().root(kids[i].1.0 as nat)),
        ),
        skel_in::<N>(eg, cs[i].2, kids[i].1),
    decreases cs.len(),
{
    if i < cs.len() - 1 {
        lemma_all_in_at::<N>(eg, cs.drop_last(), kids, i);
        assert(cs.drop_last()[i] == cs[i]);
    }
}

/// The child matches of a match of an e-node; none for a variable.
pub open spec fn skel_kids<N: Analysis>(sk: Skel<N>) -> Seq<(N::G, N::S, Skel<N>)> {
    match sk {
        Skel::Node(_, _, ch) => ch@,
        Skel::PVar(_) => Seq::empty(),
    }
}

/// `sk` is a match of `pat` under `t`, read off at the e-node `g*n`, and
/// `t` keeps the bindings of `subst`.
pub open spec fn node_want<N: Analysis>(
    eg: EGraph<N>,
    sk: Skel<N>,
    g: <N::G as View>::V,
    n: N::L,
    pat: Pattern<N>,
    subst: Seq<(Symbol, Id)>,
    t: Seq<(Symbol, Id)>,
) -> bool {
    node_read::<N>(eg, sk, g, n) && skel_matches::<N>(sk, pat, t) && keeps(t, subst)
}

/// The partial match `(o_subst, o_ch)` is alike the first `i` child matches
/// of `sk`, and `t` keeps its bindings.
pub open spec fn prefix_at<N: Analysis>(
    o_subst: Seq<(Symbol, Id)>,
    o_ch: Seq<(N::G, N::S, Skel<N>)>,
    sk: Skel<N>,
    t: Seq<(Symbol, Id)>,
    i: int,
) -> bool {
    all_same::<N>(skel_kids::<N>(sk).take(i), o_ch) && keeps(t, o_subst)
}

/// The match `(o_subst, o_skel)` of a child is alike the `i`-th child match
/// of `sk`, and `t` keeps its bindings.
pub open spec fn child_hit<N: Analysis>(
    o_subst: Seq<(Symbol, Id)>,
    o_skel: Skel<N>,
    sk: Skel<N>,
    t: Seq<(Symbol, Id)>,
    i: int,
) -> bool {
    same_skel::<N>(skel_kids::<N>(sk)[i].2, o_skel) && keeps(t, o_subst)
}

pub proof fn lemma_id_of(s: Seq<(Symbol, Id)>, i: int)
    requires
        unique_names(s),
        0 <= i < s.len(),
    ensures
        id_of(s, s[i].0@) == Some(s[i].1),
{
    let j = choose|j: int| 0 <= j < s.len() && (#[trigger] s[j]).0@ == s[i].0@;
    if j < i {
        assert(s[j].0@ != s[i].0@);
    } else if i < j {
        assert(s[i].0@ != s[j].0@);
    }
}

/// Each child match of `cs` matches the sub-pattern in its place.
pub proof fn lemma_all_match<N: Analysis>(
    cs: Seq<(N::G, N::S, Skel<N>)>,
    args: Seq<Pattern<N>>,
    s: Seq<(Symbol, Id)>,
    i: int,
)
    requires
        all_match::<N>(cs, args, s),
        0 <= i < cs.len(),
    ensures
        i < args.len(),
        skel_matches::<N>(cs[i].2, args[i], s),
    decreases cs.len(),
{
    if i < cs.len() - 1 {
        lemma_all_match::<N>(cs.drop_last(), args, s, i);
        assert(cs.drop_last()[i] == cs[i]);
    }
}

/// Matches stay matches under bindings that keep theirs.
pub proof fn lemma_matches_keeps<N: Analysis>(
    sk: Skel<N>,
    p: Pattern<N>,
    a: Seq<(Symbol, Id)>,
    b: Seq<(Symbol, Id)>,
)
    requires
        skel_matches::<N>(sk, p, a),
        keeps(b, a),
    ensures
        skel_matches::<N>(sk, p, b),
    decreases sk,
{
    match sk {
        Skel::PVar(x) => {
            match p {
                Pattern::PVar(v) => {
                    assert(id_of(a, v@) is Some);
                },
                _ => {},
            }
        },
        Skel::Node(_, n, ch) => {
            match p {
                Pattern::Node(pn, args) => {
                    lemma_all_match_keeps::<N>(ch@, args@, a, b);
                },
                _ => {},
            }
        },
    }
}

pub proof fn lemma_all_match_keeps<N: Analysis>(
    cs: Seq<(N::G, N::S, Skel<N>)>,
    args: Seq<Pattern<N>>,
    a: Seq<(Symbol, Id)>,
    b: Seq<(Symbol, Id)>,
)
    requires
        all_match::<N>(cs, args, a),
        keeps(b, a),
    ensures
        all_match::<N>(cs, args, b),
    decreases cs,
{
    if cs.len() > 0 {
        lemma_matches_keeps::<N>(cs.last().2, args[cs.len() - 1], a, b);
        lemma_all_match_keeps::<N>(cs.drop_last(), args, a, b);
    }
}

/// Alike matches match alike.
pub proof fn lemma_same_matches<N: Analysis>(a: Skel<N>, b: Skel<N>, p: Pattern<N>, s: Seq<(Symbol, Id)>)
    requires
        same_skel::<N>(a, b),
        skel_matches::<N>(a, p, s),
    ensures
        skel_matches::<N>(b, p, s),
    decreases a,
{
    match a {
        Skel::PVar(x) => {},
        Skel::Node(g, n, ch) => {
            match b {
                Skel::Node(g2, n2, ch2) => {
                    match p {
                        Pattern::Node(pn, args) => {
                            lemma_all_same_match::<N>(ch@, ch2@, args@, s);
                        },
                        _ => {},
                    }
                },
                _ => {},
            }
        },
    }
}

pub proof fn lemma_all_same_match<N: Analysis>(
    c1: Seq<(N::G, N::S, Skel<N>)>,
    c2: Seq<(N::G, N::S, Skel<N>)>,
    args: Seq<Pattern<N>>,
    s: Seq<(Symbol, Id)>,
)
    requires
        all_same::<N>(c1, c2),
        all_match::<N>(c1, args, s),
    ensures
        all_match::<N>(c2, args, s),
    decreases c1,
{
    if c1.len() > 0 {
        lemma_same_matches::<N>(c1.last().2, c2.last().2, args[c1.len() - 1], s);
        lemma_all_same_match::<N>(c1.drop_last(), c2.drop_last(), args, s);
    }
}

/// A copy of a match, alike but for the group elements' identity.
fn dup_skel<N: Analysis>(sk: &Skel<N>) -> (res: Skel<N>)
    ensures
        same_skel::<N>(*sk, res),
    decreases sk,
{
    match sk {
        Skel::PVar(x) => Skel::PVar(*x),
        Skel::Node(g, n, ch) => {
            let chs = dup_children(ch);
            Skel::Node(g.duplicate(), N::dup_node(n), chs)
        },
    }
}

/// A copy of child matches.
fn dup_children<N: Analysis>(ch: &Vec<(N::G, N::S, Skel<N>)>) -> (res: Vec<(N::G, N::S, Skel<N>)>)
    ensures
        all_same::<N>(ch@, res@),
    decreases ch,
{
    let mut out: Vec<(N::G, N::S, Skel<N>)> = Vec::new();
    let mut i: usize = 0;
    proof {
        assert(ch@.take(0) =~= Seq::<(N::G, N::S, Skel<N>)>::empty());
    }
    while i < ch.len()
        invariant
            i <= ch@.len(),
            out@.len() == i,
            all_same::<N>(ch@.take(i as int), out@),
            forall|j: int| 0 <= j < ch@.len() ==> decreases_to!(*ch => ch@[j].2),
        decreases ch.len() - i,
    {
        let (g, d, c) = &ch[i];
        let e = (g.duplicate(), d.duplicate(), dup_skel(c));
        let ghost before = out@;
        out.push(e);
        proof {
            assert(ch@.take(i + 1).drop_last() =~= ch@.take(i as int));
            assert(out@.drop_last() =~= before);
            assert(ch@.take(i + 1).last() == ch@[i as int]);
        }
        i += 1;
    }
    proof {
        assert(ch@.take(ch@.len() as int) =~= ch@);
    }
    out
}

/// An exact copy of the bindings.
fn dup_ids(s: &IdSubst) -> (res: IdSubst)
    ensures
        res@ == s@,
{
    let mut out: IdSubst = Vec::new();
    let mut i: usize = 0;
    while i < s.len()
        invariant
            i <= s@.len(),
            out@ == s@.take(i as int),
        decreases s.len() - i,
    {
        out.push((s[i].0.dup(), s[i].1));
        proof {
            assert(out@ =~= s@.take(i + 1));
        }
        i += 1;
    }
    proof {
        assert(s@.take(s@.len() as int) =~= s@);
    }
    out
}

/// Binds `v` to `x`: replaces its binding, or adds one. Returns the e-class
/// it was bound to.
fn bind_id(s: &mut IdSubst, v: &Symbol, x: Id) -> (res: Option<Id>)
    requires
        unique_names(old(s)@),
    ensures
        unique_names(final(s)@),
        res == id_of(old(s)@, v@),
        id_of(final(s)@, v@) == Some(x),
        forall|name: Seq<char>| name != v@ ==> #[trigger] id_of(final(s)@, name) == id_of(old(s)@, name),
        forall|len: nat| ids_below(old(s)@, len) && x.0 < len ==> #[trigger] ids_below(final(s)@, len),
{
    let mut k: usize = 0;
    while k < s.len()
        invariant
            k <= s@.len(),
            s@ == old(s)@,
            unique_names(s@),
            forall|j: int| 0 <= j < k ==> (#[trigger] s@[j]).0@ != v@,
        decreases s.len() - k,
    {
        if s[k].0.same(v) {
            let old_x = s[k].1;
            let name = s[k].0.dup();
            let ghost before = s@;
            s.set(k, (name, x));
            proof {
                assert forall|i: int| 0 <= i < s@.len() implies (#[trigger] s@[i]).0 == before[i].0 by {}
                lemma_id_of(before, k as int);
                lemma_id_of(s@, k as int);
                assert forall|n: Seq<char>| n != v@ implies #[trigger] id_of(s@, n) == id_of(before, n) by {
                    if exists|i: int| 0 <= i < before.len() && (#[trigger] before[i]).0@ == n {
                        let i = choose|i: int| 0 <= i < before.len() && (#[trigger] before[i]).0@ == n;
                        lemma_id_of(before, i);
                        lemma_id_of(s@, i);
                    } else {
                        assert forall|i: int| 0 <= i < s@.len() implies (#[trigger] s@[i]).0@ != n by {
                            assert(s@[i].0 == before[i].0);
                        }
                    }
                }
                assert forall|len: nat| ids_below(before, len) && x.0 < len implies #[trigger] ids_below(
                    s@,
                    len,
                ) by {
                    assert forall|i: int| 0 <= i < s@.len() implies (#[trigger] s@[i]).1.0 < len by {
                        if i != k {
                            assert(s@[i] == before[i]);
                        }
                    }
                }
            }
            return Some(old_x);
        }
        k += 1;
    }
    let ghost before = s@;
    s.push((v.dup(), x));
    proof {
        assert(!(exists|i: int| 0 <= i < before.len() && (#[trigger] before[i]).0@ == v@));
        lemma_id_of(s@, before.len() as int);
        assert forall|n: Seq<char>| n != v@ implies #[trigger] id_of(s@, n) == id_of(before, n) by {
            if exists|i: int| 0 <= i < before.len() && (#[trigger] before[i]).0@ == n {
                let i = choose|i: int| 0 <= i < before.len() && (#[trigger] before[i]).0@ == n;
                lemma_id_of(before, i);
                assert(s@[i] == before[i]);
                lemma_id_of(s@, i);
            } else {
                assert forall|i: int| 0 <= i < s@.len() implies (#[trigger] s@[i]).0@ != n by {
                    if i < before.len() {
                        assert(s@[i] == before[i]);
                    }
                }
            }
        }
        assert forall|len: nat| ids_below(before, len) && x.0 < len implies #[trigger] ids_below(s@, len) by {
            assert forall|i: int| 0 <= i < s@.len() implies (#[trigger] s@[i]).1.0 < len by {
                if i < before.len() {
                    assert(s@[i] == before[i]);
                }
            }
        }
    }
    None
}

/// Matches `pat` at the e-class `x`, disregarding the group elements: a
/// pattern variable seen again must meet the same e-class. Returns the
/// bindings that extend `subst`, each with its match.
#[verifier::loop_isolation(false)]
fn ematch_impl<N: Analysis>(x: Id, pat: &Pattern<N>, eg: &EGraph<N>, subst: IdSubst) -> (res: Vec<
    (IdSubst, Skel<N>),
>)
    requires
        eg.wf(),
        eg.canonical(),
        x.0 < eg.unionfind().len(),
        eg.unionfind().is_root(x.0 as nat),
        no_shift::<N>(*pat),
        unique_names(subst@),
        ids_below(subst@, eg.unionfind().len()),
    ensures
        forall|k: int|
            0 <= k < res@.len() ==> unique_names((#[trigger] res@[k]).0@) && ids_below(
                res@[k].0@,
                eg.unionfind().len(),
            ) && keeps(res@[k].0@, subst@) && skel_matches::<N>(res@[k].1, *pat, res@[k].0@)
                && skel_in::<N>(*eg, res@[k].1, x),
        forall|sk: Skel<N>, t: Seq<(Symbol, Id)>|
            #[trigger] skel_matches::<N>(sk, *pat, t) && skel_in::<N>(*eg, sk, x) && keeps(t, subst@) ==> exists|k: int|
                0 <= k < res@.len() && same_skel::<N>(sk, res@[k].1) && keeps(t, res@[k].0@),
    decreases pat,
{
    let ghost subst0 = subst@;
    match pat {
        Pattern::PVar(v) => {
            let mut s = subst;
            let prev = bind_id(&mut s, v, x);
            match prev {
                Some(o) => {
                    if o.0 != x.0 {
                        proof {
                            assert forall|sk: Skel<N>, t: Seq<(Symbol, Id)>|
                                #[trigger] skel_matches::<N>(sk, *pat, t) && skel_in::<N>(*eg, sk, x) && keeps(t, subst0)
                                implies false by {
                                assert(id_of(subst0, v@) is Some);
                            }
                        }
                        return Vec::new();
                    }
                },
                None => {},
            }
            proof {
                assert forall|n: Seq<char>| (#[trigger] id_of(subst@, n)) is Some implies id_of(s@, n)
                    == id_of(subst@, n) by {
                    if n == v@ {
                        assert(prev == id_of(subst@, v@));
                        assert(id_of(s@, v@) == Some(x));
                    } else {
                        assert(id_of(s@, n) == id_of(subst@, n));
                    }
                }
            }
            let mut out: Vec<(IdSubst, Skel<N>)> = Vec::new();
            let ghost sv = s@;
            out.push((s, Skel::PVar(x)));
            proof {
                assert forall|sk: Skel<N>, t: Seq<(Symbol, Id)>|
                    #[trigger] skel_matches::<N>(sk, *pat, t) && skel_in::<N>(*eg, sk, x) && keeps(t, subst0) implies exists|k: int|
                        0 <= k < out@.len() && same_skel::<N>(sk, out@[k].1) && keeps(t, out@[k].0@) by {
                    assert forall|nm: Seq<char>| (#[trigger] id_of(sv, nm)) is Some implies id_of(t, nm) == id_of(sv, nm) by {
                        if nm != v@ {
                            assert(id_of(sv, nm) == id_of(subst0, nm));
                        }
                    }
                    assert(same_skel::<N>(sk, out@[0].1));
                }
            }
            out
        },
        Pattern::Node(pn, pargs) => {
            let nodes = eg.nodes_of_bare(x);
            let mut out: Vec<(IdSubst, Skel<N>)> = Vec::new();
            let mut k: usize = 0;
            while k < nodes.len()
                invariant
                    k <= nodes@.len(),
                    forall|j: int|
                        0 <= j < out@.len() ==> unique_names((#[trigger] out@[j]).0@) && ids_below(
                            out@[j].0@,
                            eg.unionfind().len(),
                        ) && keeps(out@[j].0@, subst@) && skel_matches::<N>(out@[j].1, *pat, out@[j].0@)
                            && skel_in::<N>(*eg, out@[j].1, x),
                    nodes@.len() == EGraph::<N>::bare_nodes(eg.entries(), x).len(),
                    forall|q: int|
                        0 <= q < nodes@.len() ==> (#[trigger] nodes@[q]).0@ == EGraph::<N>::bare_nodes(
                            eg.entries(),
                            x,
                        )[q].0 && nodes@[q].1 == EGraph::<N>::bare_nodes(eg.entries(), x)[q].1,
                    forall|sk: Skel<N>, t: Seq<(Symbol, Id)>, k0: int|
                        0 <= k0 < k && #[trigger] node_want::<N>(*eg, sk, nodes@[k0].0@, nodes@[k0].1, *pat, subst0, t)
                            ==> exists|j: int| 0 <= j < out@.len() && same_skel::<N>(sk, out@[j].1) && keeps(t, out@[j].0@),
                decreases nodes.len() - k,
            {
                let (g, n) = &nodes[k];
                proof {
                    EGraph::<N>::lemma_bare_nodes(eg.entries(), x, k as int);
                    let i = choose|i: int|
                        0 <= i < eg.entries().len() && (#[trigger] eg.entries()[i]).0
                            == EGraph::<N>::bare_nodes(eg.entries(), x)[k as int].1
                            && eg.entries()[i].1.1 == x;
                    N::lemma_children_below(eg.entries()[i].0, eg.unionfind().len());
                    assert forall|c: int| 0 <= c < N::kids_of(*n).len() implies eg.unionfind().is_root(
                        (#[trigger] N::kids_of(*n)[c]).1.0 as nat,
                    ) by {
                        assert(N::kids_of(eg.entries()[i].0)[c] == N::kids_of(*n)[c]);
                    }
                    lemma_all_no_shift::<N>(pargs@);
                }
                let s = dup_ids(&subst);
                let mut r = ematch_node(g, n, pn, pargs, eg, s);
                let ghost before = out@;
                let ghost rr = r@;
                out.append(&mut r);
                proof {
                    assert forall|j: int| 0 <= j < out@.len() implies #[trigger] skel_in::<N>(*eg, out@[j].1, x) by {
                        if j >= before.len() {
                            assert(out@[j] == rr[j - before.len()]);
                            assert(node_read::<N>(*eg, out@[j].1, g@, *n));
                            assert(EGraph::<N>::bare_nodes(eg.entries(), x)[k as int] == (g@, *n));
                        } else {
                            assert(out@[j] == before[j]);
                        }
                    }
                    assert forall|sk: Skel<N>, t: Seq<(Symbol, Id)>, k0: int|
                        0 <= k0 < k + 1 && #[trigger] node_want::<N>(*eg, sk, nodes@[k0].0@, nodes@[k0].1, *pat, subst0, t)
                        implies exists|j: int| 0 <= j < out@.len() && same_skel::<N>(sk, out@[j].1) && keeps(t, out@[j].0@) by {
                        if k0 < k {
                            let j = choose|j: int| 0 <= j < before.len() && same_skel::<N>(sk, before[j].1) && keeps(t, before[j].0@);
                            assert(out@[j] == before[j]);
                        } else {
                            assert(node_want::<N>(*eg, sk, g@, *n, Pattern::Node(*pn, *pargs), s@, t));
                            let kk = choose|kk: int| 0 <= kk < rr.len() && same_skel::<N>(sk, rr[kk].1) && keeps(t, rr[kk].0@);
                            assert(out@[before.len() + kk] == rr[kk]);
                        }
                    }
                }
                k += 1;
            }
            proof {
                assert forall|sk: Skel<N>, t: Seq<(Symbol, Id)>|
                    #[trigger] skel_matches::<N>(sk, *pat, t) && skel_in::<N>(*eg, sk, x) && keeps(t, subst0) implies exists|j: int|
                        0 <= j < out@.len() && same_skel::<N>(sk, out@[j].1) && keeps(t, out@[j].0@) by {
                    match sk {
                        Skel::Node(g0, n0, ch0) => {
                            let k0 = choose|k0: int|
                                0 <= k0 < EGraph::<N>::bare_nodes(eg.entries(), x).len() && #[trigger] EGraph::<N>::bare_nodes(
                                    eg.entries(),
                                    x,
                                )[k0] == (g0@, n0);
                            assert(node_want::<N>(*eg, sk, nodes@[k0].0@, nodes@[k0].1, *pat, subst0, t));
                        },
                        Skel::PVar(_) => {},
                    }
                }
            }
            out
        },
        Pattern::G(..) => {
            proof {
                assert(false);
            }
            Vec::new()
        },
    }
}

/// Matches the e-node `g_base*n` against the pattern e-node `pn` with the
/// sub-patterns `pargs`, child by child.
#[verifier::loop_isolation(false)]
#[verifier::rlimit(60)]
fn ematch_node<N: Analysis>(
    g_base: &N::G,
    n: &N::L,
    pn: &N::L,
    pargs: &Vec<Pattern<N>>,
    eg: &EGraph<N>,
    subst: IdSubst,
) -> (res: Vec<(IdSubst, Skel<N>)>)
    requires
        eg.wf(),
        eg.canonical(),
        N::children_below(*n, eg.unionfind().len()),
        forall|c: int|
            0 <= c < N::kids_of(*n).len() ==> eg.unionfind().is_root(
                (#[trigger] N::kids_of(*n)[c]).1.0 as nat,
            ),
        forall|i: int| 0 <= i < pargs@.len() ==> #[trigger] no_shift::<N>(pargs@[i]),
        unique_names(subst@),
        ids_below(subst@, eg.unionfind().len()),
    ensures
        forall|k: int|
            0 <= k < res@.len() ==> unique_names((#[trigger] res@[k]).0@) && ids_below(
                res@[k].0@,
                eg.unionfind().len(),
            ) && keeps(res@[k].0@, subst@) && skel_matches::<N>(
                res@[k].1,
                Pattern::Node(*pn, *pargs),
                res@[k].0@,
            ) && node_read::<N>(*eg, res@[k].1, g_base@, *n),
        forall|sk: Skel<N>, t: Seq<(Symbol, Id)>|
            #[trigger] node_want::<N>(*eg, sk, g_base@, *n, Pattern::Node(*pn, *pargs), subst@, t) ==> exists|k: int|
                0 <= k < res@.len() && same_skel::<N>(sk, res@[k].1) && keeps(t, res@[k].0@),
    decreases pargs,
{
    if !N::nodes_match(n, pn) {
        return Vec::new();
    }
    let kids = N::children(n);
    let len: usize = if kids.len() < pargs.len() {
        kids.len()
    } else {
        pargs.len()
    };
    proof {
        N::lemma_children_below(*n, eg.unionfind().len());
    }
    let ghost subst0 = subst@;
    let mut out: Vec<(IdSubst, Vec<(N::G, N::S, Skel<N>)>)> = Vec::new();
    out.push((subst, Vec::new()));
    let mut i: usize = 0;
    proof {
        assert forall|sk: Skel<N>, t: Seq<(Symbol, Id)>| #[trigger] node_want::<N>(
            *eg,
            sk,
            g_base@,
            *n,
            Pattern::Node(*pn, *pargs),
            subst0,
            t,
        ) implies exists|j: int| 0 <= j < out@.len() && prefix_at::<N>(out@[j].0@, out@[j].1@, sk, t, 0) by {
            assert(skel_kids::<N>(sk).take(0) =~= Seq::<(N::G, N::S, Skel<N>)>::empty());
            assert(prefix_at::<N>(out@[0].0@, out@[0].1@, sk, t, 0));
        }
    }
    while i < len
        invariant
            i <= len,
            len == min_len(kids@.len(), pargs@.len()),
            kids@ == N::kids_of(*n),
            forall|j: int|
                0 <= j < out@.len() ==> unique_names((#[trigger] out@[j]).0@) && ids_below(
                    out@[j].0@,
                    eg.unionfind().len(),
                ) && keeps(out@[j].0@, subst@) && out@[j].1@.len() == i && all_match::<N>(
                    out@[j].1@,
                    pargs@,
                    out@[j].0@,
                ) && all_in::<N>(*eg, out@[j].1@, N::kids_of(*n)),
            forall|j: int| 0 <= j < pargs@.len() ==> decreases_to!(*pargs => pargs@[j]),
            forall|sk: Skel<N>, t: Seq<(Symbol, Id)>| #[trigger] node_want::<N>(
                *eg,
                sk,
                g_base@,
                *n,
                Pattern::Node(*pn, *pargs),
                subst0,
                t,
            ) ==> exists|j: int| 0 <= j < out@.len() && prefix_at::<N>(out@[j].0@, out@[j].1@, sk, t, i as int),
        decreases len - i,
    {
        let mut next: Vec<(IdSubst, Vec<(N::G, N::S, Skel<N>)>)> = Vec::new();
        let mut j: usize = 0;
        while j < out.len()
            invariant
                j <= out@.len(),
                forall|q: int|
                    0 <= q < next@.len() ==> unique_names((#[trigger] next@[q]).0@) && ids_below(
                        next@[q].0@,
                        eg.unionfind().len(),
                    ) && keeps(next@[q].0@, subst@) && next@[q].1@.len() == i + 1 && all_match::<N>(
                        next@[q].1@,
                        pargs@,
                        next@[q].0@,
                    ) && all_in::<N>(*eg, next@[q].1@, N::kids_of(*n)),
                forall|sk: Skel<N>, t: Seq<(Symbol, Id)>, j0: int|
                    node_want::<N>(*eg, sk, g_base@, *n, Pattern::Node(*pn, *pargs), subst0, t) && 0 <= j0 < j
                        && #[trigger] prefix_at::<N>(out@[j0].0@, out@[j0].1@, sk, t, i as int) ==> exists|q: int|
                        0 <= q < next@.len() && prefix_at::<N>(next@[q].0@, next@[q].1@, sk, t, i + 1),
            decreases out.len() - j,
        {
            let s = dup_ids(&out[j].0);
            let (cg, cid) = &kids[i];
            let r = ematch_impl(*cid, &pargs[i], eg, s);
            let mut q: usize = 0;
            while q < r.len()
                invariant
                    q <= r@.len(),
                    forall|t: int|
                        0 <= t < next@.len() ==> unique_names((#[trigger] next@[t]).0@) && ids_below(
                            next@[t].0@,
                            eg.unionfind().len(),
                        ) && keeps(next@[t].0@, subst@) && next@[t].1@.len() == i + 1
                            && all_match::<N>(next@[t].1@, pargs@, next@[t].0@)
                            && all_in::<N>(*eg, next@[t].1@, N::kids_of(*n)),
                    forall|sk: Skel<N>, t: Seq<(Symbol, Id)>, j0: int|
                        node_want::<N>(*eg, sk, g_base@, *n, Pattern::Node(*pn, *pargs), subst0, t) && 0 <= j0 < j
                            && #[trigger] prefix_at::<N>(out@[j0].0@, out@[j0].1@, sk, t, i as int) ==> exists|q: int|
                            0 <= q < next@.len() && prefix_at::<N>(next@[q].0@, next@[q].1@, sk, t, i + 1),
                    forall|sk: Skel<N>, t: Seq<(Symbol, Id)>, q0: int|
                        node_want::<N>(*eg, sk, g_base@, *n, Pattern::Node(*pn, *pargs), subst0, t)
                            && prefix_at::<N>(out@[j as int].0@, out@[j as int].1@, sk, t, i as int) && 0 <= q0 < q
                            && #[trigger] child_hit::<N>(r@[q0].0@, r@[q0].1, sk, t, i as int) ==> exists|q2: int|
                            0 <= q2 < next@.len() && prefix_at::<N>(next@[q2].0@, next@[q2].1@, sk, t, i + 1),
                decreases r.len() - q,
            {
                let (s2, sk) = &r[q];
                let mut chs = dup_children(&out[j].1);
                let d = eg.uf().get_id_semilattice(*cid);
                let ghost prefix = chs@;
                chs.push((cg.duplicate(), d, dup_skel(sk)));
                let ids = dup_ids(s2);
                proof {
                    let o = out@[j as int];
                    assert(keeps(s2@, subst@)) by {
                        assert forall|nm: Seq<char>| (#[trigger] id_of(subst@, nm)) is Some implies id_of(
                            s2@,
                            nm,
                        ) == id_of(subst@, nm) by {
                            assert(id_of(o.0@, nm) is Some);
                        }
                    }
                    lemma_all_same_match::<N>(o.1@, prefix, pargs@, o.0@);
                    lemma_all_match_keeps::<N>(prefix, pargs@, o.0@, s2@);
                    lemma_same_matches::<N>(*sk, chs@.last().2, pargs@[i as int], s2@);
                    assert(chs@.drop_last() =~= prefix);
                    lemma_all_same_in::<N>(*eg, o.1@, prefix, N::kids_of(*n));
                    lemma_same_in::<N>(*eg, *sk, chs@.last().2, *cid);
                    assert(chs@.last().1 == d);
                }
                let ghost before_next = next@;
                next.push((ids, chs));
                proof {
                    assert(next@[before_next.len() as int] == (ids, chs));
                    assert forall|sk: Skel<N>, t: Seq<(Symbol, Id)>, j0: int|
                        node_want::<N>(*eg, sk, g_base@, *n, Pattern::Node(*pn, *pargs), subst0, t) && 0 <= j0 < j
                            && #[trigger] prefix_at::<N>(out@[j0].0@, out@[j0].1@, sk, t, i as int) implies exists|q3: int|
                            0 <= q3 < next@.len() && prefix_at::<N>(next@[q3].0@, next@[q3].1@, sk, t, i + 1) by {
                        let q3 = choose|q3: int| 0 <= q3 < before_next.len() && prefix_at::<N>(before_next[q3].0@, before_next[q3].1@, sk, t, i + 1);
                        assert(next@[q3] == before_next[q3]);
                    }
                    assert forall|sk: Skel<N>, t: Seq<(Symbol, Id)>, q0: int|
                        node_want::<N>(*eg, sk, g_base@, *n, Pattern::Node(*pn, *pargs), subst0, t)
                            && prefix_at::<N>(out@[j as int].0@, out@[j as int].1@, sk, t, i as int) && 0 <= q0 < q + 1
                            && #[trigger] child_hit::<N>(r@[q0].0@, r@[q0].1, sk, t, i as int) implies exists|q2: int|
                            0 <= q2 < next@.len() && prefix_at::<N>(next@[q2].0@, next@[q2].1@, sk, t, i + 1) by {
                        if q0 < q {
                            let q3 = choose|q3: int| 0 <= q3 < before_next.len() && prefix_at::<N>(before_next[q3].0@, before_next[q3].1@, sk, t, i + 1);
                            assert(next@[q3] == before_next[q3]);
                        } else {
                            let ch = skel_kids::<N>(sk);
                            let o = out@[j as int];
                            assert(node_read::<N>(*eg, sk, g_base@, *n));
                            assert(all_in::<N>(*eg, ch, N::kids_of(*n)));
                            lemma_all_same_trans::<N>(ch.take(i as int), o.1@, prefix);
                            assert(skel_matches::<N>(sk, Pattern::Node(*pn, *pargs), t));
                            assert(ch.len() == len);
                            lemma_all_in_at::<N>(*eg, ch, N::kids_of(*n), i as int);
                            lemma_same_trans::<N>(ch[i as int].2, r@[q as int].1, chs@.last().2);
                            assert(ch.take(i + 1).drop_last() =~= ch.take(i as int));
                            assert(ch.take(i + 1).last() == ch[i as int]);
                            assert(chs@.drop_last() =~= prefix);
                            assert(all_same::<N>(ch.take(i + 1), chs@));
                            assert(prefix_at::<N>(next@[before_next.len() as int].0@, next@[before_next.len() as int].1@, sk, t, i + 1));
                        }
                    }
                }
                q += 1;
            }
            proof {
                assert forall|sk: Skel<N>, t: Seq<(Symbol, Id)>, j0: int|
                    node_want::<N>(*eg, sk, g_base@, *n, Pattern::Node(*pn, *pargs), subst0, t) && 0 <= j0 < j + 1
                        && #[trigger] prefix_at::<N>(out@[j0].0@, out@[j0].1@, sk, t, i as int) implies exists|q3: int|
                        0 <= q3 < next@.len() && prefix_at::<N>(next@[q3].0@, next@[q3].1@, sk, t, i + 1) by {
                    if j0 == j {
                        let ch = skel_kids::<N>(sk);
                        assert(node_read::<N>(*eg, sk, g_base@, *n));
                        assert(skel_matches::<N>(sk, Pattern::Node(*pn, *pargs), t));
                        lemma_all_in_at::<N>(*eg, ch, N::kids_of(*n), i as int);
                        lemma_all_match::<N>(ch, pargs@, t, i as int);
                        assert(skel_matches::<N>(ch[i as int].2, pargs@[i as int], t) && skel_in::<N>(*eg, ch[i as int].2, *cid)
                            && keeps(t, s@));
                        let k = choose|k: int| 0 <= k < r@.len() && same_skel::<N>(ch[i as int].2, r@[k].1) && keeps(t, r@[k].0@);
                        assert(child_hit::<N>(r@[k].0@, r@[k].1, sk, t, i as int));
                    }
                }
            }
            j += 1;
        }
        out = next;
        i += 1;
    }
    let mut res: Vec<(IdSubst, Skel<N>)> = Vec::new();
    let mut j: usize = 0;
    while j < out.len()
        invariant
            j <= out@.len(),
            i == len,
            forall|k: int|
                0 <= k < res@.len() ==> unique_names((#[trigger] res@[k]).0@) && ids_below(
                    res@[k].0@,
                    eg.unionfind().len(),
                ) && keeps(res@[k].0@, subst@) && skel_matches::<N>(
                    res@[k].1,
                    Pattern::Node(*pn, *pargs),
                    res@[k].0@,
                ) && node_read::<N>(*eg, res@[k].1, g_base@, *n),
            res@.len() == j,
            forall|k: int|
                0 <= k < j ==> (#[trigger] res@[k]).0@ == out@[k].0@ && same_skel::<N>(
                    Skel::Node(*g_base, *n, out@[k].1),
                    res@[k].1,
                ),
        decreases out.len() - j,
    {
        let ids = dup_ids(&out[j].0);
        let chs = dup_children(&out[j].1);
        let m = N::dup_node(n);
        proof {
            lemma_all_same_match::<N>(out@[j as int].1@, chs@, pargs@, out@[j as int].0@);
            lemma_all_same_in::<N>(*eg, out@[j as int].1@, chs@, N::kids_of(*n));
        }
        res.push((ids, Skel::Node(g_base.duplicate(), m, chs)));
        j += 1;
    }
    proof {
        assert forall|sk: Skel<N>, t: Seq<(Symbol, Id)>|
            #[trigger] node_want::<N>(*eg, sk, g_base@, *n, Pattern::Node(*pn, *pargs), subst0, t) implies exists|k: int|
                0 <= k < res@.len() && same_skel::<N>(sk, res@[k].1) && keeps(t, res@[k].0@) by {
            let j0 = choose|j0: int| 0 <= j0 < out@.len() && prefix_at::<N>(out@[j0].0@, out@[j0].1@, sk, t, i as int);
            let ch = skel_kids::<N>(sk);
            assert(node_read::<N>(*eg, sk, g_base@, *n));
            assert(skel_matches::<N>(sk, Pattern::Node(*pn, *pargs), t));
            assert(ch.take(i as int) =~= ch);
            assert(same_skel::<N>(sk, Skel::Node(*g_base, *n, out@[j0].1)));
            lemma_same_trans::<N>(sk, Skel::Node(*g_base, *n, out@[j0].1), res@[j0].1);
        }
    }
    res
}

/// Matches `pat` at the e-class `x`, disregarding the group elements: each
/// result binds the pattern variables to e-classes and holds the match, and
/// every match read off at `x` is among the results, alike but for the
/// identity of its group elements, with bindings that it keeps.
pub fn skeleton_ematch<N: Analysis>(eg: &EGraph<N>, x: Id, pat: &Pattern<N>) -> (res: Vec<(IdSubst, Skel<N>)>)
    requires
        eg.wf(),
        eg.canonical(),
        x.0 < eg.unionfind().len(),
        eg.unionfind().is_root(x.0 as nat),
        no_shift::<N>(*pat),
    ensures
        forall|k: int|
            0 <= k < res@.len() ==> unique_names((#[trigger] res@[k]).0@) && ids_below(
                res@[k].0@,
                eg.unionfind().len(),
            ) && skel_matches::<N>(res@[k].1, *pat, res@[k].0@) && skel_in::<N>(*eg, res@[k].1, x),
        forall|sk: Skel<N>, t: Seq<(Symbol, Id)>|
            #[trigger] skel_matches::<N>(sk, *pat, t) && skel_in::<N>(*eg, sk, x) ==> exists|k: int|
                0 <= k < res@.len() && same_skel::<N>(sk, res@[k].1) && keeps(t, res@[k].0@),
{
    let empty: IdSubst = Vec::new();
    proof {
        assert forall|t: Seq<(Symbol, Id)>| #[trigger] keeps(t, empty@) by {}
    }
    ematch_impl(x, pat, eg, empty)
}

} // verus!
