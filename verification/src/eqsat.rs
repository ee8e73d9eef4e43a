use vstd::prelude::*;
use crate::api::{Analysis, Group, GroupLaws, Id, SemilatticeLaws};
use crate::baseline_ematch::{
    agrees, all_no_shift, binding_of, bmatch, ematch_all, lemma_all_no_shift, lemma_binding_first, no_shift,
    subst_in_range,
};
use crate::uf::Unionfind;
use crate::egraph::{Contradiction, EGraph};
use crate::ematch::{
    all_vars_bound, all_well_shaped, bound_in, lemma_all_vars_bound, lemma_all_well_shaped, vars_bound,
    well_shaped, Pattern, Subst,
};
use crate::symbol::Symbol;

verus! {

/// The first binding of `v` in `subst`.
fn lookup_var<N: Analysis>(subst: &Subst<N>, v: &Symbol) -> (res: Option<(N::G, Id)>)
    ensures
        match res {
            Some(r) => exists|k: int|
                0 <= k < subst@.len() && (#[trigger] subst@[k]).0@ == v@ && r.0@ == subst@[k].1.0@
                    && r.1 == subst@[k].1.1 && forall|j: int| 0 <= j < k ==> subst@[j].0@ != v@,
            None => !bound_in(*v, subst@),
        },
{
    let mut k: usize = 0;
    while k < subst.len()
        invariant
            k <= subst@.len(),
            forall|j: int| 0 <= j < k ==> subst@[j].0@ != v@,
        decreases subst.len() - k,
    {
        if subst[k].0.same(v) {
            let (g, x) = &subst[k].1;
            return Some((g.duplicate(), *x));
        }
        k += 1;
    }
    None
}

/// What `instantiate` does, from `old` to `new`, returning `res`: a pattern
/// variable gives its first binding in `subst` and leaves the e-graph as it
/// is; `g` applied to a pattern gives `g` composed with the result for that
/// pattern; an e-node is added (see `EGraph::add_post`) with, as its
/// children, the results for its sub-patterns, instantiated in order.
pub open spec fn inst_post<N: Analysis>(
    old: EGraph<N>,
    new: EGraph<N>,
    pat: Pattern<N>,
    subst: Seq<(Symbol, (N::G, Id))>,
    res: (N::G, Id),
) -> bool
    decreases pat,
{
    match pat {
        Pattern::PVar(v) => new == old && binding_of(subst, v@) is Some && res.0@ == binding_of(subst, v@)->Some_0.0@
            && res.1 == binding_of(subst, v@)->Some_0.1,
        Pattern::G(g, q) => exists|r: (N::G, Id)|
            inst_post::<N>(old, new, *q, subst, r) && res.0@ == #[trigger] N::G::op(g@, r.0@) && res.1 == r.1,
        Pattern::Node(n, args) => exists|mid: EGraph<N>, kids: Seq<(N::G, Id)>|
            inst_all::<N>(old, mid, args@, subst, kids) && #[trigger] EGraph::<N>::add_post(
                mid,
                new,
                N::replace_kids(n, kids),
                res,
            ),
    }
}

/// The patterns of `args` instantiated one after the other, from `old` to
/// `new` through well-formed e-graphs, giving `kids` in order.
pub open spec fn inst_all<N: Analysis>(
    old: EGraph<N>,
    new: EGraph<N>,
    args: Seq<Pattern<N>>,
    subst: Seq<(Symbol, (N::G, Id))>,
    kids: Seq<(N::G, Id)>,
) -> bool
    decreases args,
{
    if args.len() == 0 {
        new == old && kids.len() == 0
    } else {
        kids.len() == args.len() && exists|mid: EGraph<N>|
            #[trigger] mid.wf() && inst_all::<N>(old, mid, args.drop_last(), subst, kids.drop_last()) && inst_post::<N>(
                mid,
                new,
                args.last(),
                subst,
                kids.last(),
            )
    }
}

/// Instantiating one more pattern extends the instantiation of those
/// before it.
pub proof fn lemma_inst_all_push<N: Analysis>(
    start: EGraph<N>,
    before: EGraph<N>,
    after: EGraph<N>,
    args: Seq<Pattern<N>>,
    subst: Seq<(Symbol, (N::G, Id))>,
    kids: Seq<(N::G, Id)>,
    c: (N::G, Id),
    i: int,
)
    requires
        0 <= i < args.len(),
        before.wf(),
        inst_all::<N>(start, before, args.take(i), subst, kids),
        inst_post::<N>(before, after, args[i], subst, c),
    ensures
        inst_all::<N>(start, after, args.take(i + 1), subst, kids.push(c)),
{
    let t1 = args.take(i + 1);
    assert(t1.drop_last() =~= args.take(i));
    assert(kids.push(c).drop_last() =~= kids);
    if i == 0 {
        assert(kids.len() == 0);
    }
    assert(inst_all::<N>(start, before, t1.drop_last(), subst, kids.push(c).drop_last()));
}

/// Adds the pattern `pat` to the e-graph, its pattern variables standing for
/// the e-classes that `subst` binds them to; returns `g*x` for the pattern.
/// A pattern variable gives its first binding; a shifted pattern is shifted;
/// an e-node is added with the results for its sub-patterns as children.
#[verifier::loop_isolation(false)]
pub fn instantiate<N: Analysis>(pat: &Pattern<N>, eg: &mut EGraph<N>, subst: &Subst<N>) -> (res: (
    N::G,
    Id,
))
    requires
        old(eg).wf(),
        well_shaped::<N>(*pat),
        vars_bound::<N>(*pat, subst@),
        forall|k: int| 0 <= k < subst@.len() ==> (#[trigger] subst@[k]).1.1.0 < old(eg).unionfind().len(),
    ensures
        final(eg).wf(),
        res.1.0 < final(eg).unionfind().len(),
        final(eg).unionfind().len() >= old(eg).unionfind().len(),
        EGraph::<N>::keeps_equalities(old(eg).unionfind(), final(eg).unionfind()),
        old(eg).canonical() ==> final(eg).canonical(),
        inst_post::<N>(*old(eg), *final(eg), *pat, subst@, res),
    decreases pat,
{
    match pat {
        Pattern::PVar(v) => {
            match lookup_var::<N>(subst, v) {
                Some(r) => {
                    proof {
                        let k = choose|k: int|
                            0 <= k < subst@.len() && (#[trigger] subst@[k]).0@ == v@ && r.0@ == subst@[k].1.0@
                                && r.1 == subst@[k].1.1 && forall|j: int| 0 <= j < k ==> subst@[j].0@ != v@;
                        lemma_binding_first(subst@, k, v@);
                    }
                    r
                },
                None => {
                    proof {
                        assert(false);
                    }
                    (N::G::identity(), Id(0))
                },
            }
        },
        Pattern::G(g, q) => {
            let r = instantiate(&**q, eg, subst);
            let ghost rg = r;
            let (g2, x) = r;
            let res = (N::G::compose(g, &g2), x);
            proof {
                assert(inst_post::<N>(*old(eg), *eg, **q, subst@, rg));
            }
            res
        },
        Pattern::Node(n, args) => {
            proof {
                lemma_all_well_shaped::<N>(args@);
                lemma_all_vars_bound::<N>(args@, subst@);
            }
            let ghost start = eg.unionfind();
            let ghost start_eg = *eg;
            let mut kids: Vec<(N::G, Id)> = Vec::new();
            let mut i: usize = 0;
            proof {
                assert(args@.take(0).len() == 0);
            }
            while i < args.len()
                invariant
                    i <= args@.len(),
                    eg.wf(),
                    kids@.len() == i,
                    forall|j: int| 0 <= j < i ==> (#[trigger] kids@[j]).1.0 < eg.unionfind().len(),
                    eg.unionfind().len() >= start.len(),
                    EGraph::<N>::keeps_equalities(start, eg.unionfind()),
                    start == old(eg).unionfind(),
                    old(eg).canonical() ==> eg.canonical(),
                    forall|j: int| 0 <= j < args@.len() ==> decreases_to!(*pat => args@[j]),
                    start_eg == *old(eg),
                    inst_all::<N>(start_eg, *eg, args@.take(i as int), subst@, kids@),
                decreases args.len() - i,
            {
                let ghost before = eg.unionfind();
                let ghost before_eg = *eg;
                let c = instantiate(&args[i], eg, subst);
                proof {
                    EGraph::<N>::lemma_keeps_trans(start, before, eg.unionfind());
                }
                let ghost kids0 = kids@;
                kids.push(c);
                proof {
                    lemma_inst_all_push::<N>(start_eg, before_eg, *eg, args@, subst@, kids0, c, i as int);
                    assert(kids@ == kids0.push(c));
                }
                i += 1;
            }
            proof {
                assert(args@.take(i as int) =~= args@);
            }
            let ghost k = kids@;
            let m = N::set_children(n, kids);
            proof {
                N::lemma_replace_kids(*n, k);
                N::lemma_children_below(m, eg.unionfind().len());
            }
            let ghost before = eg.unionfind();
            let ghost mid = *eg;
            let r = eg.add(&m);
            proof {
                EGraph::<N>::lemma_keeps_trans(start, before, eg.unionfind());
                assert(EGraph::<N>::add_post(mid, *eg, N::replace_kids(*n, k), r));
                assert(inst_all::<N>(start_eg, mid, args@, subst@, k));
            }
            r
        },
    }
}

/// Adds the term `t` (a pattern without pattern variables) to the e-graph.
pub fn add_expr<N: Analysis>(t: &Pattern<N>, eg: &mut EGraph<N>) -> (res: (N::G, Id))
    requires
        old(eg).wf(),
        well_shaped::<N>(*t),
        vars_bound::<N>(*t, Seq::empty()),
    ensures
        final(eg).wf(),
        res.1.0 < final(eg).unionfind().len(),
        final(eg).unionfind().len() >= old(eg).unionfind().len(),
        EGraph::<N>::keeps_equalities(old(eg).unionfind(), final(eg).unionfind()),
        old(eg).canonical() ==> final(eg).canonical(),
        inst_post::<N>(*old(eg), *final(eg), *t, Seq::empty(), res),
{
    let subst: Subst<N> = Vec::new();
    instantiate(t, eg, &subst)
}

/// A rewrite rule: a searcher pattern and an applier pattern.
pub type Rule<N> = (Pattern<N>, Pattern<N>);

/// Whether every pattern variable of `rhs` occurs in `lhs`.
pub open spec fn vars_within<N: Analysis>(rhs: Pattern<N>, lhs: Pattern<N>) -> bool {
    forall|s: Seq<(Symbol, (N::G, Id))>| #[trigger] vars_bound::<N>(lhs, s) ==> vars_bound::<N>(rhs, s)
}

/// What `eqsat` accepts of a rule: both sides well shaped, a searcher
/// without shifts, and an applier whose variables the searcher binds.
pub open spec fn rule_ok<N: Analysis>(r: Rule<N>) -> bool {
    &&& well_shaped::<N>(r.0)
    &&& well_shaped::<N>(r.1)
    &&& no_shift::<N>(r.0)
    &&& vars_within::<N>(r.1, r.0)
}

/// The rule has been applied to the match `s` by the union-find `cur`: from
/// an e-graph `e0` that keeps the equalities of `start`, the searcher was
/// instantiated under `s` (giving `gl`, and the e-graph `e1`), then the
/// applier (giving `gr`, and `e2`), and `cur` knows `gl` equal to `gr`.
pub open spec fn rule_applied<N: Analysis>(
    start: EGraph<N>,
    cur: Unionfind<N::S>,
    rule: Rule<N>,
    s: Seq<(Symbol, (N::G, Id))>,
) -> bool {
    exists|e0: EGraph<N>, e1: EGraph<N>, e2: EGraph<N>, gl: (N::G, Id), gr: (N::G, Id)|
        #![trigger e0.wf(), e1.wf(), e2.wf(), cur.equal(gl, gr)]
        e0.wf() && e1.wf() && e2.wf() && EGraph::<N>::keeps_equalities(start.unionfind(), e0.unionfind())
            && e0.unionfind().len() >= start.unionfind().len() && inst_post::<N>(e0, e1, rule.0, s, gl)
            && inst_post::<N>(e1, e2, rule.1, s, gr) && gl.1.0 < cur.len() && gr.1.0 < cur.len() && cur.equal(gl, gr)
}

/// What one round of `eqsat` does from `e` to `f`: for every rule and every
/// bindings `t` under which its searcher matches an e-class of `e` (see
/// `bmatch`), the rule has been applied, by the end of the round, to a match
/// whose bindings agree with `t`.
pub open spec fn round_post<N: Analysis>(rules: Seq<Rule<N>>, e: EGraph<N>, f: EGraph<N>) -> bool {
    forall|q: int, g: N::G, x: Id, t: Seq<(Symbol, (N::G, Id))>|
        0 <= q < rules.len() && x.0 < e.unionfind().len() && e.unionfind().is_root(x.0 as nat) && g@
            == N::G::unit() && #[trigger] bmatch::<N>(e, rules[q].0, (g, x), t) && subst_in_range(
            t,
            e.unionfind().len(),
        ) ==> exists|s: Seq<(Symbol, (N::G, Id))>|
            #[trigger] agrees::<N>(e, t, s) && rule_applied::<N>(e, f.unionfind(), rules[q], s)
}

/// `trace` lists the e-graphs from `start` to `end` through `n` rounds, each
/// as `round_post` says.
pub open spec fn rounds_ok<N: Analysis>(
    rules: Seq<Rule<N>>,
    trace: Seq<EGraph<N>>,
    start: EGraph<N>,
    end: EGraph<N>,
    n: nat,
) -> bool {
    &&& trace.len() == n + 1
    &&& trace[0] == start
    &&& trace[n as int] == end
    &&& forall|r: int| 0 <= r < n ==> #[trigger] round_post::<N>(rules, trace[r], trace[r + 1])
}

/// A rule applied stays applied under a union-find that keeps the
/// equalities.
proof fn lemma_applied_keeps<N: Analysis>(
    start: EGraph<N>,
    cur: Unionfind<N::S>,
    cur2: Unionfind<N::S>,
    rule: Rule<N>,
    s: Seq<(Symbol, (N::G, Id))>,
)
    requires
        rule_applied::<N>(start, cur, rule, s),
        EGraph::<N>::keeps_equalities(cur, cur2),
        cur2.len() >= cur.len(),
    ensures
        rule_applied::<N>(start, cur2, rule, s),
{
    let (e0, e1, e2, gl, gr) = choose|e0: EGraph<N>, e1: EGraph<N>, e2: EGraph<N>, gl: (N::G, Id), gr: (N::G, Id)|
        #![trigger e0.wf(), e1.wf(), e2.wf(), cur.equal(gl, gr)]
        e0.wf() && e1.wf() && e2.wf() && EGraph::<N>::keeps_equalities(start.unionfind(), e0.unionfind())
            && e0.unionfind().len() >= start.unionfind().len() && inst_post::<N>(e0, e1, rule.0, s, gl)
            && inst_post::<N>(e1, e2, rule.1, s, gr) && gl.1.0 < cur.len() && gr.1.0 < cur.len() && cur.equal(gl, gr);
    assert(cur2.equal(gl, gr));
    assert(e0.wf() && e1.wf() && e2.wf());
}

/// `n` rounds of equality saturation: every rule is matched everywhere
/// (with `baseline_ematch`), then for every match the two sides are added
/// and unioned, then the hashcons is restored. `Err` when a union or the
/// restoring is refused. On success, each round is as `round_post` says:
/// every match of a searcher in the e-graph at the start of the round has
/// its two sides, instantiated under it, known equal at the end.
pub fn eqsat<N: Analysis>(eg: &mut EGraph<N>, rules: &Vec<Rule<N>>, n: usize) -> (res: Result<(), Contradiction>)
    where N::S: SemilatticeLaws, N::G: GroupLaws,
    requires
        old(eg).wf(),
        old(eg).canonical(),
        forall|i: int| 0 <= i < rules@.len() ==> rule_ok::<N>(#[trigger] rules@[i]),
    ensures
        final(eg).wf(),
        final(eg).unionfind().len() >= old(eg).unionfind().len(),
        EGraph::<N>::keeps_equalities(old(eg).unionfind(), final(eg).unionfind()),
        res is Ok ==> final(eg).canonical(),
        res is Ok ==> exists|trace: Seq<EGraph<N>>|
            #[trigger] rounds_ok::<N>(rules@, trace, *old(eg), *final(eg), n as nat),
        res is Err ==> final(eg).some_refused() || exists|a: (N::G, Id), b: (N::G, Id)|
            a.1.0 < final(eg).unionfind().len() && b.1.0 < final(eg).unionfind().len()
                && !#[trigger] final(eg).unionfind().union_ok(a, b),
{
    let ghost start = eg.unionfind();
    let ghost mut trace: Seq<EGraph<N>> = seq![*eg];
    let mut round: usize = 0;
    while round < n
        invariant
            eg.wf(),
            eg.canonical(),
            eg.unionfind().len() >= start.len(),
            EGraph::<N>::keeps_equalities(start, eg.unionfind()),
            start == old(eg).unionfind(),
            forall|i: int| 0 <= i < rules@.len() ==> rule_ok::<N>(#[trigger] rules@[i]),
            round <= n,
            trace.len() == round + 1,
            trace[0] == *old(eg),
            trace[round as int] == *eg,
            forall|r: int| 0 <= r < round ==> #[trigger] round_post::<N>(rules@, trace[r], trace[r + 1]),
        decreases n - round,
    {
        let ghost e_start = *eg;
        let mut matches: Vec<Vec<Subst<N>>> = Vec::new();
        let mut i: usize = 0;
        while i < rules.len()
            invariant
                i <= rules@.len(),
                eg.wf(),
                eg.canonical(),
                *eg == e_start,
                forall|q: int| 0 <= q < rules@.len() ==> rule_ok::<N>(#[trigger] rules@[q]),
                matches@.len() == i,
                forall|q: int, k: int|
                    0 <= q < i && 0 <= k < matches@[q]@.len() ==> subst_in_range(
                        (#[trigger] matches@[q]@[k])@,
                        eg.unionfind().len(),
                    ) && vars_bound::<N>(rules@[q].0, matches@[q]@[k]@),
                forall|q: int, g: N::G, x: Id, t: Seq<(Symbol, (N::G, Id))>|
                    0 <= q < i && x.0 < e_start.unionfind().len() && e_start.unionfind().is_root(x.0 as nat)
                        && g@ == N::G::unit() && #[trigger] bmatch::<N>(e_start, rules@[q].0, (g, x), t)
                        && subst_in_range(t, e_start.unionfind().len()) ==> exists|k: int|
                        0 <= k < matches@[q]@.len() && agrees::<N>(e_start, t, matches@[q]@[k]@),
            decreases rules.len() - i,
        {
            proof {
                let _ = rules@[i as int];
            }
            let m = ematch_all(eg, &rules[i].0);
            let ghost before = matches@;
            matches.push(m);
            proof {
                assert forall|q: int, k: int|
                    0 <= q < i + 1 && 0 <= k < matches@[q]@.len() implies subst_in_range(
                        (#[trigger] matches@[q]@[k])@,
                        eg.unionfind().len(),
                    ) && vars_bound::<N>(rules@[q].0, matches@[q]@[k]@) by {
                    if q < i {
                        assert(matches@[q] == before[q]);
                    }
                }
                assert forall|q: int, g: N::G, x: Id, t: Seq<(Symbol, (N::G, Id))>|
                    0 <= q < i + 1 && x.0 < e_start.unionfind().len() && e_start.unionfind().is_root(x.0 as nat)
                        && g@ == N::G::unit() && #[trigger] bmatch::<N>(e_start, rules@[q].0, (g, x), t)
                        && subst_in_range(t, e_start.unionfind().len()) implies exists|k: int|
                        0 <= k < matches@[q]@.len() && agrees::<N>(e_start, t, matches@[q]@[k]@) by {
                    if q < i {
                        assert(matches@[q] == before[q]);
                    } else {
                        assert(matches@[q] == m);
                    }
                }
            }
            i += 1;
        }
        let ghost round_start = eg.unionfind();
        let mut i: usize = 0;
        while i < rules.len()
            invariant
                i <= rules@.len(),
                eg.wf(),
                matches@.len() == rules@.len(),
                forall|q: int| 0 <= q < rules@.len() ==> rule_ok::<N>(#[trigger] rules@[q]),
                eg.unionfind().len() >= round_start.len(),
                forall|q: int, k: int|
                    0 <= q < rules@.len() && 0 <= k < matches@[q]@.len() ==> subst_in_range(
                        (#[trigger] matches@[q]@[k])@,
                        round_start.len(),
                    ) && vars_bound::<N>(rules@[q].0, matches@[q]@[k]@),
                round_start.len() >= start.len(),
                EGraph::<N>::keeps_equalities(start, eg.unionfind()),
                start == old(eg).unionfind(),
                round_start == e_start.unionfind(),
                EGraph::<N>::keeps_equalities(round_start, eg.unionfind()),
                forall|q: int, k: int|
                    0 <= q < i && 0 <= k < matches@[q]@.len() ==> #[trigger] rule_applied::<N>(
                        e_start,
                        eg.unionfind(),
                        rules@[q],
                        matches@[q]@[k]@,
                    ),
            decreases rules.len() - i,
        {
            proof {
                let _ = rules@[i as int];
            }
            let mut k: usize = 0;
            while k < matches[i].len()
                invariant
                    i < rules@.len(),
                    k <= matches@[i as int]@.len(),
                    eg.wf(),
                    matches@.len() == rules@.len(),
                    forall|q: int| 0 <= q < rules@.len() ==> rule_ok::<N>(#[trigger] rules@[q]),
                    eg.unionfind().len() >= round_start.len(),
                    forall|q: int, k: int|
                        0 <= q < rules@.len() && 0 <= k < matches@[q]@.len() ==> subst_in_range(
                            (#[trigger] matches@[q]@[k])@,
                            round_start.len(),
                        ) && vars_bound::<N>(rules@[q].0, matches@[q]@[k]@),
                    round_start.len() >= start.len(),
                    EGraph::<N>::keeps_equalities(start, eg.unionfind()),
                    start == old(eg).unionfind(),
                    round_start == e_start.unionfind(),
                    EGraph::<N>::keeps_equalities(round_start, eg.unionfind()),
                    forall|q: int, k2: int|
                        0 <= q < i && 0 <= k2 < matches@[q]@.len() ==> #[trigger] rule_applied::<N>(
                            e_start,
                            eg.unionfind(),
                            rules@[q],
                            matches@[q]@[k2]@,
                        ),
                    forall|k2: int|
                        0 <= k2 < k ==> #[trigger] rule_applied::<N>(
                            e_start,
                            eg.unionfind(),
                            rules@[i as int],
                            matches@[i as int]@[k2]@,
                        ),
                decreases matches@[i as int]@.len() - k,
            {
                let s = &matches[i][k];
                let (lhs, rhs) = &rules[i];
                proof {
                    let _ = matches@[i as int]@[k as int];
                    assert(rule_ok::<N>(rules@[i as int]));
                    assert(vars_bound::<N>(*rhs, s@));
                    assert forall|q: int| 0 <= q < s@.len() implies (#[trigger] s@[q]).1.1.0 < eg.unionfind().len() by {}
                }
                let ghost b0 = eg.unionfind();
                let ghost e0 = *eg;
                let l = instantiate(lhs, eg, s);
                let ghost b1 = eg.unionfind();
                let ghost e1 = *eg;
                let r = instantiate(rhs, eg, s);
                let ghost b2 = eg.unionfind();
                let ghost e2 = *eg;
                let u = eg.union_no_rebuild(l, r);
                proof {
                    EGraph::<N>::lemma_keeps_trans(start, b0, b1);
                    EGraph::<N>::lemma_keeps_trans(start, b1, b2);
                    EGraph::<N>::lemma_keeps_trans(start, b2, eg.unionfind());
                    EGraph::<N>::lemma_keeps_trans(b0, b1, b2);
                    EGraph::<N>::lemma_keeps_trans(b0, b2, eg.unionfind());
                    EGraph::<N>::lemma_keeps_trans(round_start, b0, eg.unionfind());
                }
                if u.is_err() {
                    proof {
                        assert(!eg.unionfind().union_ok(l, r));
                    }
                    return Err(Contradiction);
                }
                proof {
                    let changed = u->Ok_0;
                    Unionfind::lemma_union_then_equal(b2, eg.unionfind(), l, r, changed);
                    assert(rules@[i as int].0 == *lhs && rules@[i as int].1 == *rhs);
                    assert(e0.wf() && e1.wf() && e2.wf());
                    assert(rule_applied::<N>(e_start, eg.unionfind(), rules@[i as int], s@));
                    assert forall|q: int, k2: int|
                        0 <= q < i && 0 <= k2 < matches@[q]@.len() implies #[trigger] rule_applied::<N>(
                            e_start,
                            eg.unionfind(),
                            rules@[q],
                            matches@[q]@[k2]@,
                        ) by {
                        assert(rule_applied::<N>(e_start, b0, rules@[q], matches@[q]@[k2]@));
                        lemma_applied_keeps::<N>(e_start, b0, eg.unionfind(), rules@[q], matches@[q]@[k2]@);
                    }
                    assert forall|k2: int|
                        0 <= k2 < k + 1 implies #[trigger] rule_applied::<N>(
                            e_start,
                            eg.unionfind(),
                            rules@[i as int],
                            matches@[i as int]@[k2]@,
                        ) by {
                        if k2 < k {
                            assert(rule_applied::<N>(e_start, b0, rules@[i as int], matches@[i as int]@[k2]@));
                            lemma_applied_keeps::<N>(e_start, b0, eg.unionfind(), rules@[i as int], matches@[i as int]@[k2]@);
                        }
                    }
                }
                k += 1;
            }
            i += 1;
        }
        let ghost b3 = eg.unionfind();
        let r = eg.rebuild();
        proof {
            EGraph::<N>::lemma_keeps_trans(start, b3, eg.unionfind());
        }
        if r.is_err() {
            return Err(Contradiction);
        }
        proof {
            assert forall|q: int, g: N::G, x: Id, t: Seq<(Symbol, (N::G, Id))>|
                0 <= q < rules@.len() && x.0 < e_start.unionfind().len() && e_start.unionfind().is_root(x.0 as nat) && g@
                    == N::G::unit() && #[trigger] bmatch::<N>(e_start, rules@[q].0, (g, x), t) && subst_in_range(
                    t,
                    e_start.unionfind().len(),
                ) implies exists|s: Seq<(Symbol, (N::G, Id))>|
                #[trigger] agrees::<N>(e_start, t, s) && rule_applied::<N>(e_start, eg.unionfind(), rules@[q], s) by {
                let k = choose|k: int| 0 <= k < matches@[q]@.len() && agrees::<N>(e_start, t, matches@[q]@[k]@);
                assert(rule_applied::<N>(e_start, b3, rules@[q], matches@[q]@[k]@));
                lemma_applied_keeps::<N>(e_start, b3, eg.unionfind(), rules@[q], matches@[q]@[k]@);
            }
            assert(round_post::<N>(rules@, e_start, *eg));
            trace = trace.push(*eg);
            assert forall|r: int| 0 <= r < round + 1 implies #[trigger] round_post::<N>(rules@, trace[r], trace[r + 1]) by {
                if r < round {
                    assert(trace[r] == trace.drop_last()[r] && trace[r + 1] == trace.drop_last()[r + 1]);
                }
            }
        }
        round += 1;
    }
    proof {
        assert(rounds_ok::<N>(rules@, trace, *old(eg), *eg, n as nat));
    }
    Ok(())
}

/// Whether the pattern variable named `v` occurs in `p`.
pub open spec fn occurs<N: Analysis>(v: Seq<char>, p: Pattern<N>) -> bool
    decreases p,
{
    match p {
        Pattern::PVar(w) => w@ == v,
        Pattern::Node(_, args) => occurs_any::<N>(v, args@),
        Pattern::G(_, q) => occurs::<N>(v, *q),
    }
}

/// Whether the pattern variable named `v` occurs in a pattern of `s`.
pub open spec fn occurs_any<N: Analysis>(v: Seq<char>, s: Seq<Pattern<N>>) -> bool
    decreases s,
{
    s.len() > 0 && (occurs::<N>(v, s.last()) || occurs_any::<N>(v, s.drop_last()))
}

/// Whether every pattern variable of `p` occurs in `lhs`.
pub open spec fn all_occur<N: Analysis>(p: Pattern<N>, lhs: Pattern<N>) -> bool
    decreases p,
{
    match p {
        Pattern::PVar(w) => occurs::<N>(w@, lhs),
        Pattern::Node(_, args) => all_occur_seq::<N>(args@, lhs),
        Pattern::G(_, q) => all_occur::<N>(*q, lhs),
    }
}

pub open spec fn all_occur_seq<N: Analysis>(s: Seq<Pattern<N>>, lhs: Pattern<N>) -> bool
    decreases s,
{
    s.len() == 0 || (all_occur::<N>(s.last(), lhs) && all_occur_seq::<N>(s.drop_last(), lhs))
}

/// A variable that occurs in a pattern whose variables are bound is bound.
pub proof fn lemma_occurs_bound<N: Analysis>(v: Symbol, p: Pattern<N>, s: Seq<(Symbol, (N::G, Id))>)
    requires
        occurs::<N>(v@, p),
        vars_bound::<N>(p, s),
    ensures
        bound_in(v, s),
    decreases p,
{
    match p {
        Pattern::PVar(w) => {
            let k = choose|k: int| 0 <= k < s.len() && (#[trigger] s[k]).0@ == w@;
            assert(s[k].0@ == v@);
        },
        Pattern::Node(_, args) => {
            lemma_occurs_any_bound::<N>(v, args@, s);
        },
        Pattern::G(_, q) => {
            lemma_occurs_bound::<N>(v, *q, s);
        },
    }
}

pub proof fn lemma_occurs_any_bound<N: Analysis>(v: Symbol, ps: Seq<Pattern<N>>, s: Seq<(Symbol, (N::G, Id))>)
    requires
        occurs_any::<N>(v@, ps),
        all_vars_bound::<N>(ps, s),
    ensures
        bound_in(v, s),
    decreases ps,
{
    if occurs::<N>(v@, ps.last()) {
        lemma_occurs_bound::<N>(v, ps.last(), s);
    } else {
        lemma_occurs_any_bound::<N>(v, ps.drop_last(), s);
    }
}

/// When every variable of `p` occurs in `lhs`, binding the variables of
/// `lhs` binds those of `p`.
pub proof fn lemma_all_occur_bound<N: Analysis>(p: Pattern<N>, lhs: Pattern<N>, s: Seq<(Symbol, (N::G, Id))>)
    requires
        all_occur::<N>(p, lhs),
        vars_bound::<N>(lhs, s),
    ensures
        vars_bound::<N>(p, s),
    decreases p,
{
    match p {
        Pattern::PVar(w) => {
            lemma_occurs_bound::<N>(w, lhs, s);
        },
        Pattern::Node(_, args) => {
            lemma_all_occur_seq_bound::<N>(args@, lhs, s);
        },
        Pattern::G(_, q) => {
            lemma_all_occur_bound::<N>(*q, lhs, s);
        },
    }
}

pub proof fn lemma_all_occur_seq_bound<N: Analysis>(ps: Seq<Pattern<N>>, lhs: Pattern<N>, s: Seq<(Symbol, (N::G, Id))>)
    requires
        all_occur_seq::<N>(ps, lhs),
        vars_bound::<N>(lhs, s),
    ensures
        all_vars_bound::<N>(ps, s),
    decreases ps,
{
    if ps.len() > 0 {
        lemma_all_occur_bound::<N>(ps.last(), lhs, s);
        lemma_all_occur_seq_bound::<N>(ps.drop_last(), lhs, s);
    }
}

/// Whether `p` has no shifted sub-pattern.
#[verifier::loop_isolation(false)]
pub fn check_no_shift<N: Analysis>(p: &Pattern<N>) -> (res: bool)
    ensures
        res == no_shift::<N>(*p),
    decreases p,
{
    match p {
        Pattern::PVar(_) => true,
        Pattern::Node(_, args) => {
            let mut i: usize = 0;
            while i < args.len()
                invariant
                    i <= args@.len(),
                    all_no_shift::<N>(args@.take(i as int)),
                    forall|j: int| 0 <= j < args@.len() ==> decreases_to!(*p => args@[j]),
                decreases args.len() - i,
            {
                if !check_no_shift(&args[i]) {
                    proof {
                        lemma_all_no_shift::<N>(args@);
                    }
                    return false;
                }
                proof {
                    assert(args@.take(i + 1).drop_last() == args@.take(i as int));
                }
                i += 1;
            }
            proof {
                assert(args@.take(i as int) == args@);
            }
            true
        },
        Pattern::G(..) => false,
    }
}

/// Whether every e-node of `p` has as many sub-patterns as children.
#[verifier::loop_isolation(false)]
pub fn check_well_shaped<N: Analysis>(p: &Pattern<N>) -> (res: bool)
    ensures
        res == well_shaped::<N>(*p),
    decreases p,
{
    match p {
        Pattern::PVar(_) => true,
        Pattern::Node(n, args) => {
            if N::children(n).len() != args.len() {
                return false;
            }
            let mut i: usize = 0;
            while i < args.len()
                invariant
                    i <= args@.len(),
                    all_well_shaped::<N>(args@.take(i as int)),
                    forall|j: int| 0 <= j < args@.len() ==> decreases_to!(*p => args@[j]),
                decreases args.len() - i,
            {
                if !check_well_shaped(&args[i]) {
                    proof {
                        lemma_all_well_shaped::<N>(args@);
                    }
                    return false;
                }
                proof {
                    assert(args@.take(i + 1).drop_last() == args@.take(i as int));
                }
                i += 1;
            }
            proof {
                assert(args@.take(i as int) == args@);
            }
            true
        },
        Pattern::G(_, q) => check_well_shaped(&**q),
    }
}

/// Whether the variable named `v` occurs in `p`.
#[verifier::loop_isolation(false)]
pub fn check_occurs<N: Analysis>(v: &Symbol, p: &Pattern<N>) -> (res: bool)
    ensures
        res == occurs::<N>(v@, *p),
    decreases p,
{
    match p {
        Pattern::PVar(w) => w.same(v),
        Pattern::Node(_, args) => {
            let mut i: usize = 0;
            while i < args.len()
                invariant
                    i <= args@.len(),
                    !occurs_any::<N>(v@, args@.take(i as int)),
                    forall|j: int| 0 <= j < args@.len() ==> decreases_to!(*p => args@[j]),
                decreases args.len() - i,
            {
                proof {
                    assert(args@.take(i + 1).drop_last() == args@.take(i as int));
                    assert(args@.take(i + 1).last() == args@[i as int]);
                }
                if check_occurs(v, &args[i]) {
                    proof {
                        lemma_occurs_any_prefix::<N>(v@, args@, i as int + 1);
                    }
                    return true;
                }
                i += 1;
            }
            proof {
                assert(args@.take(i as int) == args@);
            }
            false
        },
        Pattern::G(_, q) => check_occurs(v, &**q),
    }
}

proof fn lemma_occurs_any_prefix<N: Analysis>(v: Seq<char>, s: Seq<Pattern<N>>, k: int)
    requires
        0 <= k <= s.len(),
        occurs_any::<N>(v, s.take(k)),
    ensures
        occurs_any::<N>(v, s),
    decreases s.len(),
{
    if k < s.len() {
        assert(s.drop_last().take(k) == s.take(k));
        lemma_occurs_any_prefix::<N>(v, s.drop_last(), k);
    } else {
        assert(s.take(k) == s);
    }
}

/// Whether every variable of `p` occurs in `lhs`.
#[verifier::loop_isolation(false)]
pub fn check_all_occur<N: Analysis>(p: &Pattern<N>, lhs: &Pattern<N>) -> (res: bool)
    ensures
        res == all_occur::<N>(*p, *lhs),
    decreases p,
{
    match p {
        Pattern::PVar(w) => check_occurs(w, lhs),
        Pattern::Node(_, args) => {
            let mut i: usize = 0;
            while i < args.len()
                invariant
                    i <= args@.len(),
                    all_occur_seq::<N>(args@.take(i as int), *lhs),
                    forall|j: int| 0 <= j < args@.len() ==> decreases_to!(*p => args@[j]),
                decreases args.len() - i,
            {
                proof {
                    assert(args@.take(i + 1).drop_last() == args@.take(i as int));
                    assert(args@.take(i + 1).last() == args@[i as int]);
                }
                if !check_all_occur(&args[i], lhs) {
                    proof {
                        if all_occur_seq::<N>(args@, *lhs) {
                            lemma_all_occur_seq_prefix::<N>(args@, *lhs, i as int + 1);
                        }
                    }
                    return false;
                }
                i += 1;
            }
            proof {
                assert(args@.take(i as int) == args@);
            }
            true
        },
        Pattern::G(_, q) => check_all_occur(&**q, lhs),
    }
}

proof fn lemma_all_occur_seq_prefix<N: Analysis>(s: Seq<Pattern<N>>, lhs: Pattern<N>, k: int)
    requires
        0 <= k <= s.len(),
        all_occur_seq::<N>(s, lhs),
    ensures
        all_occur_seq::<N>(s.take(k), lhs),
    decreases s.len(),
{
    if k < s.len() {
        assert(s.drop_last().take(k) == s.take(k));
        lemma_all_occur_seq_prefix::<N>(s.drop_last(), lhs, k);
    } else {
        assert(s.take(k) == s);
    }
}

/// Whether `eqsat` accepts the rule, as `rule_ok` says.
pub fn check_rule<N: Analysis>(r: &Rule<N>) -> (res: bool)
    ensures
        res ==> rule_ok::<N>(*r),
{
    let (lhs, rhs) = r;
    if check_well_shaped(lhs) && check_well_shaped(rhs) && check_no_shift(lhs) && check_all_occur(rhs, lhs) {
        proof {
            assert forall|s: Seq<(Symbol, (N::G, Id))>| #[trigger] vars_bound::<N>(*lhs, s) implies vars_bound::<N>(*rhs, s) by {
                lemma_all_occur_bound::<N>(*rhs, *lhs, s);
            }
        }
        true
    } else {
        false
    }
}

} // verus!
