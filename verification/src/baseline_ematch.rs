use vstd::prelude::*;
use crate::api::{Analysis, Group, GroupLaws, Id, SemilatticeLaws};
use crate::egraph::EGraph;
use crate::ematch::{
    all_vars_bound, bound_in, lemma_all_vars_bound, lemma_all_well_shaped, vars_bound, well_shaped,
    Pattern, Subst,
};
use crate::symbol::Symbol;

verus! {

/// Whether the pattern has no shifted sub-pattern.
pub open spec fn no_shift<N: Analysis>(p: Pattern<N>) -> bool
    decreases p,
{
    match p {
        Pattern::PVar(_) => true,
        Pattern::Node(_, args) => all_no_shift::<N>(args@),
        Pattern::G(..) => false,
    }
}

/// Whether no pattern of `s` has a shifted sub-pattern.
pub open spec fn all_no_shift<N: Analysis>(s: Seq<Pattern<N>>) -> bool
    decreases s,
{
    s.len() == 0 || (no_shift::<N>(s.last()) && all_no_shift::<N>(s.drop_last()))
}

pub proof fn lemma_all_no_shift<N: Analysis>(s: Seq<Pattern<N>>)
    ensures
        all_no_shift::<N>(s) <==> forall|i: int| 0 <= i < s.len() ==> #[trigger] no_shift::<N>(s[i]),
    decreases s.len(),
{
    if s.len() > 0 {
        let t = s.drop_last();
        lemma_all_no_shift::<N>(t);
        if forall|i: int| 0 <= i < s.len() ==> #[trigger] no_shift::<N>(s[i]) {
            assert forall|i: int| 0 <= i < t.len() implies #[trigger] no_shift::<N>(t[i]) by {
                assert(t[i] == s[i]);
            }
            assert(no_shift::<N>(s[s.len() - 1]));
        }
        if all_no_shift::<N>(s) {
            assert forall|i: int| 0 <= i < s.len() implies #[trigger] no_shift::<N>(s[i]) by {
                if i < s.len() - 1 {
                    assert(t[i] == s[i]);
                }
            }
        }
    }
}

/// Every e-class of the substitution exists.
pub open spec fn subst_in_range<G>(s: Seq<(Symbol, (G, Id))>, len: nat) -> bool {
    forall|k: int| 0 <= k < s.len() ==> (#[trigger] s[k]).1.1.0 < len
}

/// Every variable bound in `a` is bound in `b`.
pub open spec fn extends<G>(b: Seq<(Symbol, (G, Id))>, a: Seq<(Symbol, (G, Id))>) -> bool {
    forall|v: Symbol| bound_in(v, a) ==> #[trigger] bound_in(v, b)
}

/// `t` binds every variable that `s` binds, each to a value known equal to
/// its value in `s`.
pub open spec fn agrees<N: Analysis>(eg: EGraph<N>, t: Seq<(Symbol, (N::G, Id))>, s: Seq<(Symbol, (N::G, Id))>) -> bool {
    forall|name: Seq<char>|
        (#[trigger] binding_of(s, name)) is Some ==> binding_of(t, name) is Some && eg.unionfind().equal(
            binding_of(t, name)->Some_0,
            binding_of(s, name)->Some_0,
        )
}

/// The `k`-th e-node stored under the e-class of `gid`, seen from `gid`,
/// carries the unit and has the shape of `pn` and `nargs` children.
pub open spec fn node_fits<N: Analysis>(eg: EGraph<N>, gid: (N::G, Id), k: int, pn: N::L, nargs: nat) -> bool {
    let nodes = EGraph::<N>::bare_nodes(eg.entries(), gid.1);
    &&& 0 <= k < nodes.len()
    &&& N::G::op(gid.0@, nodes[k].0) == N::G::unit()
    &&& N::same_shape(nodes[k].1, pn)
    &&& N::kids_of(nodes[k].1).len() == nargs
}

/// `p` matches `gid` in `eg` under the bindings `t`, as `baseline_ematch`
/// matches: a variable is bound to a value known equal to `gid`, an
/// e-class of `eg`; an
/// e-node of the pattern meets an e-node of the e-class that carries the
/// unit when seen from `gid`, with each child matching its sub-pattern.
pub open spec fn bmatch<N: Analysis>(eg: EGraph<N>, p: Pattern<N>, gid: (N::G, Id), t: Seq<(Symbol, (N::G, Id))>) -> bool
    decreases p,
{
    match p {
        Pattern::PVar(v) => gid.1.0 < eg.unionfind().len() && binding_of(t, v@) is Some && eg.unionfind().equal(
            binding_of(t, v@)->Some_0,
            gid,
        ),
        Pattern::Node(pn, args) => exists|k: int|
            #[trigger] node_fits::<N>(eg, gid, k, pn, args@.len()) && all_bmatch::<N>(
                eg,
                args@,
                N::kids_of(EGraph::<N>::bare_nodes(eg.entries(), gid.1)[k].1),
                t,
            ),
        Pattern::G(..) => false,
    }
}

/// The `i`-th pattern of `args` matches the `i`-th child of `kids`.
pub open spec fn all_bmatch<N: Analysis>(
    eg: EGraph<N>,
    args: Seq<Pattern<N>>,
    kids: Seq<(N::G, Id)>,
    t: Seq<(Symbol, (N::G, Id))>,
) -> bool
    decreases args,
{
    args.len() == 0 || (bmatch::<N>(eg, args.last(), kids[args.len() - 1], t) && all_bmatch::<N>(
        eg,
        args.drop_last(),
        kids,
        t,
    ))
}

proof fn lemma_all_bmatch_at<N: Analysis>(
    eg: EGraph<N>,
    args: Seq<Pattern<N>>,
    kids: Seq<(N::G, Id)>,
    t: Seq<(Symbol, (N::G, Id))>,
    i: int,
)
    requires
        all_bmatch::<N>(eg, args, kids, t),
        0 <= i < args.len(),
    ensures
        bmatch::<N>(eg, args[i], kids[i], t),
    decreases args.len(),
{
    if i < args.len() - 1 {
        lemma_all_bmatch_at::<N>(eg, args.drop_last(), kids, t, i);
        assert(args.drop_last()[i] == args[i]);
    }
}

/// A match depends on `gid` through its view alone.
proof fn lemma_bmatch_view<N: Analysis>(eg: EGraph<N>, p: Pattern<N>, a: (N::G, Id), b: (N::G, Id), t: Seq<(Symbol, (N::G, Id))>)
    requires
        a.0@ == b.0@,
        a.1 == b.1,
        bmatch::<N>(eg, p, a, t),
    ensures
        bmatch::<N>(eg, p, b, t),
{
    match p {
        Pattern::Node(pn, args) => {
            let k = choose|k: int|
                #[trigger] node_fits::<N>(eg, a, k, pn, args@.len()) && all_bmatch::<N>(
                    eg,
                    args@,
                    N::kids_of(EGraph::<N>::bare_nodes(eg.entries(), a.1)[k].1),
                    t,
                );
            assert(node_fits::<N>(eg, b, k, pn, args@.len()));
        },
        _ => {},
    }
}

/// Known equality of bindings is transitive.
proof fn lemma_agrees_trans<N: Analysis>(
    eg: EGraph<N>,
    c: Seq<(Symbol, (N::G, Id))>,
    b: Seq<(Symbol, (N::G, Id))>,
    a: Seq<(Symbol, (N::G, Id))>,
)
    where N::S: SemilatticeLaws, N::G: GroupLaws,
    requires
        eg.wf(),
        agrees::<N>(eg, c, b),
        agrees::<N>(eg, b, a),
        subst_in_range(a, eg.unionfind().len()),
        subst_in_range(b, eg.unionfind().len()),
        subst_in_range(c, eg.unionfind().len()),
    ensures
        agrees::<N>(eg, c, a),
{
    assert forall|name: Seq<char>| (#[trigger] binding_of(a, name)) is Some implies binding_of(c, name) is Some
        && eg.unionfind().equal(binding_of(c, name)->Some_0, binding_of(a, name)->Some_0) by {
        let len = eg.unionfind().len();
        lemma_binding_range(a, name, len);
        lemma_binding_range(b, name, len);
        assert(binding_of(b, name) is Some);
        lemma_binding_range(c, name, len);
        eg.unionfind().lemma_equal_trans(binding_of(c, name)->Some_0, binding_of(b, name)->Some_0, binding_of(a, name)->Some_0);
    }
}

/// Bindings agree with themselves.
proof fn lemma_agrees_refl<N: Analysis>(eg: EGraph<N>, a: Seq<(Symbol, (N::G, Id))>)
    where N::S: SemilatticeLaws, N::G: GroupLaws,
    requires
        eg.wf(),
        subst_in_range(a, eg.unionfind().len()),
    ensures
        agrees::<N>(eg, a, a),
{
    assert forall|name: Seq<char>| (#[trigger] binding_of(a, name)) is Some implies binding_of(a, name) is Some
        && eg.unionfind().equal(binding_of(a, name)->Some_0, binding_of(a, name)->Some_0) by {
        lemma_binding_range(a, name, eg.unionfind().len());
        eg.unionfind().lemma_equal_refl(binding_of(a, name)->Some_0);
    }
}

/// A match stays a match under bindings that agree with its own.
proof fn lemma_bmatch_mono<N: Analysis>(
    eg: EGraph<N>,
    p: Pattern<N>,
    gid: (N::G, Id),
    a: Seq<(Symbol, (N::G, Id))>,
    b: Seq<(Symbol, (N::G, Id))>,
)
    where N::S: SemilatticeLaws, N::G: GroupLaws,
    requires
        eg.wf(),
        bmatch::<N>(eg, p, gid, a),
        agrees::<N>(eg, b, a),
        subst_in_range(a, eg.unionfind().len()),
        subst_in_range(b, eg.unionfind().len()),
    ensures
        bmatch::<N>(eg, p, gid, b),
    decreases p,
{
    match p {
        Pattern::PVar(v) => {
            let len = eg.unionfind().len();
            lemma_binding_range(a, v@, len);
            assert(binding_of(a, v@) is Some);
            lemma_binding_range(b, v@, len);
            eg.unionfind().lemma_equal_trans(binding_of(b, v@)->Some_0, binding_of(a, v@)->Some_0, gid);
        },
        Pattern::Node(pn, args) => {
            let k = choose|k: int|
                #[trigger] node_fits::<N>(eg, gid, k, pn, args@.len()) && all_bmatch::<N>(
                    eg,
                    args@,
                    N::kids_of(EGraph::<N>::bare_nodes(eg.entries(), gid.1)[k].1),
                    a,
                );
            lemma_all_bmatch_mono::<N>(eg, args@, N::kids_of(EGraph::<N>::bare_nodes(eg.entries(), gid.1)[k].1), a, b);
        },
        Pattern::G(..) => {},
    }
}

proof fn lemma_all_bmatch_mono<N: Analysis>(
    eg: EGraph<N>,
    args: Seq<Pattern<N>>,
    kids: Seq<(N::G, Id)>,
    a: Seq<(Symbol, (N::G, Id))>,
    b: Seq<(Symbol, (N::G, Id))>,
)
    where N::S: SemilatticeLaws, N::G: GroupLaws,
    requires
        eg.wf(),
        all_bmatch::<N>(eg, args, kids, a),
        agrees::<N>(eg, b, a),
        subst_in_range(a, eg.unionfind().len()),
        subst_in_range(b, eg.unionfind().len()),
    ensures
        all_bmatch::<N>(eg, args, kids, b),
    decreases args,
{
    if args.len() > 0 {
        lemma_bmatch_mono::<N>(eg, args.last(), kids[args.len() - 1], a, b);
        lemma_all_bmatch_mono::<N>(eg, args.drop_last(), kids, a, b);
    }
}

/// The patterns of `args` match the children of `kids` under `r`, whose
/// bindings agree with those of `subst`.
#[verifier::opaque]
pub open spec fn prefix_sound<N: Analysis>(
    eg: EGraph<N>,
    args: Seq<Pattern<N>>,
    kids: Seq<(N::G, Id)>,
    r: Seq<(Symbol, (N::G, Id))>,
    subst: Seq<(Symbol, (N::G, Id))>,
) -> bool {
    all_bmatch::<N>(eg, args, kids, r) && agrees::<N>(eg, r, subst)
}

/// `t` makes `pat` match the e-class `x`, seen through the unit.
pub open spec fn bmatch_at<N: Analysis>(eg: EGraph<N>, pat: Pattern<N>, x: Id, t: Seq<(Symbol, (N::G, Id))>) -> bool {
    exists|g: N::G| g@ == N::G::unit() && #[trigger] bmatch::<N>(eg, pat, (g, x), t)
}

/// `t` makes `pat` match some e-class, seen through the unit.
pub open spec fn bmatch_some<N: Analysis>(eg: EGraph<N>, pat: Pattern<N>, t: Seq<(Symbol, (N::G, Id))>) -> bool {
    exists|x: Id| #[trigger] bmatch_at::<N>(eg, pat, x, t)
}

/// `r` is a match of `pat` at `gid` (see `bmatch`) whose bindings agree
/// with those of `subst`.
#[verifier::opaque]
pub open spec fn sound_at<N: Analysis>(
    eg: EGraph<N>,
    pat: Pattern<N>,
    gid: (N::G, Id),
    r: Seq<(Symbol, (N::G, Id))>,
    subst: Seq<(Symbol, (N::G, Id))>,
) -> bool {
    bmatch::<N>(eg, pat, gid, r) && agrees::<N>(eg, r, subst)
}

/// A result of matching the children of the `k`-th e-node of the e-class
/// of `gid`, which carries the unit, is a match of the pattern e-node.
proof fn lemma_node_sound<N: Analysis>(
    eg: EGraph<N>,
    pat: Pattern<N>,
    gid: (N::G, Id),
    k: int,
    x: Seq<(Symbol, (N::G, Id))>,
    s: Seq<(Symbol, (N::G, Id))>,
    subst0: Seq<(Symbol, (N::G, Id))>,
)
    where N::S: SemilatticeLaws, N::G: GroupLaws,
    requires
        eg.wf(),
        pat is Node,
        node_fits::<N>(eg, gid, k, pat->Node_0, pat->Node_1@.len()),
        all_bmatch::<N>(eg, pat->Node_1@, N::kids_of(EGraph::<N>::bare_nodes(eg.entries(), gid.1)[k].1), x),
        agrees::<N>(eg, x, s),
        s.len() == subst0.len(),
        forall|i: int| 0 <= i < s.len() ==> (#[trigger] s[i]).0 == subst0[i].0 && s[i].1.0@ == subst0[i].1.0@ && s[i].1.1 == subst0[i].1.1,
    ensures
        sound_at::<N>(eg, pat, gid, x, subst0),
{
    reveal(sound_at);
    lemma_agrees_dup::<N>(eg, x, s, subst0);
}

/// Binding the variable of `pat` to (a copy of) `gid`, where it was unbound
/// or bound to a value known equal to `gid`, gives a match that agrees with
/// the bindings before.
proof fn lemma_pvar_sound<N: Analysis>(
    eg: EGraph<N>,
    pat: Pattern<N>,
    gid: (N::G, Id),
    gd: (N::G, Id),
    subst0: Seq<(Symbol, (N::G, Id))>,
    sv: Seq<(Symbol, (N::G, Id))>,
)
    where N::S: SemilatticeLaws, N::G: GroupLaws,
    requires
        eg.wf(),
        pat is PVar,
        gid.1.0 < eg.unionfind().len(),
        gd.0@ == gid.0@,
        gd.1 == gid.1,
        binding_of(sv, pat->PVar_0@) == Some(gd),
        forall|name: Seq<char>| name != pat->PVar_0@ ==> #[trigger] binding_of(sv, name) == binding_of(subst0, name),
        binding_of(subst0, pat->PVar_0@) is Some ==> eg.unionfind().equal(gid, binding_of(subst0, pat->PVar_0@)->Some_0),
        subst_in_range(subst0, eg.unionfind().len()),
    ensures
        sound_at::<N>(eg, pat, gid, sv, subst0),
{
    reveal(sound_at);
    let len = eg.unionfind().len();
    let v = pat->PVar_0;
    eg.unionfind().lemma_equal_refl(gid);
    assert forall|name: Seq<char>| (#[trigger] binding_of(subst0, name)) is Some implies binding_of(sv, name) is Some
        && eg.unionfind().equal(binding_of(sv, name)->Some_0, binding_of(subst0, name)->Some_0) by {
        lemma_binding_range(subst0, name, len);
        if name != v@ {
            eg.unionfind().lemma_equal_refl(binding_of(subst0, name)->Some_0);
        }
    }
}

/// Copies with the same names and views bind alike.
proof fn lemma_binding_dup<G: Group>(a: Seq<(Symbol, (G, Id))>, b: Seq<(Symbol, (G, Id))>, name: Seq<char>)
    requires
        a.len() == b.len(),
        forall|k: int| 0 <= k < a.len() ==> (#[trigger] b[k]).0 == a[k].0 && b[k].1.0@ == a[k].1.0@ && b[k].1.1 == a[k].1.1,
    ensures
        binding_of(a, name) is Some == binding_of(b, name) is Some,
        binding_of(a, name) is Some ==> binding_of(a, name)->Some_0.0@ == binding_of(b, name)->Some_0.0@
            && binding_of(a, name)->Some_0.1 == binding_of(b, name)->Some_0.1,
    decreases a.len(),
{
    if a.len() > 0 {
        lemma_binding_dup(a.drop_last(), b.drop_last(), name);
        assert(b.last() == b[b.len() - 1]);
    }
}

proof fn lemma_agrees_dup<N: Analysis>(eg: EGraph<N>, t: Seq<(Symbol, (N::G, Id))>, a: Seq<(Symbol, (N::G, Id))>, b: Seq<(Symbol, (N::G, Id))>)
    requires
        agrees::<N>(eg, t, a),
        a.len() == b.len(),
        forall|k: int| 0 <= k < a.len() ==> (#[trigger] b[k]).0 == a[k].0 && b[k].1.0@ == a[k].1.0@ && b[k].1.1 == a[k].1.1,
    ensures
        agrees::<N>(eg, t, b),
{
    assert forall|name: Seq<char>| (#[trigger] binding_of(b, name)) is Some implies binding_of(t, name) is Some
        && eg.unionfind().equal(binding_of(t, name)->Some_0, binding_of(b, name)->Some_0) by {
        lemma_binding_dup(a, b, name);
        assert(binding_of(a, name) is Some);
    }
}

/// What the first binding of the variable named `name` in `s` binds it to.
pub open spec fn binding_of<G>(s: Seq<(Symbol, (G, Id))>, name: Seq<char>) -> Option<(G, Id)>
    decreases s.len(),
{
    if s.len() == 0 {
        None
    } else {
        match binding_of(s.drop_last(), name) {
            Some(b) => Some(b),
            None => if s.last().0@ == name {
                Some(s.last().1)
            } else {
                None
            },
        }
    }
}

proof fn lemma_binding_range<G>(s: Seq<(Symbol, (G, Id))>, name: Seq<char>, len: nat)
    requires
        subst_in_range(s, len),
    ensures
        binding_of(s, name) is Some ==> binding_of(s, name)->Some_0.1.0 < len,
    decreases s.len(),
{
    if s.len() > 0 {
        lemma_binding_range(s.drop_last(), name, len);
        assert(s.last() == s[s.len() - 1]);
    }
}

proof fn lemma_binding_none<G>(s: Seq<(Symbol, (G, Id))>, name: Seq<char>)
    requires
        forall|j: int| 0 <= j < s.len() ==> (#[trigger] s[j]).0@ != name,
    ensures
        binding_of(s, name) is None,
    decreases s.len(),
{
    if s.len() > 0 {
        lemma_binding_none(s.drop_last(), name);
        assert(s.last() == s[s.len() - 1]);
    }
}

pub proof fn lemma_binding_first<G>(s: Seq<(Symbol, (G, Id))>, k: int, name: Seq<char>)
    requires
        0 <= k < s.len(),
        s[k].0@ == name,
        forall|j: int| 0 <= j < k ==> (#[trigger] s[j]).0@ != name,
    ensures
        binding_of(s, name) == Some(s[k].1),
    decreases s.len(),
{
    if k == s.len() - 1 {
        lemma_binding_none(s.drop_last(), name);
    } else {
        lemma_binding_first(s.drop_last(), k, name);
    }
}

proof fn lemma_binding_update<G>(s: Seq<(Symbol, (G, Id))>, k: int, e: (Symbol, (G, Id)), name: Seq<char>)
    requires
        0 <= k < s.len(),
        e.0@ == s[k].0@,
        name != e.0@,
    ensures
        binding_of(s.update(k, e), name) == binding_of(s, name),
    decreases s.len(),
{
    if k == s.len() - 1 {
        assert(s.update(k, e).drop_last() == s.drop_last());
    } else {
        lemma_binding_update(s.drop_last(), k, e, name);
        assert(s.update(k, e).drop_last() == s.drop_last().update(k, e));
    }
}

proof fn lemma_binding_push<G>(s: Seq<(Symbol, (G, Id))>, e: (Symbol, (G, Id)), name: Seq<char>)
    ensures
        binding_of(s.push(e), name) == (match binding_of(s, name) {
            Some(b) => Some(b),
            None => if e.0@ == name {
                Some(e.1)
            } else {
                None
            },
        }),
{
    assert(s.push(e).drop_last() == s);
}

/// Binds `v` to `gid`: replaces its binding, or adds one. Returns the
/// binding it replaced.
fn insert_binding<G: Group>(s: &mut Vec<(Symbol, (G, Id))>, v: &Symbol, gid: (G, Id)) -> (res: Option<(G, Id)>)
    ensures
        bound_in(*v, final(s)@),
        forall|w: Symbol| bound_in(w, old(s)@) ==> #[trigger] bound_in(w, final(s)@),
        forall|k: int|
            0 <= k < final(s)@.len() ==> (#[trigger] final(s)@[k]).1.1 == gid.1 || exists|j: int|
                0 <= j < old(s)@.len() && final(s)@[k] == old(s)@[j],
        res matches Some(old_gid) ==> exists|j: int|
            0 <= j < old(s)@.len() && (#[trigger] old(s)@[j]).0@ == v@ && old(s)@[j].1.0@ == old_gid.0@
                && old(s)@[j].1.1 == old_gid.1,
        binding_of(final(s)@, v@) == Some(gid),
        forall|name: Seq<char>| name != v@ ==> #[trigger] binding_of(final(s)@, name) == binding_of(old(s)@, name),
        res is Some == binding_of(old(s)@, v@) is Some,
        res matches Some(old_gid) ==> old_gid.0@ == binding_of(old(s)@, v@)->Some_0.0@
            && old_gid.1 == binding_of(old(s)@, v@)->Some_0.1,
{
    let mut k: usize = 0;
    while k < s.len()
        invariant
            k <= s@.len(),
            s@ == old(s)@,
            forall|j: int| 0 <= j < k ==> (#[trigger] s@[j]).0@ != v@,
        decreases s.len() - k,
    {
        if s[k].0.same(v) {
            let (g0, x0) = &s[k].1;
            let old_gid = (g0.duplicate(), *x0);
            let name = s[k].0.dup();
            let ghost before = s@;
            let ghost e = (name, gid);
            s.set(k, (name, gid));
            proof {
                assert(s@ == before.update(k as int, e));
                lemma_binding_first(before, k as int, v@);
                lemma_binding_first(s@, k as int, v@);
                assert forall|nm: Seq<char>| nm != v@ implies #[trigger] binding_of(s@, nm) == binding_of(before, nm) by {
                    lemma_binding_update(before, k as int, e, nm);
                }
                assert(s@[k as int].0@ == v@);
                assert forall|w: Symbol| bound_in(w, before) implies #[trigger] bound_in(w, s@) by {
                    let j = choose|j: int| 0 <= j < before.len() && (#[trigger] before[j]).0@ == w@;
                    if j == k {
                        assert(s@[j].0@ == w@);
                    } else {
                        assert(s@[j] == before[j]);
                    }
                }
                assert forall|i: int| 0 <= i < s@.len() implies (#[trigger] s@[i]).1.1 == gid.1
                    || exists|j: int| 0 <= j < before.len() && s@[i] == before[j] by {
                    if i != k {
                        assert(s@[i] == before[i]);
                    }
                }
            }
            return Some(old_gid);
        }
        k += 1;
    }
    let ghost before = s@;
    s.push((v.dup(), gid));
    proof {
        assert(s@ == before.push(s@.last()));
        lemma_binding_none(before, v@);
        lemma_binding_push(before, s@.last(), v@);
        assert forall|nm: Seq<char>| nm != v@ implies #[trigger] binding_of(s@, nm) == binding_of(before, nm) by {
            lemma_binding_push(before, s@.last(), nm);
        }
        assert(s@[s@.len() - 1].0@ == v@);
        assert forall|w: Symbol| bound_in(w, before) implies #[trigger] bound_in(w, s@) by {
            let j = choose|j: int| 0 <= j < before.len() && (#[trigger] before[j]).0@ == w@;
            assert(s@[j] == before[j]);
        }
        assert forall|i: int| 0 <= i < s@.len() implies (#[trigger] s@[i]).1.1 == gid.1 || exists|j: int|
            0 <= j < before.len() && s@[i] == before[j] by {
            if i < before.len() {
                assert(s@[i] == before[i]);
            }
        }
    }
    None
}

/// Binding more variables keeps those of a pattern bound.
pub proof fn lemma_vars_bound_mono<N: Analysis>(
    p: Pattern<N>,
    a: Seq<(Symbol, (N::G, Id))>,
    b: Seq<(Symbol, (N::G, Id))>,
)
    requires
        vars_bound::<N>(p, a),
        extends(b, a),
    ensures
        vars_bound::<N>(p, b),
    decreases p,
{
    match p {
        Pattern::PVar(v) => {
            assert(bound_in(v, b));
        },
        Pattern::Node(_, args) => {
            lemma_all_vars_bound_mono::<N>(args@, a, b);
        },
        Pattern::G(_, q) => {
            lemma_vars_bound_mono::<N>(*q, a, b);
        },
    }
}

pub proof fn lemma_all_vars_bound_mono<N: Analysis>(
    s: Seq<Pattern<N>>,
    a: Seq<(Symbol, (N::G, Id))>,
    b: Seq<(Symbol, (N::G, Id))>,
)
    requires
        all_vars_bound::<N>(s, a),
        extends(b, a),
    ensures
        all_vars_bound::<N>(s, b),
    decreases s,
{
    if s.len() > 0 {
        lemma_vars_bound_mono::<N>(s.last(), a, b);
        lemma_all_vars_bound_mono::<N>(s.drop_last(), a, b);
    }
}

/// A copy of the substitution, with the same names, views and e-classes.
fn dup_subst<G: Group>(s: &Vec<(Symbol, (G, Id))>) -> (res: Vec<(Symbol, (G, Id))>)
    ensures
        res@.len() == s@.len(),
        forall|k: int|
            0 <= k < s@.len() ==> (#[trigger] res@[k]).0 == s@[k].0 && res@[k].1.0@ == s@[k].1.0@
                && res@[k].1.1 == s@[k].1.1,
{
    let mut out: Vec<(Symbol, (G, Id))> = Vec::new();
    let mut i: usize = 0;
    while i < s.len()
        invariant
            i <= s@.len(),
            out@.len() == i,
            forall|k: int|
                0 <= k < i ==> (#[trigger] out@[k]).0 == s@[k].0 && out@[k].1.0@ == s@[k].1.0@
                    && out@[k].1.1 == s@[k].1.1,
        decreases s.len() - i,
    {
        let (v, (g, x)) = &s[i];
        out.push((v.dup(), (g.duplicate(), *x)));
        i += 1;
    }
    out
}

/// A copy binds what the copied bindings bind.
proof fn lemma_dup_subst<G: Group>(a: Seq<(Symbol, (G, Id))>, b: Seq<(Symbol, (G, Id))>, len: nat)
    requires
        a.len() == b.len(),
        forall|k: int| 0 <= k < a.len() ==> (#[trigger] b[k]).0 == a[k].0 && b[k].1.1 == a[k].1.1,
        subst_in_range(a, len),
    ensures
        extends(b, a),
        subst_in_range(b, len),
{
    assert forall|v: Symbol| bound_in(v, a) implies #[trigger] bound_in(v, b) by {
        let k = choose|k: int| 0 <= k < a.len() && (#[trigger] a[k]).0@ == v@;
        assert(b[k].0@ == v@);
    }
    assert forall|k: int| 0 <= k < b.len() implies (#[trigger] b[k]).1.1.0 < len by {
        assert(b[k].1.1 == a[k].1.1);
    }
}

/// Matches `pat` at `g*x` without looking through group elements: e-nodes
/// whose element is not the unit are passed over, and a pattern variable
/// seen again must stand for an equal e-class. Returns the substitutions
/// that extend `subst`.
#[verifier::loop_isolation(false)]
#[verifier::spinoff_prover]
#[verifier::rlimit(100)]
fn ematch_impl<N: Analysis>(
    gid: (N::G, Id),
    pat: &Pattern<N>,
    eg: &EGraph<N>,
    subst: Subst<N>,
) -> (res: Vec<Subst<N>>)
    where N::S: SemilatticeLaws, N::G: GroupLaws,
    requires
        eg.wf(),
        eg.canonical(),
        gid.1.0 < eg.unionfind().len(),
        eg.unionfind().is_root(gid.1.0 as nat),
        no_shift::<N>(*pat),
        subst_in_range(subst@, eg.unionfind().len()),
    ensures
        forall|k: int|
            0 <= k < res@.len() ==> subst_in_range((#[trigger] res@[k])@, eg.unionfind().len())
                && vars_bound::<N>(*pat, res@[k]@) && extends(res@[k]@, subst@),
        forall|t: Seq<(Symbol, (N::G, Id))>|
            #[trigger] bmatch::<N>(*eg, *pat, gid, t) && subst_in_range(t, eg.unionfind().len()) && agrees::<N>(*eg, t, subst@)
                ==> exists|k: int| 0 <= k < res@.len() && agrees::<N>(*eg, t, res@[k]@),
        forall|k: int|
            0 <= k < res@.len() ==> #[trigger] sound_at::<N>(*eg, *pat, gid, res@[k]@, subst@),
    decreases pat,
{
    let ghost subst0 = subst@;
    match pat {
        Pattern::PVar(var) => {
            let mut s = subst;
            let gd = (gid.0.duplicate(), gid.1);
            let ghost gd_g = gd;
            let old = insert_binding(&mut s, var, gd);
            match old {
                Some(o) => {
                    if !eg.is_equal(gid, o) {
                        proof {
                            assert forall|t: Seq<(Symbol, (N::G, Id))>|
                                #[trigger] bmatch::<N>(*eg, *pat, gid, t) && subst_in_range(t, eg.unionfind().len())
                                    && agrees::<N>(*eg, t, subst0) implies false by {
                                let tv = binding_of(t, var@)->Some_0;
                                let ob = binding_of(subst0, var@)->Some_0;
                                lemma_binding_range(t, var@, eg.unionfind().len());
                                lemma_binding_range(subst0, var@, eg.unionfind().len());
                                eg.unionfind().lemma_equal_sym(tv, gid);
                                eg.unionfind().lemma_equal_trans(gid, tv, ob);
                            }
                        }
                        return Vec::new();
                    }
                },
                None => {},
            }
            let mut out: Vec<Subst<N>> = Vec::new();
            let ghost sv = s@;
            out.push(s);
            proof {
                assert forall|t: Seq<(Symbol, (N::G, Id))>|
                    #[trigger] bmatch::<N>(*eg, *pat, gid, t) && subst_in_range(t, eg.unionfind().len())
                        && agrees::<N>(*eg, t, subst0) implies exists|k: int| 0 <= k < out@.len() && agrees::<N>(*eg, t, out@[k]@) by {
                    assert forall|name: Seq<char>| (#[trigger] binding_of(sv, name)) is Some implies binding_of(t, name) is Some
                        && eg.unionfind().equal(binding_of(t, name)->Some_0, binding_of(sv, name)->Some_0) by {
                        if name != var@ {
                            assert(binding_of(sv, name) == binding_of(subst0, name));
                        }
                    }
                    assert(out@[0]@ == sv);
                }
                lemma_pvar_sound::<N>(*eg, *pat, gid, gd_g, subst0, sv);
                assert(out@[0]@ == sv);
            }
            out
        },
        Pattern::Node(pn, pargs) => {
            let nodes = eg.nodes_of((gid.0.duplicate(), gid.1));
            let mut out: Vec<Subst<N>> = Vec::new();
            let mut k: usize = 0;
            while k < nodes.len()
                invariant
                    k <= nodes@.len(),
                    forall|j: int|
                        0 <= j < out@.len() ==> subst_in_range(
                            (#[trigger] out@[j])@,
                            eg.unionfind().len(),
                        ) && all_vars_bound::<N>(pargs@, out@[j]@) && extends(out@[j]@, subst@),
                    forall|t: Seq<(Symbol, (N::G, Id))>, k0: int|
                        0 <= k0 < k && node_fits::<N>(*eg, gid, k0, *pn, pargs@.len()) && #[trigger] all_bmatch::<N>(
                            *eg,
                            pargs@,
                            N::kids_of(EGraph::<N>::bare_nodes(eg.entries(), gid.1)[k0].1),
                            t,
                        ) && subst_in_range(t, eg.unionfind().len()) && agrees::<N>(*eg, t, subst0) ==> exists|j: int|
                            0 <= j < out@.len() && agrees::<N>(*eg, t, out@[j]@),
                    forall|j: int|
                        0 <= j < out@.len() ==> #[trigger] sound_at::<N>(*eg, *pat, gid, out@[j]@, subst0),
                    subst_in_range(subst0, eg.unionfind().len()),
                decreases nodes.len() - k,
            {
                let ghost before0 = out@;
                let (g, n) = &nodes[k];
                if g.is_unit() {
                    proof {
                        EGraph::<N>::lemma_bare_nodes(eg.entries(), gid.1, k as int);
                        let i = choose|i: int|
                            0 <= i < eg.entries().len() && (#[trigger] eg.entries()[i]).0
                                == EGraph::<N>::bare_nodes(eg.entries(), gid.1)[k as int].1
                                && eg.entries()[i].1.1 == gid.1;
                        N::lemma_children_below(eg.entries()[i].0, eg.unionfind().len());
                        assert forall|c: int| 0 <= c < N::kids_of(*n).len() implies eg.unionfind().is_root(
                            (#[trigger] N::kids_of(*n)[c]).1.0 as nat,
                        ) by {
                            assert(N::kids_of(eg.entries()[i].0)[c] == N::kids_of(*n)[c]);
                        }
                        lemma_all_no_shift::<N>(pargs@);
                    }
                    let s = dup_subst(&subst);
                    proof {
                        lemma_dup_subst(subst@, s@, eg.unionfind().len());
                    }
                    let mut r = ematch_node(n, pn, pargs, eg, s);
                    let ghost before = out@;
                    let ghost rr = r@;
                    out.append(&mut r);
                    proof {
                        assert forall|t: Seq<(Symbol, (N::G, Id))>|
                            #[trigger] all_bmatch::<N>(*eg, pargs@, N::kids_of(*n), t) && subst_in_range(t, eg.unionfind().len())
                                && agrees::<N>(*eg, t, subst0) && N::same_shape(*n, *pn) && N::kids_of(*n).len() == pargs@.len()
                                implies exists|j: int| 0 <= j < out@.len() && agrees::<N>(*eg, t, out@[j]@) by {
                            lemma_agrees_dup::<N>(*eg, t, subst0, s@);
                            let q = choose|q: int| 0 <= q < rr.len() && agrees::<N>(*eg, t, rr[q]@);
                            assert(out@[before.len() + q] == rr[q]);
                        }
                        assert forall|j: int| 0 <= j < out@.len() implies #[trigger] sound_at::<N>(*eg, *pat, gid, out@[j]@, subst0) by {
                            if j < before.len() {
                                assert(out@[j] == before[j]);
                                assert(sound_at::<N>(*eg, *pat, gid, before[j]@, subst0));
                            } else {
                                let x = out@[j]@;
                                assert(x == rr[j - before.len()]@);
                                assert(node_fits::<N>(*eg, gid, k as int, *pn, pargs@.len()));
                                assert(prefix_sound::<N>(*eg, pargs@, N::kids_of(*n), rr[j - before.len()]@, s@));
                                reveal(prefix_sound);
                                lemma_node_sound::<N>(*eg, *pat, gid, k as int, x, s@, subst0);
                            }
                        }
                    }
                    proof {
                        assert forall|j: int| 0 <= j < out@.len() implies subst_in_range(
                            (#[trigger] out@[j])@,
                            eg.unionfind().len(),
                        ) && all_vars_bound::<N>(pargs@, out@[j]@) && extends(out@[j]@, subst@) by {
                            if j >= before.len() {
                                let x = out@[j]@;
                                assert(extends(x, subst@)) by {
                                    assert forall|v: Symbol| bound_in(v, subst@) implies #[trigger] bound_in(v, x) by {
                                        assert(bound_in(v, s@));
                                    }
                                }
                            }
                        }
                    }
                }
                proof {
                    assert forall|t: Seq<(Symbol, (N::G, Id))>, k0: int|
                        0 <= k0 < k + 1 && node_fits::<N>(*eg, gid, k0, *pn, pargs@.len()) && #[trigger] all_bmatch::<N>(
                            *eg,
                            pargs@,
                            N::kids_of(EGraph::<N>::bare_nodes(eg.entries(), gid.1)[k0].1),
                            t,
                        ) && subst_in_range(t, eg.unionfind().len()) && agrees::<N>(*eg, t, subst0) implies exists|j: int|
                            0 <= j < out@.len() && agrees::<N>(*eg, t, out@[j]@) by {
                        if k0 < k {
                            let j = choose|j: int| 0 <= j < before0.len() && agrees::<N>(*eg, t, before0[j]@);
                            assert(out@[j] == before0[j]);
                        } else {
                            assert(nodes@[k0].0@ == N::G::op(gid.0@, EGraph::<N>::bare_nodes(eg.entries(), gid.1)[k0].0));
                        }
                    }
                    assert forall|j: int| 0 <= j < out@.len() implies #[trigger] sound_at::<N>(*eg, *pat, gid, out@[j]@, subst0) by {
                        if j < before0.len() {
                            assert(out@[j] == before0[j]);
                            assert(sound_at::<N>(*eg, *pat, gid, before0[j]@, subst0));
                        } else {
                            assert(g@ == N::G::unit());
                        }
                    }
                }
                k += 1;
            }
            proof {
                assert forall|t: Seq<(Symbol, (N::G, Id))>|
                    #[trigger] bmatch::<N>(*eg, *pat, gid, t) && subst_in_range(t, eg.unionfind().len())
                        && agrees::<N>(*eg, t, subst0) implies exists|j: int| 0 <= j < out@.len() && agrees::<N>(*eg, t, out@[j]@) by {
                    let k0 = choose|k0: int|
                        #[trigger] node_fits::<N>(*eg, gid, k0, *pn, pargs@.len()) && all_bmatch::<N>(
                            *eg,
                            pargs@,
                            N::kids_of(EGraph::<N>::bare_nodes(eg.entries(), gid.1)[k0].1),
                            t,
                        );
                }
            }
            out
        },
        Pattern::G(..) => {
            proof {
                assert(false);
            }
            Vec::new()
        },
    }
}

/// Matches the e-node `n` against the pattern e-node `pn` and its
/// sub-patterns `pargs`, child by child.
#[verifier::loop_isolation(false)]
fn ematch_node<N: Analysis>(
    n: &N::L,
    pn: &N::L,
    pargs: &Vec<Pattern<N>>,
    eg: &EGraph<N>,
    subst: Subst<N>,
) -> (res: Vec<Subst<N>>)
    where N::S: SemilatticeLaws, N::G: GroupLaws,
    requires
        eg.wf(),
        eg.canonical(),
        N::children_below(*n, eg.unionfind().len()),
        forall|c: int|
            0 <= c < N::kids_of(*n).len() ==> eg.unionfind().is_root(
                (#[trigger] N::kids_of(*n)[c]).1.0 as nat,
            ),
        forall|i: int| 0 <= i < pargs@.len() ==> #[trigger] no_shift::<N>(pargs@[i]),
        subst_in_range(subst@, eg.unionfind().len()),
    ensures
        forall|k: int|
            0 <= k < res@.len() ==> subst_in_range((#[trigger] res@[k])@, eg.unionfind().len())
                && all_vars_bound::<N>(pargs@, res@[k]@) && extends(res@[k]@, subst@),
        forall|t: Seq<(Symbol, (N::G, Id))>|
            #[trigger] all_bmatch::<N>(*eg, pargs@, N::kids_of(*n), t) && N::same_shape(*n, *pn) && N::kids_of(*n).len()
                == pargs@.len() && subst_in_range(t, eg.unionfind().len()) && agrees::<N>(*eg, t, subst@) ==> exists|k: int|
                0 <= k < res@.len() && agrees::<N>(*eg, t, res@[k]@),
        res@.len() > 0 ==> N::same_shape(*n, *pn) && N::kids_of(*n).len() == pargs@.len(),
        forall|k: int|
            0 <= k < res@.len() ==> #[trigger] prefix_sound::<N>(*eg, pargs@, N::kids_of(*n), res@[k]@, subst@),
    decreases pargs,
{
    let ghost subst0 = subst@;
    if !N::nodes_match(n, pn) {
        return Vec::new();
    }
    let kids = N::children(n);
    if kids.len() != pargs.len() {
        return Vec::new();
    }
    proof {
        N::lemma_children_below(*n, eg.unionfind().len());
    }
    let mut out: Vec<Subst<N>> = Vec::new();
    out.push(subst);
    proof {
        assert(out@[0]@ == subst0);
        lemma_agrees_refl::<N>(*eg, subst0);
        assert(pargs@.take(0).len() == 0);
        reveal(prefix_sound);
        assert(prefix_sound::<N>(*eg, pargs@.take(0), N::kids_of(*n), out@[0]@, subst0));
    }
    let mut i: usize = 0;
    while i < kids.len()
        invariant
            i <= kids@.len(),
            kids@ == N::kids_of(*n),
            kids@.len() == pargs@.len(),
            forall|j: int|
                0 <= j < out@.len() ==> subst_in_range((#[trigger] out@[j])@, eg.unionfind().len())
                    && extends(out@[j]@, subst@) && forall|p: int|
                    0 <= p < i ==> #[trigger] vars_bound::<N>(pargs@[p], out@[j]@),
            forall|j: int| 0 <= j < pargs@.len() ==> decreases_to!(*pargs => pargs@[j]),
            forall|t: Seq<(Symbol, (N::G, Id))>|
                #[trigger] all_bmatch::<N>(*eg, pargs@, N::kids_of(*n), t) && subst_in_range(t, eg.unionfind().len())
                    && agrees::<N>(*eg, t, subst0) ==> exists|j: int| 0 <= j < out@.len() && agrees::<N>(*eg, t, out@[j]@),
            forall|j: int|
                0 <= j < out@.len() ==> #[trigger] prefix_sound::<N>(*eg, pargs@.take(i as int), N::kids_of(*n), out@[j]@, subst0),
            subst_in_range(subst0, eg.unionfind().len()),
        decreases kids.len() - i,
    {
        let mut next: Vec<Subst<N>> = Vec::new();
        let mut j: usize = 0;
        while j < out.len()
            invariant
                j <= out@.len(),
                forall|q: int|
                    0 <= q < next@.len() ==> subst_in_range(
                        (#[trigger] next@[q])@,
                        eg.unionfind().len(),
                    ) && extends(next@[q]@, subst@) && forall|p: int|
                        0 <= p < i + 1 ==> #[trigger] vars_bound::<N>(pargs@[p], next@[q]@),
                forall|t: Seq<(Symbol, (N::G, Id))>, j0: int|
                    all_bmatch::<N>(*eg, pargs@, N::kids_of(*n), t) && subst_in_range(t, eg.unionfind().len()) && 0 <= j0 < j
                        && #[trigger] agrees::<N>(*eg, t, out@[j0]@) ==> exists|q: int| 0 <= q < next@.len() && agrees::<N>(
                        *eg,
                        t,
                        next@[q]@,
                    ),
                forall|q: int|
                    0 <= q < next@.len() ==> #[trigger] prefix_sound::<N>(*eg, pargs@.take(i + 1), N::kids_of(*n), next@[q]@, subst0),
            decreases out.len() - j,
        {
            let s = dup_subst(&out[j]);
            proof {
                lemma_dup_subst(out@[j as int]@, s@, eg.unionfind().len());
            }
            let (cg, cid) = &kids[i];
            let ghost sv = s@;
            let cgid = (cg.duplicate(), *cid);
            let ghost cgid_g = cgid;
            let mut r = ematch_impl(cgid, &pargs[i], eg, s);
            let ghost before = next@;
            let ghost rr = r@;
            next.append(&mut r);
            proof {
                assert forall|t: Seq<(Symbol, (N::G, Id))>, j0: int|
                    all_bmatch::<N>(*eg, pargs@, N::kids_of(*n), t) && subst_in_range(t, eg.unionfind().len()) && 0 <= j0 < j + 1
                        && #[trigger] agrees::<N>(*eg, t, out@[j0]@) implies exists|q: int| 0 <= q < next@.len() && agrees::<N>(
                        *eg,
                        t,
                        next@[q]@,
                    ) by {
                    if j0 < j {
                        let q = choose|q: int| 0 <= q < before.len() && agrees::<N>(*eg, t, before[q]@);
                        assert(next@[q] == before[q]);
                    } else {
                        lemma_agrees_dup::<N>(*eg, t, out@[j0]@, sv);
                        lemma_all_bmatch_at::<N>(*eg, pargs@, N::kids_of(*n), t, i as int);
                        lemma_bmatch_view::<N>(*eg, pargs@[i as int], kids@[i as int], cgid_g, t);
                        let q = choose|q: int| 0 <= q < rr.len() && agrees::<N>(*eg, t, rr[q]@);
                        assert(next@[before.len() + q] == rr[q]);
                    }
                }
                assert forall|q: int| 0 <= q < next@.len() implies #[trigger] prefix_sound::<N>(
                    *eg,
                    pargs@.take(i + 1),
                    N::kids_of(*n),
                    next@[q]@,
                    subst0,
                ) by {
                    if q < before.len() {
                        assert(next@[q] == before[q]);
                        assert(prefix_sound::<N>(*eg, pargs@.take(i + 1), N::kids_of(*n), before[q]@, subst0));
                    } else {
                        let x = next@[q]@;
                        let o = out@[j as int]@;
                        assert(x == rr[q - before.len()]@);
                        assert(sound_at::<N>(*eg, pargs@[i as int], cgid_g, rr[q - before.len()]@, sv));
                        reveal(sound_at);
                        lemma_agrees_dup::<N>(*eg, x, sv, o);
                        assert(prefix_sound::<N>(*eg, pargs@.take(i as int), N::kids_of(*n), o, subst0));
                        reveal(prefix_sound);
                        lemma_agrees_trans::<N>(*eg, x, o, subst0);
                        lemma_all_bmatch_mono::<N>(*eg, pargs@.take(i as int), N::kids_of(*n), o, x);
                        lemma_bmatch_view::<N>(*eg, pargs@[i as int], cgid_g, kids@[i as int], x);
                        assert(pargs@.take(i + 1).drop_last() =~= pargs@.take(i as int));
                        assert(pargs@.take(i + 1).last() == pargs@[i as int]);
                        assert(prefix_sound::<N>(*eg, pargs@.take(i + 1), N::kids_of(*n), x, subst0));
                    }
                }
            }
            proof {
                assert forall|q: int| 0 <= q < next@.len() implies subst_in_range(
                    (#[trigger] next@[q])@,
                    eg.unionfind().len(),
                ) && extends(next@[q]@, subst@) && forall|p: int|
                    0 <= p < i + 1 ==> #[trigger] vars_bound::<N>(pargs@[p], next@[q]@) by {
                    if q >= before.len() {
                        let x = next@[q]@;
                        let o = out@[j as int]@;
                        assert(extends(x, o)) by {
                            assert forall|v: Symbol| bound_in(v, o) implies #[trigger] bound_in(v, x) by {
                                assert(bound_in(v, s@));
                            }
                        }
                        assert(extends(x, subst@)) by {
                            assert forall|v: Symbol| bound_in(v, subst@) implies #[trigger] bound_in(v, x) by {
                                assert(bound_in(v, o));
                            }
                        }
                        assert forall|p: int| 0 <= p < i + 1 implies #[trigger] vars_bound::<N>(
                            pargs@[p],
                            x,
                        ) by {
                            if p < i {
                                lemma_vars_bound_mono::<N>(pargs@[p], o, x);
                            }
                        }
                    }
                }
            }
            j += 1;
        }
        out = next;
        i += 1;
    }
    proof {
        assert forall|j: int| 0 <= j < out@.len() implies #[trigger] all_vars_bound::<N>(pargs@, out@[j]@) by {
            lemma_all_vars_bound::<N>(pargs@, out@[j]@);
        }
        assert(pargs@.take(i as int) =~= pargs@);
    }
    out
}

/// Matches `pat` at the e-class `x`, seen through the unit: for every
/// bindings `t` under which `pat` matches there (see `bmatch`), some result
/// binds each of its variables to a value known equal to that of `t`.
pub fn baseline_ematch<N: Analysis>(x: Id, pat: &Pattern<N>, eg: &EGraph<N>) -> (res: Vec<Subst<N>>)
    where N::S: SemilatticeLaws, N::G: GroupLaws,
    requires
        eg.wf(),
        eg.canonical(),
        x.0 < eg.unionfind().len(),
        eg.unionfind().is_root(x.0 as nat),
        no_shift::<N>(*pat),
    ensures
        forall|k: int|
            0 <= k < res@.len() ==> subst_in_range((#[trigger] res@[k])@, eg.unionfind().len())
                && vars_bound::<N>(*pat, res@[k]@),
        forall|g: N::G, t: Seq<(Symbol, (N::G, Id))>|
            g@ == N::G::unit() && #[trigger] bmatch::<N>(*eg, *pat, (g, x), t) && subst_in_range(t, eg.unionfind().len())
                ==> exists|k: int| 0 <= k < res@.len() && agrees::<N>(*eg, t, res@[k]@),
        forall|k: int| 0 <= k < res@.len() ==> #[trigger] bmatch_at::<N>(*eg, *pat, x, res@[k]@),
{
    let subst: Subst<N> = Vec::new();
    let gid = (N::G::identity(), x);
    proof {
        assert forall|t: Seq<(Symbol, (N::G, Id))>| #[trigger] agrees::<N>(*eg, t, subst@) by {
            assert forall|name: Seq<char>| #[trigger] binding_of(subst@, name) is None by {}
        }
        assert forall|g: N::G, t: Seq<(Symbol, (N::G, Id))>|
            g@ == N::G::unit() && #[trigger] bmatch::<N>(*eg, *pat, (g, x), t) implies bmatch::<N>(*eg, *pat, gid, t) by {
            lemma_bmatch_view::<N>(*eg, *pat, (g, x), gid, t);
        }
    }
    let ghost gid_g = gid;
    let res = ematch_impl(gid, pat, eg, subst);
    proof {
        assert forall|k: int| 0 <= k < res@.len() implies #[trigger] bmatch_at::<N>(*eg, *pat, x, res@[k]@) by {
            assert(sound_at::<N>(*eg, *pat, gid_g, res@[k]@, Seq::empty()));
            reveal(sound_at);
        }
    }
    res
}

/// Matches `pat` at every e-class, with the same promise as
/// `baseline_ematch` at each.
pub fn ematch_all<N: Analysis>(eg: &EGraph<N>, pat: &Pattern<N>) -> (res: Vec<Subst<N>>)
    where N::S: SemilatticeLaws, N::G: GroupLaws,
    requires
        eg.wf(),
        eg.canonical(),
        no_shift::<N>(*pat),
    ensures
        forall|k: int|
            0 <= k < res@.len() ==> subst_in_range((#[trigger] res@[k])@, eg.unionfind().len())
                && vars_bound::<N>(*pat, res@[k]@),
        forall|g: N::G, x: Id, t: Seq<(Symbol, (N::G, Id))>|
            x.0 < eg.unionfind().len() && eg.unionfind().is_root(x.0 as nat) && g@ == N::G::unit()
                && #[trigger] bmatch::<N>(*eg, *pat, (g, x), t) && subst_in_range(t, eg.unionfind().len())
                ==> exists|k: int| 0 <= k < res@.len() && agrees::<N>(*eg, t, res@[k]@),
        forall|k: int| 0 <= k < res@.len() ==> #[trigger] bmatch_some::<N>(*eg, *pat, res@[k]@),
{
    let classes = eg.classes();
    let mut out: Vec<Subst<N>> = Vec::new();
    let mut i: usize = 0;
    while i < classes.len()
        invariant
            i <= classes@.len(),
            eg.wf(),
            eg.canonical(),
            no_shift::<N>(*pat),
            forall|k: int|
                0 <= k < classes@.len() ==> (#[trigger] classes@[k]).0 < eg.unionfind().len()
                    && eg.unionfind().is_root(classes@[k].0 as nat),
            forall|k: int|
                0 <= k < out@.len() ==> subst_in_range((#[trigger] out@[k])@, eg.unionfind().len())
                    && vars_bound::<N>(*pat, out@[k]@),
            forall|k: int| 0 <= k < out@.len() ==> #[trigger] bmatch_some::<N>(*eg, *pat, out@[k]@),
            forall|g: N::G, j: int, t: Seq<(Symbol, (N::G, Id))>|
                0 <= j < i && g@ == N::G::unit() && #[trigger] bmatch::<N>(*eg, *pat, (g, classes@[j]), t)
                    && subst_in_range(t, eg.unionfind().len()) ==> exists|k: int| 0 <= k < out@.len() && agrees::<N>(
                    *eg,
                    t,
                    out@[k]@,
                ),
        decreases classes.len() - i,
    {
        let mut r = baseline_ematch(classes[i], pat, eg);
        let ghost before = out@;
        let ghost rr = r@;
        out.append(&mut r);
        proof {
            assert forall|g: N::G, j: int, t: Seq<(Symbol, (N::G, Id))>|
                0 <= j < i + 1 && g@ == N::G::unit() && #[trigger] bmatch::<N>(*eg, *pat, (g, classes@[j]), t)
                    && subst_in_range(t, eg.unionfind().len()) implies exists|k: int| 0 <= k < out@.len() && agrees::<N>(
                    *eg,
                    t,
                    out@[k]@,
                ) by {
                if j < i {
                    let k = choose|k: int| 0 <= k < before.len() && agrees::<N>(*eg, t, before[k]@);
                    assert(out@[k] == before[k]);
                } else {
                    let k = choose|k: int| 0 <= k < rr.len() && agrees::<N>(*eg, t, rr[k]@);
                    assert(out@[before.len() + k] == rr[k]);
                }
            }
            assert forall|k: int| 0 <= k < out@.len() implies #[trigger] bmatch_some::<N>(*eg, *pat, out@[k]@) by {
                if k < before.len() {
                    assert(out@[k] == before[k]);
                    assert(bmatch_some::<N>(*eg, *pat, before[k]@));
                } else {
                    assert(out@[k] == rr[k - before.len()]);
                    assert(bmatch_at::<N>(*eg, *pat, classes@[i as int], rr[k - before.len()]@));
                }
            }
        }
        i += 1;
    }
    proof {
        assert forall|g: N::G, x: Id, t: Seq<(Symbol, (N::G, Id))>|
            x.0 < eg.unionfind().len() && eg.unionfind().is_root(x.0 as nat) && g@ == N::G::unit()
                && #[trigger] bmatch::<N>(*eg, *pat, (g, x), t) && subst_in_range(t, eg.unionfind().len())
                implies exists|k: int| 0 <= k < out@.len() && agrees::<N>(*eg, t, out@[k]@) by {
            assert(classes@.contains(Id(x.0 as usize)));
            let j = choose|j: int| 0 <= j < classes@.len() && classes@[j] == Id(x.0 as usize);
            assert(classes@[j] == x);
            assert(bmatch::<N>(*eg, *pat, (g, classes@[j]), t));
        }
    }
    out
}

} // verus!
