use vstd::prelude::*;
use crate::api::Id;
use crate::baseline_ematch::no_shift;
use crate::cases::offset::analysis::{OffsetAnalysis, OffsetLang};
use crate::cases::offset::{
    resolve, simplify_spec, solve, solve_spec, subst_view, sv_add, sv_scale, vals_of, GVar, SymOffset,
    SymVal,
};
use crate::egraph::EGraph;
use crate::ematch::{
    all_match, all_same, ids_below, id_of, lemma_all_match, same_skel, skel_in, skel_matches, skeleton_ematch, Pattern,
    Skel, Subst,
};
use crate::offset::Offset;
use crate::symbol::Symbol;

verus! {

/// The constraints collected so far (each says that a combination is zero),
/// the pattern variables with their symbolic offsets and e-classes, and the
/// next fresh variable.
pub type RecState = (Seq<SymVal>, Seq<(Symbol, (SymVal, Id))>, GVar);

/// The constant `c`.
pub open spec fn const_val(c: i64) -> SymVal {
    (c, Map::empty())
}

/// The variable `v`.
pub open spec fn var_val(v: GVar) -> SymVal {
    (0, Map::empty().insert(v, 1i64))
}

/// The variable after `v`.
pub open spec fn next_gvar(v: GVar) -> GVar {
    if v == usize::MAX {
        0
    } else {
        (v + 1) as usize
    }
}

/// The position of the first binding of the variable named `name`.
pub open spec fn first_binding(s: Seq<(Symbol, (SymVal, Id))>, name: Seq<char>) -> Option<int> {
    if exists|i: int| 0 <= i < s.len() && (#[trigger] s[i]).0@ == name {
        Some(
            choose|i: int|
                0 <= i < s.len() && (#[trigger] s[i]).0@ == name && forall|j: int|
                    0 <= j < i ==> s[j].0@ != name,
        )
    } else {
        None
    }
}

/// The constraints that the match `sk` of `p` adds, reached with the
/// symbolic offset `in_g`: a pattern variable seen again says that its two
/// offsets are equal; a constant matched by a constant says that the offset
/// makes up their difference; any other e-node says that its offset and the
/// fresh variables of its children (one each below a sum, none below
/// anything else) add up to zero.
pub open spec fn record_spec(
    in_g: SymVal,
    sk: Skel<OffsetAnalysis>,
    p: Pattern<OffsetAnalysis>,
    st: RecState,
) -> RecState
    decreases sk,
{
    match sk {
        Skel::PVar(x) => match p {
            Pattern::PVar(v) => match first_binding(st.1, v@) {
                Some(i) => (
                    st.0.push(sv_add(sv_scale(st.1[i].1.0, -1i64), in_g)),
                    st.1.update(i, (v, (in_g, x))),
                    st.2,
                ),
                None => (st.0, st.1.push((v, (in_g, x))), st.2),
            },
            _ => st,
        },
        Skel::Node(g, n, ch) => match p {
            Pattern::Node(pn, args) => {
                let g2 = sv_add(in_g, const_val(g.0));
                let diff = match n {
                    OffsetLang::Const(c1) => match pn {
                        OffsetLang::Const(c2) => Some(c1.wrapping_sub(c2)),
                        _ => None,
                    },
                    _ => None,
                };
                match diff {
                    Some(d) => (st.0.push(sv_add(g2, const_val(d))), st.1, st.2),
                    None => {
                        let r = record_children(ch@, args@, n is Add, st, g2);
                        (r.0.0.push(r.1), r.0.1, r.0.2)
                    },
                }
            },
            _ => st,
        },
    }
}

/// The constraints of the child matches `cs` against `args`, in order, as
/// far as both go. A child `o*y` is reached with the offset `o`, plus a fresh
/// variable below a sum; `constr` collects the sum of those variables.
pub open spec fn record_children(
    cs: Seq<(Offset, Option<i64>, Skel<OffsetAnalysis>)>,
    args: Seq<Pattern<OffsetAnalysis>>,
    is_add: bool,
    st: RecState,
    constr: SymVal,
) -> (RecState, SymVal)
    decreases cs,
{
    if cs.len() == 0 || args.len() == 0 {
        (st, constr)
    } else {
        let o = const_val(cs[0].0.0);
        let gg = if is_add {
            sv_add(var_val(st.2), o)
        } else {
            o
        };
        let constr2 = if is_add {
            sv_add(constr, var_val(st.2))
        } else {
            constr
        };
        let st1 = if is_add {
            (st.0, st.1, next_gvar(st.2))
        } else {
            st
        };
        let st2 = record_spec(gg, cs[0].2, args[0], st1);
        record_children(cs.drop_first(), args.drop_first(), is_add, st2, constr2)
    }
}

/// Alike child matches are alike one by one.
proof fn lemma_all_same_at(
    c1: Seq<(Offset, Option<i64>, Skel<OffsetAnalysis>)>,
    c2: Seq<(Offset, Option<i64>, Skel<OffsetAnalysis>)>,
)
    requires
        all_same::<OffsetAnalysis>(c1, c2),
    ensures
        c1.len() == c2.len(),
        forall|i: int| 0 <= i < c1.len() ==> (#[trigger] c1[i]).0 == c2[i].0 && same_skel::<OffsetAnalysis>(c1[i].2, c2[i].2),
    decreases c1.len(),
{
    if c1.len() > 0 {
        lemma_all_same_at(c1.drop_last(), c2.drop_last());
        assert forall|i: int| 0 <= i < c1.len() implies (#[trigger] c1[i]).0 == c2[i].0 && same_skel::<OffsetAnalysis>(c1[i].2, c2[i].2) by {
            if i < c1.len() - 1 {
                assert(c1.drop_last()[i] == c1[i]);
                assert(c2.drop_last()[i] == c2[i]);
            }
        }
    }
}

/// Alike matches record the same constraints and bindings.
proof fn lemma_record_same(in_g: SymVal, a: Skel<OffsetAnalysis>, b: Skel<OffsetAnalysis>, p: Pattern<OffsetAnalysis>, st: RecState)
    requires
        same_skel::<OffsetAnalysis>(a, b),
    ensures
        record_spec(in_g, a, p, st) == record_spec(in_g, b, p, st),
    decreases a,
{
    match a {
        Skel::PVar(_) => {},
        Skel::Node(g, n, ch) => match b {
            Skel::Node(g2, n2, ch2) => match p {
                Pattern::Node(pn, args) => {
                    lemma_all_same_at(ch@, ch2@);
                    lemma_children_same(ch@, ch2@, args@, n is Add, st, sv_add(in_g, const_val(g.0)));
                },
                _ => {},
            },
            _ => {},
        },
    }
}

proof fn lemma_children_same(
    c1: Seq<(Offset, Option<i64>, Skel<OffsetAnalysis>)>,
    c2: Seq<(Offset, Option<i64>, Skel<OffsetAnalysis>)>,
    args: Seq<Pattern<OffsetAnalysis>>,
    is_add: bool,
    st: RecState,
    constr: SymVal,
)
    requires
        c1.len() == c2.len(),
        forall|i: int| 0 <= i < c1.len() ==> (#[trigger] c1[i]).0 == c2[i].0 && same_skel::<OffsetAnalysis>(c1[i].2, c2[i].2),
    ensures
        record_children(c1, args, is_add, st, constr) == record_children(c2, args, is_add, st, constr),
    decreases c1,
{
    if c1.len() > 0 && args.len() > 0 {
        let o = const_val(c1[0].0.0);
        let gg = if is_add { sv_add(var_val(st.2), o) } else { o };
        let st1 = if is_add { (st.0, st.1, next_gvar(st.2)) } else { st };
        lemma_record_same(gg, c1[0].2, c2[0].2, args[0], st1);
        let st2 = record_spec(gg, c1[0].2, args[0], st1);
        let constr2 = if is_add { sv_add(constr, var_val(st.2)) } else { constr };
        assert forall|i: int| 0 <= i < c1.drop_first().len() implies (#[trigger] c1.drop_first()[i]).0 == c2.drop_first()[i].0
            && same_skel::<OffsetAnalysis>(c1.drop_first()[i].2, c2.drop_first()[i].2) by {
            assert(c1.drop_first()[i] == c1[i + 1]);
            assert(c2.drop_first()[i] == c2[i + 1]);
        }
        lemma_children_same(c1.drop_first(), c2.drop_first(), args.drop_first(), is_add, st2, constr2);
    }
}

/// The values of the bindings.
pub open spec fn rec_view(s: Seq<(Symbol, (SymOffset, Id))>) -> Seq<(Symbol, (SymVal, Id))> {
    s.map_values(|e: (Symbol, (SymOffset, Id))| (e.0, (e.1.0.val(), e.1.1)))
}

pub open spec fn rec_wf(s: Seq<(Symbol, (SymOffset, Id))>) -> bool {
    forall|i: int| 0 <= i < s.len() ==> (#[trigger] s[i]).1.0.wf()
}

pub open spec fn all_wf(cs: Seq<SymOffset>) -> bool {
    forall|i: int| 0 <= i < cs.len() ==> (#[trigger] cs[i]).wf()
}

/// Every binding names the e-class that `ids` binds its variable to.
pub open spec fn rec_agrees(s: Seq<(Symbol, (SymOffset, Id))>, ids: Seq<(Symbol, Id)>) -> bool {
    forall|i: int| 0 <= i < s.len() ==> id_of(ids, (#[trigger] s[i]).0@) == Some(s[i].1.1)
}

/// The position of the first binding of `v`.
fn find_binding(s: &Vec<(Symbol, (SymOffset, Id))>, v: &Symbol) -> (res: Option<usize>)
    ensures
        match res {
            Some(k) => k < s@.len() && s@[k as int].0@ == v@ && forall|j: int| 0 <= j < k ==> s@[j].0@ != v@,
            None => forall|j: int| 0 <= j < s@.len() ==> (#[trigger] s@[j]).0@ != v@,
        },
{
    let mut k: usize = 0;
    while k < s.len()
        invariant
            k <= s@.len(),
            forall|j: int| 0 <= j < k ==> (#[trigger] s@[j]).0@ != v@,
        decreases s.len() - k,
    {
        if s[k].0.same(v) {
            return Some(k);
        }
        k += 1;
    }
    None
}

proof fn lemma_first_binding(s: Seq<(Symbol, (SymVal, Id))>, name: Seq<char>, k: int)
    requires
        0 <= k < s.len(),
        s[k].0@ == name,
        forall|j: int| 0 <= j < k ==> s[j].0@ != name,
    ensures
        first_binding(s, name) == Some(k),
{
    let i = choose|i: int|
        0 <= i < s.len() && (#[trigger] s[i]).0@ == name && forall|j: int| 0 <= j < i ==> s[j].0@ != name;
    if i < k {
        assert(s[i].0@ != name);
    } else if k < i {
        assert(s[k].0@ != name);
    }
}

proof fn lemma_vals_push(cs: Seq<SymOffset>, c: SymOffset)
    ensures
        vals_of(cs.push(c)) == vals_of(cs).push(c.val()),
{
    assert(vals_of(cs.push(c)) =~= vals_of(cs).push(c.val()));
}

/// Records the constraints of the match `skel` of `pat`, reached with the
/// symbolic offset `in_g` (see `record_spec`); `next` hands out the fresh
/// variables.
#[verifier::loop_isolation(false)]
fn record_constraints(
    in_g: SymOffset,
    skel: &Skel<OffsetAnalysis>,
    pat: &Pattern<OffsetAnalysis>,
    constraints: &mut Vec<SymOffset>,
    subst: &mut Vec<(Symbol, (SymOffset, Id))>,
    next: &mut GVar,
    Ghost(ids): Ghost<Seq<(Symbol, Id)>>,
)
    requires
        in_g.wf(),
        all_wf(old(constraints)@),
        rec_wf(old(subst)@),
        rec_agrees(old(subst)@, ids),
        skel_matches::<OffsetAnalysis>(*skel, *pat, ids),
    ensures
        all_wf(final(constraints)@),
        rec_wf(final(subst)@),
        rec_agrees(final(subst)@, ids),
        (vals_of(final(constraints)@), rec_view(final(subst)@), *final(next)) == record_spec(
            in_g.val(),
            *skel,
            *pat,
            (vals_of(old(constraints)@), rec_view(old(subst)@), *old(next)),
        ),
    decreases skel,
{
    match skel {
        Skel::PVar(x) => {
            match pat {
                Pattern::PVar(v) => {
                    let ghost before = subst@;
                    let ghost cs0 = constraints@;
                    proof {
                        assert forall|j: int| 0 <= j < before.len() implies (#[trigger] rec_view(before)[j]).0
                            == before[j].0 by {}
                    }
                    match find_binding(subst, v) {
                        Some(k) => {
                            proof {
                                lemma_first_binding(rec_view(before), v@, k as int);
                                let _ = before[k as int].1.0.wf();
                            }
                            let neg = subst[k].1.0.scale(-1);
                            let c = neg.add(&in_g);
                            proof {
                                subst@[k as int].1.0.lemma_val();
                                neg.lemma_val();
                                in_g.lemma_val();
                                c.lemma_val();
                                assert(neg.val() == sv_scale(rec_view(before)[k as int].1.0, -1i64));
                                lemma_vals_push(cs0, c);
                            }
                            constraints.push(c);
                            subst.set(k, (v.dup(), (in_g, *x)));
                            proof {
                                assert(rec_view(subst@) =~= rec_view(before).update(
                                    k as int,
                                    (*v, (in_g.val(), *x)),
                                ));
                                assert forall|i: int| 0 <= i < constraints@.len() implies (
                                #[trigger] constraints@[i]).wf() by {
                                    if i < cs0.len() {
                                        assert(constraints@[i] == cs0[i]);
                                    }
                                }
                                assert forall|i: int| 0 <= i < subst@.len() implies (#[trigger] subst@[i]).1.0.wf()
                                    && id_of(ids, subst@[i].0@) == Some(subst@[i].1.1) by {
                                    if i != k {
                                        assert(subst@[i] == before[i]);
                                    }
                                }
                            }
                        },
                        None => {
                            proof {
                                assert(!(exists|i: int|
                                    0 <= i < rec_view(before).len() && (#[trigger] rec_view(before)[i]).0@
                                        == v@));
                            }
                            subst.push((v.dup(), (in_g, *x)));
                            proof {
                                assert(rec_view(subst@) =~= rec_view(before).push((*v, (in_g.val(), *x))));
                                assert forall|i: int| 0 <= i < subst@.len() implies (#[trigger] subst@[i]).1.0.wf()
                                    && id_of(ids, subst@[i].0@) == Some(subst@[i].1.1) by {
                                    if i < before.len() {
                                        assert(subst@[i] == before[i]);
                                    }
                                }
                            }
                        },
                    }
                },
                _ => {},
            }
        },
        Skel::Node(g, n, ch) => {
            match pat {
                Pattern::Node(pn, args) => {
                    let in_g = in_g.add(&SymOffset::from_const(g.0));
                    let diff: Option<i64> = match n {
                        OffsetLang::Const(c1) => match pn {
                            OffsetLang::Const(c2) => Some(c1.wrapping_sub(*c2)),
                            _ => None,
                        },
                        _ => None,
                    };
                    proof {
                        in_g.lemma_val();
                    }
                    match diff {
                        Some(d) => {
                            let c = in_g.add(&SymOffset::from_const(d));
                            proof {
                                c.lemma_val();
                                lemma_vals_push(constraints@, c);
                                assert forall|i: int| 0 <= i < constraints@.len() + 1 implies (
                                #[trigger] constraints@.push(c)[i]).wf() by {
                                    if i < constraints@.len() {
                                        assert(constraints@.push(c)[i] == constraints@[i]);
                                    }
                                }
                            }
                            constraints.push(c);
                            return;
                        },
                        None => {},
                    }
                    let is_add: bool = match n {
                        OffsetLang::Add(_) => true,
                        _ => false,
                    };
                    let len: usize = if ch.len() < args.len() {
                        ch.len()
                    } else {
                        args.len()
                    };
                    let ghost st0: RecState = (vals_of(constraints@), rec_view(subst@), *next);
                    let ghost g2 = in_g.val();
                    let mut constr = in_g;
                    let mut i: usize = 0;
                    proof {
                        assert(ch@.skip(0) =~= ch@);
                        assert(args@.skip(0) =~= args@);
                    }
                    while i < len
                        invariant
                            i <= len,
                            len <= ch@.len(),
                            len <= args@.len(),
                            len == ch@.len() || len == args@.len(),
                            constr.wf(),
                            all_wf(constraints@),
                            rec_wf(subst@),
                            rec_agrees(subst@, ids),
                            record_children(ch@, args@, is_add, st0, g2) == record_children(
                                ch@.skip(i as int),
                                args@.skip(i as int),
                                is_add,
                                (vals_of(constraints@), rec_view(subst@), *next),
                                constr.val(),
                            ),
                            forall|j: int| 0 <= j < ch@.len() ==> decreases_to!(*skel => ch@[j].2),
                        decreases len - i,
                    {
                        proof {
                            lemma_all_match::<OffsetAnalysis>(ch@, args@, ids, i as int);
                            constr.lemma_val();
                        }
                        let o = SymOffset::from_const(ch[i].0.0);
                        proof {
                            o.lemma_val();
                        }
                        let gg = if is_add {
                            let gv = *next;
                            *next = if gv == usize::MAX {
                                0
                            } else {
                                gv + 1
                            };
                            let var = SymOffset::from_gvar(gv);
                            constr = constr.add(&var);
                            let shifted = var.add(&o);
                            proof {
                                var.lemma_val();
                                constr.lemma_val();
                                shifted.lemma_val();
                            }
                            shifted
                        } else {
                            o
                        };
                        proof {
                            let a = ch@.skip(i as int);
                            let b = args@.skip(i as int);
                            assert(a[0] == ch@[i as int]);
                            assert(b[0] == args@[i as int]);
                            assert(a.drop_first() =~= ch@.skip(i + 1));
                            assert(b.drop_first() =~= args@.skip(i + 1));
                        }
                        record_constraints(gg, &ch[i].2, &args[i], constraints, subst, next, Ghost(ids));
                        i += 1;
                    }
                    proof {
                        assert(ch@.skip(i as int).len() == 0 || args@.skip(i as int).len() == 0);
                        lemma_vals_push(constraints@, constr);
                        assert forall|j: int| 0 <= j < constraints@.len() + 1 implies (
                        #[trigger] constraints@.push(constr)[j]).wf() by {
                            if j < constraints@.len() {
                                assert(constraints@.push(constr)[j] == constraints@[j]);
                            }
                        }
                    }
                    constraints.push(constr);
                },
                _ => {},
            }
        },
    }
}

/// What the match `sk` of `pat` gives: its constraints, collected from the
/// root (whose symbolic offset is the variable `0`) with fresh variables
/// from `1` on, are solved; the solution resolves each pattern variable's
/// offset. Constraints without solution give no match.
pub open spec fn skel_result(sk: Skel<OffsetAnalysis>, pat: Pattern<OffsetAnalysis>) -> Option<
    Seq<(Symbol, (Offset, Id))>,
> {
    let st = record_spec(var_val(0), sk, pat, (Seq::empty(), Seq::empty(), 1));
    match solve_spec(st.0, Seq::empty()) {
        Some(gs) => Some(
            st.1.map_values(
                |e: (Symbol, (SymVal, Id))| (e.0, (Offset(simplify_spec(e.1.0, gs).0), e.1.1)),
            ),
        ),
        None => None,
    }
}

/// `s` is what some match of `pat`, read off the e-graph `eg` at the e-class
/// `x` and binding its variables to e-classes of `eg`, gives.
pub open spec fn offset_match(
    s: Seq<(Symbol, (Offset, Id))>,
    pat: Pattern<OffsetAnalysis>,
    eg: EGraph<OffsetAnalysis>,
    x: Id,
) -> bool {
    exists|sk: Skel<OffsetAnalysis>, ids: Seq<(Symbol, Id)>|
        #[trigger] skel_matches::<OffsetAnalysis>(sk, pat, ids) && skel_in::<OffsetAnalysis>(eg, sk, x)
            && ids_below(ids, eg.unionfind().len()) && skel_result(sk, pat) == Some(s)
}

/// `s` is what some match of `pat`, read off `eg` at one of its e-classes,
/// gives.
pub open spec fn offset_match_some(s: Seq<(Symbol, (Offset, Id))>, pat: Pattern<OffsetAnalysis>, eg: EGraph<OffsetAnalysis>) -> bool {
    exists|x: Id|
        x.0 < eg.unionfind().len() && eg.unionfind().is_root(x.0 as nat) && #[trigger] offset_match(s, pat, eg, x)
}

/// Turns the match `skel` of `pat` into a substitution (see `skel_result`).
pub fn resolve_match(skel: &Skel<OffsetAnalysis>, pat: &Pattern<OffsetAnalysis>) -> (res: Option<
    Subst<OffsetAnalysis>,
>)
    requires
        exists|ids: Seq<(Symbol, Id)>| skel_matches::<OffsetAnalysis>(*skel, *pat, ids),
    ensures
        match res {
            Some(s) => skel_result(*skel, *pat) == Some(s@),
            None => skel_result(*skel, *pat) is None,
        },
{
    let ghost ids = choose|ids: Seq<(Symbol, Id)>| skel_matches::<OffsetAnalysis>(*skel, *pat, ids);
    let mut constraints: Vec<SymOffset> = Vec::new();
    let mut subst: Vec<(Symbol, (SymOffset, Id))> = Vec::new();
    let mut next: GVar = 1;
    let root = SymOffset::from_gvar(0);
    proof {
        root.lemma_val();
        assert(vals_of(constraints@) =~= Seq::<SymVal>::empty());
        assert(rec_view(subst@) =~= Seq::<(Symbol, (SymVal, Id))>::empty());
    }
    record_constraints(root, skel, pat, &mut constraints, &mut subst, &mut next, Ghost(ids));
    let ghost st = record_spec(var_val(0), *skel, *pat, (Seq::empty(), Seq::empty(), 1));
    let gsubst = match solve(constraints) {
        Some(gs) => gs,
        None => {
            return None;
        },
    };
    let mut out: Subst<OffsetAnalysis> = Vec::new();
    let mut k: usize = 0;
    while k < subst.len()
        invariant
            k <= subst@.len(),
            rec_wf(subst@),
            crate::cases::offset::subst_wf(gsubst@),
            rec_view(subst@) == st.1,
            solve_spec(st.0, Seq::empty()) == Some(subst_view(gsubst@)),
            out@ == st.1.take(k as int).map_values(
                |e: (Symbol, (SymVal, Id))| (e.0, (Offset(simplify_spec(e.1.0, subst_view(gsubst@)).0), e.1.1)),
            ),
        decreases subst.len() - k,
    {
        let (name, (sym, x)) = &subst[k];
        let off = resolve(sym.duplicate(), &gsubst);
        out.push((name.dup(), (off, *x)));
        proof {
            assert(st.1[k as int] == (*name, (sym.val(), *x)));
            assert(out@ =~= st.1.take(k + 1).map_values(
                |e: (Symbol, (SymVal, Id))| (e.0, (Offset(simplify_spec(e.1.0, subst_view(gsubst@)).0), e.1.1)),
            ));
        }
        k += 1;
    }
    proof {
        assert(st.1.take(k as int) =~= st.1);
    }
    Some(out)
}

impl OffsetAnalysis {
    /// Matches `pat` at the e-class `x`: each match found without regard to
    /// the offsets is kept when its constraints have a solution, which then
    /// gives each pattern variable its offset. The results are exactly what
    /// the matches read off at `x` give.
    pub fn ematch(eg: &EGraph<OffsetAnalysis>, x: Id, pat: &Pattern<OffsetAnalysis>) -> (res: Vec<
        Subst<OffsetAnalysis>,
    >)
        requires
            eg.wf(),
            eg.canonical(),
            x.0 < eg.unionfind().len(),
            eg.unionfind().is_root(x.0 as nat),
            no_shift::<OffsetAnalysis>(*pat),
        ensures
            forall|k: int|
                0 <= k < res@.len() ==> #[trigger] offset_match(res@[k]@, *pat, *eg, x),
            forall|s: Seq<(Symbol, (Offset, Id))>|
                #[trigger] offset_match(s, *pat, *eg, x) ==> exists|k: int| 0 <= k < res@.len() && res@[k]@ == s,
    {
        let skels = skeleton_ematch(eg, x, pat);
        let mut out: Vec<Subst<OffsetAnalysis>> = Vec::new();
        let mut i: usize = 0;
        while i < skels.len()
            invariant
                i <= skels@.len(),
                forall|j: int|
                    0 <= j < skels@.len() ==> ids_below((#[trigger] skels@[j]).0@, eg.unionfind().len())
                        && skel_matches::<OffsetAnalysis>(skels@[j].1, *pat, skels@[j].0@)
                        && skel_in::<OffsetAnalysis>(*eg, skels@[j].1, x),
                forall|k: int|
                    0 <= k < out@.len() ==> #[trigger] offset_match(out@[k]@, *pat, *eg, x),
                forall|j: int|
                    0 <= j < i && (#[trigger] skel_result(skels@[j].1, *pat)) is Some ==> exists|k: int|
                        0 <= k < out@.len() && Some(out@[k]@) == skel_result(skels@[j].1, *pat),
            decreases skels.len() - i,
        {
            let ghost ids = skels@[i as int].0@;
            let ghost before0 = out@;
            match resolve_match(&skels[i].1, pat) {
                Some(s) => {
                    proof {
                        assert(skel_matches::<OffsetAnalysis>(skels@[i as int].1, *pat, ids));
                    }
                    let ghost before = out@;
                    out.push(s);
                    proof {
                        assert forall|k: int| 0 <= k < out@.len() implies #[trigger] offset_match(
                            out@[k]@,
                            *pat,
                            *eg,
                            x,
                        ) by {
                            if k < before.len() {
                                assert(out@[k] == before[k]);
                            } else {
                                assert(skel_result(skels@[i as int].1, *pat) == Some(out@[k]@));
                                assert(skel_matches::<OffsetAnalysis>(skels@[i as int].1, *pat, ids));
                                assert(skel_in::<OffsetAnalysis>(*eg, skels@[i as int].1, x));
                            }
                        }
                    }
                },
                None => {},
            }
            proof {
                assert forall|j: int|
                    0 <= j < i + 1 && (#[trigger] skel_result(skels@[j].1, *pat)) is Some implies exists|k: int|
                        0 <= k < out@.len() && Some(out@[k]@) == skel_result(skels@[j].1, *pat) by {
                    if j < i {
                        let k = choose|k: int| 0 <= k < before0.len() && Some(before0[k]@) == skel_result(skels@[j].1, *pat);
                        assert(out@[k] == before0[k]);
                    } else {
                        assert(out@[before0.len() as int]@ == skel_result(skels@[j].1, *pat)->Some_0);
                    }
                }
            }
            i += 1;
        }
        proof {
            assert forall|s: Seq<(Symbol, (Offset, Id))>|
                #[trigger] offset_match(s, *pat, *eg, x) implies exists|k: int| 0 <= k < out@.len() && out@[k]@ == s by {
                let (sk, ids) = choose|sk: Skel<OffsetAnalysis>, ids: Seq<(Symbol, Id)>|
                    #[trigger] skel_matches::<OffsetAnalysis>(sk, *pat, ids) && skel_in::<OffsetAnalysis>(*eg, sk, x)
                        && ids_below(ids, eg.unionfind().len()) && skel_result(sk, *pat) == Some(s);
                let j = choose|j: int| 0 <= j < skels@.len() && same_skel::<OffsetAnalysis>(sk, skels@[j].1)
                    && crate::ematch::keeps(ids, skels@[j].0@);
                lemma_record_same(var_val(0), sk, skels@[j].1, *pat, (Seq::empty(), Seq::empty(), 1));
                assert(skel_result(skels@[j].1, *pat) == Some(s));
            }
        }
        out
    }

    /// Matches `pat` at every e-class: the results are exactly what the
    /// matches read off at the e-classes give.
    pub fn ematch_all(eg: &EGraph<OffsetAnalysis>, pat: &Pattern<OffsetAnalysis>) -> (res: Vec<
        Subst<OffsetAnalysis>,
    >)
        requires
            eg.wf(),
            eg.canonical(),
            no_shift::<OffsetAnalysis>(*pat),
        ensures
            forall|k: int|
                0 <= k < res@.len() ==> #[trigger] offset_match_some(res@[k]@, *pat, *eg),
            forall|s: Seq<(Symbol, (Offset, Id))>|
                #[trigger] offset_match_some(s, *pat, *eg) ==> exists|k: int| 0 <= k < res@.len() && res@[k]@ == s,
    {
        let classes = eg.classes();
        let mut out: Vec<Subst<OffsetAnalysis>> = Vec::new();
        let mut i: usize = 0;
        while i < classes.len()
            invariant
                i <= classes@.len(),
                eg.wf(),
                eg.canonical(),
                no_shift::<OffsetAnalysis>(*pat),
                forall|k: int|
                    0 <= k < classes@.len() ==> (#[trigger] classes@[k]).0 < eg.unionfind().len()
                        && eg.unionfind().is_root(classes@[k].0 as nat),
                forall|k: int|
                    0 <= k < out@.len() ==> #[trigger] offset_match_some(out@[k]@, *pat, *eg),
                forall|s: Seq<(Symbol, (Offset, Id))>, j: int|
                    0 <= j < i && #[trigger] offset_match(s, *pat, *eg, classes@[j]) ==> exists|k: int|
                        0 <= k < out@.len() && out@[k]@ == s,
            decreases classes.len() - i,
        {
            let mut r = OffsetAnalysis::ematch(eg, classes[i], pat);
            let ghost before = out@;
            let ghost rr = r@;
            out.append(&mut r);
            proof {
                assert forall|k: int| 0 <= k < out@.len() implies #[trigger] offset_match_some(
                    out@[k]@,
                    *pat,
                    *eg,
                ) by {
                    if k < before.len() {
                        assert(out@[k] == before[k]);
                    } else {
                        assert(out@[k] == rr[k - before.len()]);
                        assert(offset_match(out@[k]@, *pat, *eg, classes@[i as int]));
                    }
                }
                assert forall|s: Seq<(Symbol, (Offset, Id))>, j: int|
                    0 <= j < i + 1 && #[trigger] offset_match(s, *pat, *eg, classes@[j]) implies exists|k: int|
                        0 <= k < out@.len() && out@[k]@ == s by {
                    if j < i {
                        let k = choose|k: int| 0 <= k < before.len() && before[k]@ == s;
                        assert(out@[k] == before[k]);
                    } else {
                        let k = choose|k: int| 0 <= k < rr.len() && rr[k]@ == s;
                        assert(out@[before.len() + k] == rr[k]);
                    }
                }
            }
            i += 1;
        }
        proof {
            assert forall|s: Seq<(Symbol, (Offset, Id))>|
                #[trigger] offset_match_some(s, *pat, *eg) implies exists|k: int| 0 <= k < out@.len() && out@[k]@ == s by {
                let x = choose|x: Id| x.0 < eg.unionfind().len() && eg.unionfind().is_root(x.0 as nat) && #[trigger] offset_match(s, *pat, *eg, x);
                assert(classes@.contains(Id(x.0 as usize)));
                let j = choose|j: int| 0 <= j < classes@.len() && classes@[j] == Id(x.0 as usize);
                assert(classes@[j] == x);
            }
        }
        out
    }
}

} // verus!
