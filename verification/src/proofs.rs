use vstd::prelude::*;
use crate::symbol::Symbol;

verus! {

/// A proof that one term equals another.
#[derive(PartialEq, Eq, Hash, Debug)]
pub enum ProofObj {
    Refl,
    Sym(Proof),
    /// `Trans(a, b)` applies `a`, then `b`.
    Trans(Proof, Proof),
    /// One proof per argument of a function application.
    Congr(Vec<Proof>),
    /// An application of the rule of this name.
    User(Symbol),
}

pub type Proof = Box<ProofObj>;

/// Patterns; terms are patterns without variables.
#[derive(PartialEq, Eq, Hash, Debug)]
pub enum Pattern {
    PVar(String),
    Node(Symbol, Vec<Pattern>),
}

pub type Term = Pattern;

/// Named rules, each rewriting its left pattern into its right one.
pub type Rules = Vec<(Symbol, Pattern, Pattern)>;

/// What a term or pattern is: variables and function symbols by their
/// names.
pub enum TermV {
    Var(Seq<char>),
    Node(Seq<char>, Seq<TermV>),
}

/// Terms bound to variable names.
pub type SubstV = Seq<(Seq<char>, TermV)>;

pub open spec fn tview(t: Pattern) -> TermV
    decreases t,
{
    match t {
        Pattern::PVar(v) => TermV::Var(v@),
        Pattern::Node(f, args) => TermV::Node(f@, tviews(args@)),
    }
}

pub open spec fn tviews(s: Seq<Pattern>) -> Seq<TermV>
    decreases s,
{
    if s.len() == 0 {
        Seq::empty()
    } else {
        tviews(s.drop_last()).push(tview(s.last()))
    }
}

pub proof fn lemma_tviews(s: Seq<Pattern>)
    ensures
        tviews(s).len() == s.len(),
        forall|i: int| 0 <= i < s.len() ==> #[trigger] tviews(s)[i] == tview(s[i]),
    decreases s.len(),
{
    if s.len() > 0 {
        lemma_tviews(s.drop_last());
        assert forall|i: int| 0 <= i < s.len() implies #[trigger] tviews(s)[i] == tview(s[i]) by {
            if i < s.len() - 1 {
                assert(s.drop_last()[i] == s[i]);
            }
        }
    }
}

/// The term bound to `v`: the first binding of that name.
pub open spec fn lookup(s: SubstV, v: Seq<char>) -> Option<TermV>
    decreases s.len(),
{
    if s.len() == 0 {
        None
    } else if s[0].0 == v {
        Some(s[0].1)
    } else {
        lookup(s.drop_first(), v)
    }
}

/// Matching the term `t` against the pattern `p`, extending `s`: a variable
/// seen again must meet an equal term; below an application only the
/// arguments are compared, as far as both go. `None` where `t` is a
/// variable below an application of `p`, or a variable meets two terms.
pub open spec fn match_spec(t: TermV, p: TermV, s: SubstV) -> Option<SubstV>
    decreases p,
{
    match p {
        TermV::Var(v) => match lookup(s, v) {
            Some(t2) => if t2 == t {
                Some(s)
            } else {
                None
            },
            None => Some(s.push((v, t))),
        },
        TermV::Node(_, pargs) => match t {
            TermV::Node(_, targs) => match_all(targs, pargs, s),
            TermV::Var(_) => None,
        },
    }
}

pub open spec fn match_all(ts: Seq<TermV>, ps: Seq<TermV>, s: SubstV) -> Option<SubstV>
    decreases ps,
{
    if ts.len() == 0 || ps.len() == 0 {
        Some(s)
    } else {
        match match_spec(ts[0], ps[0], s) {
            Some(s2) => match_all(ts.drop_first(), ps.drop_first(), s2),
            None => None,
        }
    }
}

/// The pattern `p` with its variables replaced by their terms; `None` where
/// a variable is unbound.
pub open spec fn inst_spec(p: TermV, s: SubstV) -> Option<TermV>
    decreases p,
{
    match p {
        TermV::Var(v) => lookup(s, v),
        TermV::Node(f, args) => match inst_all(args, s) {
            Some(outs) => Some(TermV::Node(f, outs)),
            None => None,
        },
    }
}

pub open spec fn inst_all(ps: Seq<TermV>, s: SubstV) -> Option<Seq<TermV>>
    decreases ps,
{
    if ps.len() == 0 {
        Some(Seq::empty())
    } else {
        match inst_all(ps.drop_last(), s) {
            Some(r) => match inst_spec(ps.last(), s) {
                Some(a) => Some(r.push(a)),
                None => None,
            },
            None => None,
        }
    }
}

/// The position of the first rule named `name`.
pub open spec fn find_rule(rules: Seq<(Seq<char>, TermV, TermV)>, name: Seq<char>) -> Option<int>
    decreases rules.len(),
{
    if rules.len() == 0 {
        None
    } else if rules[0].0 == name {
        Some(0)
    } else {
        match find_rule(rules.drop_first(), name) {
            Some(i) => Some(i + 1),
            None => None,
        }
    }
}

/// What the proof `p` makes of the term `t` (read backwards when `rev`): a
/// rule application matches the rule's left pattern and builds its right
/// one, whichever way it is read. `None` where the proof does not fit the
/// term.
pub open spec fn apply_spec(t: TermV, p: ProofObj, rules: Seq<(Seq<char>, TermV, TermV)>, rev: bool) -> Option<
    TermV,
>
    decreases p,
{
    match p {
        ProofObj::Refl => Some(t),
        ProofObj::Sym(q) => apply_spec(t, *q, rules, !rev),
        ProofObj::Trans(p1, p2) => {
            let (a, b) = if rev {
                (*p2, *p1)
            } else {
                (*p1, *p2)
            };
            match apply_spec(t, a, rules, rev) {
                Some(m) => apply_spec(m, b, rules, rev),
                None => None,
            }
        },
        ProofObj::Congr(subs) => match t {
            TermV::Node(f, args) => if subs@.len() == args.len() {
                match apply_all(args, subs@, rules, rev) {
                    Some(outs) => Some(TermV::Node(f, outs)),
                    None => None,
                }
            } else {
                None
            },
            TermV::Var(_) => None,
        },
        ProofObj::User(r) => match find_rule(rules, r@) {
            Some(i) => match match_spec(t, rules[i].1, Seq::empty()) {
                Some(s) => inst_spec(rules[i].2, s),
                None => None,
            },
            None => None,
        },
    }
}

/// Each proof of `ps` applied to the term in its place.
pub open spec fn apply_all(
    ts: Seq<TermV>,
    ps: Seq<Proof>,
    rules: Seq<(Seq<char>, TermV, TermV)>,
    rev: bool,
) -> Option<Seq<TermV>>
    decreases ps,
{
    if ps.len() == 0 {
        Some(Seq::empty())
    } else {
        match apply_all(ts, ps.drop_last(), rules, rev) {
            Some(r) => match apply_spec(ts[ps.len() - 1], *ps.last(), rules, rev) {
                Some(a) => Some(r.push(a)),
                None => None,
            },
            None => None,
        }
    }
}

/// `x`, then `y`, without needless reflexivity steps.
pub open spec fn trans_spec(x: Proof, y: Proof) -> Proof {
    if *x is Refl {
        y
    } else if *y is Refl {
        x
    } else {
        Box::new(ProofObj::Trans(x, y))
    }
}

/// `x` read backwards, without double reversal or reversed reflexivity.
pub open spec fn sym_spec(x: Proof) -> Proof {
    match *x {
        ProofObj::Sym(xx) => xx,
        ProofObj::Refl => Box::new(ProofObj::Refl),
        _ => Box::new(ProofObj::Sym(x)),
    }
}

/// The proofs of the arguments, as one proof; reflexivity when they all are.
pub open spec fn congr_spec(ps: Vec<Proof>) -> Proof {
    if forall|i: int| 0 <= i < ps@.len() ==> (*#[trigger] ps@[i]) is Refl {
        Box::new(ProofObj::Refl)
    } else {
        Box::new(ProofObj::Congr(ps))
    }
}

pub fn is_refl(x: &Proof) -> (res: bool)
    ensures
        res == (**x is Refl),
{
    match &**x {
        ProofObj::Refl => true,
        _ => false,
    }
}

pub fn mk_refl() -> (res: Proof)
    ensures
        *res == ProofObj::Refl,
{
    Box::new(ProofObj::Refl)
}

pub fn mk_trans(x: Proof, y: Proof) -> (res: Proof)
    ensures
        res == trans_spec(x, y),
{
    if is_refl(&x) {
        y
    } else if is_refl(&y) {
        x
    } else {
        Box::new(ProofObj::Trans(x, y))
    }
}

pub fn mk_sym(x: Proof) -> (res: Proof)
    ensures
        res == sym_spec(x),
{
    match *x {
        ProofObj::Sym(xx) => xx,
        ProofObj::Refl => mk_refl(),
        other => Box::new(ProofObj::Sym(Box::new(other))),
    }
}

pub fn mk_congr(argproofs: Vec<Proof>) -> (res: Proof)
    ensures
        res == congr_spec(argproofs),
{
    let mut i: usize = 0;
    while i < argproofs.len()
        invariant
            i <= argproofs@.len(),
            forall|j: int| 0 <= j < i ==> (*#[trigger] argproofs@[j]) is Refl,
        decreases argproofs.len() - i,
    {
        if !is_refl(&argproofs[i]) {
            return Box::new(ProofObj::Congr(argproofs));
        }
        i += 1;
    }
    mk_refl()
}

/// Reflexivity leaves a term as it is.
pub proof fn lemma_refl_meaning(t: TermV, rules: Seq<(Seq<char>, TermV, TermV)>, rev: bool)
    ensures
        apply_spec(t, ProofObj::Refl, rules, rev) == Some(t),
{
}

/// `mk_trans` proves what `Trans` proves.
pub proof fn lemma_trans_meaning(t: TermV, x: Proof, y: Proof, rules: Seq<(Seq<char>, TermV, TermV)>, rev: bool)
    ensures
        apply_spec(t, *trans_spec(x, y), rules, rev) == apply_spec(t, ProofObj::Trans(x, y), rules, rev),
{
    if *x is Refl {
        assert(apply_spec(t, *x, rules, rev) == Some(t));
        if rev {
            match apply_spec(t, *y, rules, rev) {
                Some(m) => {
                    assert(apply_spec(m, *x, rules, rev) == Some(m));
                },
                None => {},
            }
        }
    } else if *y is Refl {
        if !rev {
            match apply_spec(t, *x, rules, rev) {
                Some(m) => {
                    assert(apply_spec(m, *y, rules, rev) == Some(m));
                },
                None => {},
            }
        }
    }
}

/// `mk_sym` proves what `Sym` proves.
pub proof fn lemma_sym_meaning(t: TermV, x: Proof, rules: Seq<(Seq<char>, TermV, TermV)>, rev: bool)
    ensures
        apply_spec(t, *sym_spec(x), rules, rev) == apply_spec(t, ProofObj::Sym(x), rules, rev),
{
    match *x {
        ProofObj::Sym(xx) => {
            assert(apply_spec(t, ProofObj::Sym(x), rules, rev) == apply_spec(t, *x, rules, !rev));
            assert(apply_spec(t, *x, rules, !rev) == apply_spec(t, *xx, rules, rev));
        },
        _ => {},
    }
}

/// Reflexivity for every argument gives the arguments back.
proof fn lemma_apply_all_refl(ts: Seq<TermV>, ps: Seq<Proof>, rules: Seq<(Seq<char>, TermV, TermV)>, rev: bool)
    requires
        ps.len() <= ts.len(),
        forall|i: int| 0 <= i < ps.len() ==> (*#[trigger] ps[i]) is Refl,
    ensures
        apply_all(ts, ps, rules, rev) == Some(ts.take(ps.len() as int)),
    decreases ps.len(),
{
    if ps.len() > 0 {
        let q = ps.drop_last();
        assert forall|i: int| 0 <= i < q.len() implies (*#[trigger] q[i]) is Refl by {
            assert(q[i] == ps[i]);
        }
        lemma_apply_all_refl(ts, q, rules, rev);
        assert(*ps.last() is Refl);
        assert(apply_spec(ts[ps.len() - 1], *ps.last(), rules, rev) == Some(ts[ps.len() - 1]));
        assert(ts.take(q.len() as int).push(ts[ps.len() - 1]) =~= ts.take(ps.len() as int));
    } else {
        assert(ts.take(0) =~= Seq::<TermV>::empty());
    }
}

/// Where the proofs of the arguments fit the term, `mk_congr` proves what
/// `Congr` proves.
pub proof fn lemma_congr_meaning(t: TermV, ps: Vec<Proof>, rules: Seq<(Seq<char>, TermV, TermV)>, rev: bool)
    requires
        apply_spec(t, ProofObj::Congr(ps), rules, rev) is Some,
    ensures
        apply_spec(t, *congr_spec(ps), rules, rev) == apply_spec(t, ProofObj::Congr(ps), rules, rev),
{
    if forall|i: int| 0 <= i < ps@.len() ==> (*#[trigger] ps@[i]) is Refl {
        match t {
            TermV::Node(f, args) => {
                lemma_apply_all_refl(args, ps@, rules, rev);
                assert(args.take(ps@.len() as int) =~= args);
            },
            TermV::Var(_) => {},
        }
    }
}

/// Terms bound to variable names, by their views.
pub open spec fn subst_view(s: Seq<(String, Term)>) -> SubstV {
    s.map_values(|e: (String, Term)| (e.0@, tview(e.1)))
}

/// The rules, by their views.
pub open spec fn rules_view(r: Seq<(Symbol, Pattern, Pattern)>) -> Seq<(Seq<char>, TermV, TermV)> {
    r.map_values(|e: (Symbol, Pattern, Pattern)| (e.0@, tview(e.1), tview(e.2)))
}

proof fn lemma_lookup_at(s: SubstV, v: Seq<char>, k: int)
    requires
        0 <= k < s.len(),
        s[k].0 == v,
        forall|j: int| 0 <= j < k ==> s[j].0 != v,
    ensures
        lookup(s, v) == Some(s[k].1),
    decreases k,
{
    if k > 0 {
        let t = s.drop_first();
        assert forall|j: int| 0 <= j < k - 1 implies t[j].0 != v by {
            assert(t[j] == s[j + 1]);
        }
        assert(s[0].0 != v);
        lemma_lookup_at(t, v, k - 1);
    }
}

proof fn lemma_lookup_none(s: SubstV, v: Seq<char>)
    requires
        forall|j: int| 0 <= j < s.len() ==> s[j].0 != v,
    ensures
        lookup(s, v) is None,
    decreases s.len(),
{
    if s.len() > 0 {
        let t = s.drop_first();
        assert forall|j: int| 0 <= j < t.len() implies t[j].0 != v by {
            assert(t[j] == s[j + 1]);
        }
        assert(s[0].0 != v);
        lemma_lookup_none(t, v);
    }
}

proof fn lemma_find_rule_at(r: Seq<(Seq<char>, TermV, TermV)>, name: Seq<char>, k: int)
    requires
        0 <= k < r.len(),
        r[k].0 == name,
        forall|j: int| 0 <= j < k ==> r[j].0 != name,
    ensures
        find_rule(r, name) == Some(k),
    decreases k,
{
    if k > 0 {
        let t = r.drop_first();
        assert forall|j: int| 0 <= j < k - 1 implies t[j].0 != name by {
            assert(t[j] == r[j + 1]);
        }
        assert(r[0].0 != name);
        lemma_find_rule_at(t, name, k - 1);
    }
}

proof fn lemma_find_rule_none(r: Seq<(Seq<char>, TermV, TermV)>, name: Seq<char>)
    requires
        forall|j: int| 0 <= j < r.len() ==> r[j].0 != name,
    ensures
        find_rule(r, name) is None,
    decreases r.len(),
{
    if r.len() > 0 {
        let t = r.drop_first();
        assert forall|j: int| 0 <= j < t.len() implies t[j].0 != name by {
            assert(t[j] == r[j + 1]);
        }
        assert(r[0].0 != name);
        lemma_find_rule_none(t, name);
    }
}

/// `inst_all` succeeds where each pattern does, with their terms in order.
proof fn lemma_inst_all(ps: Seq<TermV>, s: SubstV)
    ensures
        inst_all(ps, s) is Some <==> forall|i: int| 0 <= i < ps.len() ==> (#[trigger] inst_spec(ps[i], s)) is Some,
        inst_all(ps, s) is Some ==> inst_all(ps, s)->Some_0.len() == ps.len() && forall|i: int|
            0 <= i < ps.len() ==> inst_all(ps, s)->Some_0[i] == (#[trigger] inst_spec(ps[i], s))->Some_0,
    decreases ps.len(),
{
    if ps.len() > 0 {
        let q = ps.drop_last();
        lemma_inst_all(q, s);
        assert forall|i: int| 0 <= i < q.len() implies q[i] == ps[i] by {}
        if forall|i: int| 0 <= i < ps.len() ==> (#[trigger] inst_spec(ps[i], s)) is Some {
            assert forall|i: int| 0 <= i < q.len() implies (#[trigger] inst_spec(q[i], s)) is Some by {
                assert(inst_spec(ps[i], s) is Some);
            }
            assert(inst_spec(ps[ps.len() - 1], s) is Some);
        }
    }
}

/// `apply_all` succeeds where each proof fits its term, with their results
/// in order.
proof fn lemma_apply_all(ts: Seq<TermV>, ps: Seq<Proof>, rules: Seq<(Seq<char>, TermV, TermV)>, rev: bool)
    requires
        ps.len() <= ts.len(),
    ensures
        apply_all(ts, ps, rules, rev) is Some <==> forall|i: int|
            0 <= i < ps.len() ==> (#[trigger] apply_spec(ts[i], *ps[i], rules, rev)) is Some,
        apply_all(ts, ps, rules, rev) is Some ==> apply_all(ts, ps, rules, rev)->Some_0.len() == ps.len()
            && forall|i: int|
            0 <= i < ps.len() ==> apply_all(ts, ps, rules, rev)->Some_0[i] == (#[trigger] apply_spec(
                ts[i],
                *ps[i],
                rules,
                rev,
            ))->Some_0,
    decreases ps.len(),
{
    if ps.len() > 0 {
        let q = ps.drop_last();
        lemma_apply_all(ts, q, rules, rev);
        assert forall|i: int| 0 <= i < q.len() implies q[i] == ps[i] by {}
        if forall|i: int| 0 <= i < ps.len() ==> (#[trigger] apply_spec(ts[i], *ps[i], rules, rev)) is Some {
            assert forall|i: int| 0 <= i < q.len() implies (#[trigger] apply_spec(ts[i], *q[i], rules, rev)) is Some by {
                assert(apply_spec(ts[i], *ps[i], rules, rev) is Some);
            }
            assert(apply_spec(ts[ps.len() - 1], *ps[ps.len() - 1], rules, rev) is Some);
        }
    }
}

/// Whether two terms are the same.
pub fn term_eq(a: &Pattern, b: &Pattern) -> (res: bool)
    ensures
        res == (tview(*a) == tview(*b)),
    decreases a,
{
    match a {
        Pattern::PVar(x) => match b {
            Pattern::PVar(y) => *x == *y,
            Pattern::Node(..) => false,
        },
        Pattern::Node(f, xs) => match b {
            Pattern::PVar(_) => false,
            Pattern::Node(g, ys) => {
                proof {
                    lemma_tviews(xs@);
                    lemma_tviews(ys@);
                }
                if !f.same(g) {
                    return false;
                }
                if xs.len() != ys.len() {
                    proof {
                        assert(tview(*a) == TermV::Node(f@, tviews(xs@)));
                        assert(tview(*b) == TermV::Node(g@, tviews(ys@)));
                        assert(tviews(xs@).len() != tviews(ys@).len());
                    }
                    return false;
                }
                let mut i: usize = 0;
                while i < xs.len()
                    invariant
                        i <= xs@.len(),
                        xs@.len() == ys@.len(),
                        tviews(xs@).len() == xs@.len(),
                        tviews(ys@).len() == ys@.len(),
                        forall|k: int| 0 <= k < xs@.len() ==> #[trigger] tviews(xs@)[k] == tview(xs@[k]),
                        forall|k: int| 0 <= k < ys@.len() ==> #[trigger] tviews(ys@)[k] == tview(ys@[k]),
                        forall|k: int| 0 <= k < i ==> tview(#[trigger] xs@[k]) == tview(ys@[k]),
                        forall|k: int| 0 <= k < xs@.len() ==> decreases_to!(*a => xs@[k]),
                        tview(*a) == TermV::Node(f@, tviews(xs@)),
                        tview(*b) == TermV::Node(g@, tviews(ys@)),
                        f@ == g@,
                    decreases xs.len() - i,
                {
                    if !term_eq(&xs[i], &ys[i]) {
                        proof {
                            assert(tviews(xs@)[i as int] != tviews(ys@)[i as int]);
                        }
                        return false;
                    }
                    i += 1;
                }
                proof {
                    assert(tviews(xs@) =~= tviews(ys@));
                }
                true
            },
        },
    }
}

/// A copy of a term.
pub fn dup_term(t: &Pattern) -> (res: Pattern)
    ensures
        tview(res) == tview(*t),
    decreases t,
{
    match t {
        Pattern::PVar(x) => Pattern::PVar(x.clone()),
        Pattern::Node(f, xs) => {
            let mut out: Vec<Pattern> = Vec::new();
            let mut i: usize = 0;
            proof {
                lemma_tviews(xs@);
            }
            while i < xs.len()
                invariant
                    i <= xs@.len(),
                    out@.len() == i,
                    tviews(xs@).len() == xs@.len(),
                    forall|k: int| 0 <= k < xs@.len() ==> #[trigger] tviews(xs@)[k] == tview(xs@[k]),
                    forall|k: int| 0 <= k < i ==> tview(#[trigger] out@[k]) == tview(xs@[k]),
                    forall|k: int| 0 <= k < xs@.len() ==> decreases_to!(*t => xs@[k]),
                decreases xs.len() - i,
            {
                out.push(dup_term(&xs[i]));
                i += 1;
            }
            proof {
                lemma_tviews(out@);
                assert(tviews(out@) =~= tviews(xs@));
            }
            Pattern::Node(f.dup(), out)
        },
    }
}

/// The position of the first binding of `v`.
fn lookup_var(s: &Vec<(String, Term)>, v: &String) -> (res: Option<usize>)
    ensures
        match res {
            Some(k) => k < s@.len() && lookup(subst_view(s@), v@) == Some(tview(s@[k as int].1)),
            None => lookup(subst_view(s@), v@) is None,
        },
{
    let mut k: usize = 0;
    while k < s.len()
        invariant
            k <= s@.len(),
            forall|j: int| 0 <= j < k ==> subst_view(s@)[j].0 != v@,
        decreases s.len() - k,
    {
        if s[k].0 == *v {
            proof {
                lemma_lookup_at(subst_view(s@), v@, k as int);
            }
            return Some(k);
        }
        k += 1;
    }
    proof {
        lemma_lookup_none(subst_view(s@), v@);
    }
    None
}

/// Matches `term` against `pat`, extending `subst` (see `match_spec`).
pub fn term_match(term: &Term, pat: &Pattern, subst: &mut Vec<(String, Term)>)
    requires
        match_spec(tview(*term), tview(*pat), subst_view(old(subst)@)) is Some,
    ensures
        Some(subst_view(final(subst)@)) == match_spec(tview(*term), tview(*pat), subst_view(old(subst)@)),
    decreases pat,
{
    match pat {
        Pattern::PVar(v) => {
            match lookup_var(subst, v) {
                Some(_) => {},
                None => {
                    let ghost before = subst@;
                    subst.push((v.clone(), dup_term(term)));
                    proof {
                        assert(subst_view(subst@) =~= subst_view(before).push((v@, tview(*term))));
                    }
                },
            }
        },
        Pattern::Node(_, p_args) => {
            match term {
                Pattern::PVar(_) => {
                    proof {
                        assert(false);
                    }
                },
                Pattern::Node(_, t_args) => {
                    let ghost ts = tviews(t_args@);
                    let ghost ps = tviews(p_args@);
                    let ghost s0 = subst_view(subst@);
                    proof {
                        lemma_tviews(t_args@);
                        lemma_tviews(p_args@);
                        assert(ts.skip(0) =~= ts);
                        assert(ps.skip(0) =~= ps);
                    }
                    let len: usize = if t_args.len() < p_args.len() {
                        t_args.len()
                    } else {
                        p_args.len()
                    };
                    let mut i: usize = 0;
                    while i < len
                        invariant
                            i <= len,
                            len <= t_args@.len(),
                            len <= p_args@.len(),
                            len == t_args@.len() || len == p_args@.len(),
                            ts.len() == t_args@.len(),
                            ps.len() == p_args@.len(),
                            forall|k: int| 0 <= k < t_args@.len() ==> #[trigger] ts[k] == tview(t_args@[k]),
                            forall|k: int| 0 <= k < p_args@.len() ==> #[trigger] ps[k] == tview(p_args@[k]),
                            match_all(ts, ps, s0) == match_all(
                                ts.skip(i as int),
                                ps.skip(i as int),
                                subst_view(subst@),
                            ),
                            match_all(ts, ps, s0) is Some,
                            forall|k: int| 0 <= k < p_args@.len() ==> decreases_to!(*pat => p_args@[k]),
                        decreases len - i,
                    {
                        proof {
                            let a = ts.skip(i as int);
                            let b = ps.skip(i as int);
                            assert(a[0] == ts[i as int]);
                            assert(b[0] == ps[i as int]);
                            assert(a.drop_first() =~= ts.skip(i + 1));
                            assert(b.drop_first() =~= ps.skip(i + 1));
                        }
                        term_match(&t_args[i], &p_args[i], subst);
                        i += 1;
                    }
                    proof {
                        assert(ts.skip(i as int).len() == 0 || ps.skip(i as int).len() == 0);
                    }
                },
            }
        },
    }
}

/// `pattern` with its variables replaced by their terms in `subst`.
pub fn pattern_apply(pattern: &Pattern, subst: &Vec<(String, Term)>) -> (res: Term)
    requires
        inst_spec(tview(*pattern), subst_view(subst@)) is Some,
    ensures
        Some(tview(res)) == inst_spec(tview(*pattern), subst_view(subst@)),
    decreases pattern,
{
    match pattern {
        Pattern::PVar(v) => {
            match lookup_var(subst, v) {
                Some(k) => dup_term(&subst[k].1),
                None => {
                    proof {
                        assert(false);
                    }
                    dup_term(pattern)
                },
            }
        },
        Pattern::Node(f, args) => {
            let ghost ps = tviews(args@);
            let ghost sv = subst_view(subst@);
            proof {
                lemma_tviews(args@);
                lemma_inst_all(ps, sv);
            }
            let mut outargs: Vec<Term> = Vec::new();
            let mut i: usize = 0;
            while i < args.len()
                invariant
                    i <= args@.len(),
                    outargs@.len() == i,
                    ps.len() == args@.len(),
                    forall|k: int| 0 <= k < args@.len() ==> #[trigger] ps[k] == tview(args@[k]),
                    inst_all(ps, sv) is Some,
                    forall|k: int| 0 <= k < ps.len() ==> (#[trigger] inst_spec(ps[k], sv)) is Some,
                    forall|k: int|
                        0 <= k < i ==> Some(tview(#[trigger] outargs@[k])) == inst_spec(ps[k], sv),
                    forall|k: int| 0 <= k < args@.len() ==> decreases_to!(*pattern => args@[k]),
                    sv == subst_view(subst@),
                decreases args.len() - i,
            {
                proof {
                    assert(inst_spec(ps[i as int], sv) is Some);
                }
                outargs.push(pattern_apply(&args[i], subst));
                i += 1;
            }
            proof {
                lemma_tviews(outargs@);
                assert(tviews(outargs@) =~= inst_all(ps, sv)->Some_0);
            }
            Pattern::Node(f.dup(), outargs)
        },
    }
}

/// The position of the first rule named `name`.
fn find_rule_index(rules: &Rules, name: &Symbol) -> (res: Option<usize>)
    ensures
        match res {
            Some(k) => k < rules@.len() && find_rule(rules_view(rules@), name@) == Some(k as int),
            None => find_rule(rules_view(rules@), name@) is None,
        },
{
    let mut k: usize = 0;
    while k < rules.len()
        invariant
            k <= rules@.len(),
            forall|j: int| 0 <= j < k ==> rules_view(rules@)[j].0 != name@,
        decreases rules.len() - k,
    {
        if rules[k].0.same(name) {
            proof {
                lemma_find_rule_at(rules_view(rules@), name@, k as int);
            }
            return Some(k);
        }
        k += 1;
    }
    proof {
        lemma_find_rule_none(rules_view(rules@), name@);
    }
    None
}

/// What the proof `p` makes of `term`, read backwards when `rev` (see
/// `apply_spec`).
pub fn apply_proof_impl(term: &Term, p: &Proof, rules: &Rules, rev: bool) -> (res: Term)
    requires
        apply_spec(tview(*term), **p, rules_view(rules@), rev) is Some,
    ensures
        Some(tview(res)) == apply_spec(tview(*term), **p, rules_view(rules@), rev),
    decreases p,
{
    let ghost rv = rules_view(rules@);
    match &**p {
        ProofObj::Refl => dup_term(term),
        ProofObj::Sym(q) => apply_proof_impl(term, q, rules, !rev),
        ProofObj::Trans(p1, p2) => {
            if rev {
                let t = apply_proof_impl(term, p2, rules, rev);
                apply_proof_impl(&t, p1, rules, rev)
            } else {
                let t = apply_proof_impl(term, p1, rules, rev);
                apply_proof_impl(&t, p2, rules, rev)
            }
        },
        ProofObj::Congr(subs) => {
            match term {
                Pattern::PVar(_) => {
                    proof {
                        assert(false);
                    }
                    dup_term(term)
                },
                Pattern::Node(f, args) => {
                    let ghost ts = tviews(args@);
                    proof {
                        lemma_tviews(args@);
                        lemma_apply_all(ts, subs@, rv, rev);
                    }
                    let mut outs: Vec<Term> = Vec::new();
                    let mut i: usize = 0;
                    while i < args.len()
                        invariant
                            i <= args@.len(),
                            outs@.len() == i,
                            subs@.len() == args@.len(),
                            ts.len() == args@.len(),
                            forall|k: int| 0 <= k < args@.len() ==> #[trigger] ts[k] == tview(args@[k]),
                            apply_all(ts, subs@, rv, rev) is Some,
                            forall|k: int|
                                0 <= k < subs@.len() ==> (#[trigger] apply_spec(ts[k], *subs@[k], rv, rev)) is Some,
                            forall|k: int|
                                0 <= k < i ==> Some(tview(#[trigger] outs@[k])) == apply_spec(
                                    ts[k],
                                    *subs@[k],
                                    rv,
                                    rev,
                                ),
                            forall|k: int| 0 <= k < subs@.len() ==> decreases_to!(*p => subs@[k]),
                            rv == rules_view(rules@),
                        decreases args.len() - i,
                    {
                        proof {
                            assert(apply_spec(ts[i as int], *subs@[i as int], rv, rev) is Some);
                        }
                        outs.push(apply_proof_impl(&args[i], &subs[i], rules, rev));
                        i += 1;
                    }
                    proof {
                        lemma_tviews(outs@);
                        assert(tviews(outs@) =~= apply_all(ts, subs@, rv, rev)->Some_0);
                    }
                    Pattern::Node(f.dup(), outs)
                },
            }
        },
        ProofObj::User(r) => {
            match find_rule_index(rules, r) {
                Some(k) => {
                    let (_, lhs, rhs) = &rules[k];
                    let mut subst: Vec<(String, Term)> = Vec::new();
                    proof {
                        assert(subst_view(subst@) =~= Seq::<(Seq<char>, TermV)>::empty());
                        assert(rv[k as int] == (rules@[k as int].0@, tview(*lhs), tview(*rhs)));
                    }
                    term_match(term, lhs, &mut subst);
                    pattern_apply(rhs, &subst)
                },
                None => {
                    proof {
                        assert(false);
                    }
                    dup_term(term)
                },
            }
        },
    }
}

/// What the proof `p` makes of `term`.
pub fn apply_proof(term: &Term, p: &Proof, rules: &Rules) -> (res: Term)
    requires
        apply_spec(tview(*term), **p, rules_view(rules@), false) is Some,
    ensures
        Some(tview(res)) == apply_spec(tview(*term), **p, rules_view(rules@), false),
{
    apply_proof_impl(term, p, rules, false)
}

} // verus!
