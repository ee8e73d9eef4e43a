use vstd::prelude::*;
use crate::api::{Analysis, Either, Group, Id};
use crate::cases::caviar_offset::analysis::{child_value, found};
use crate::cases::caviar_offset::parse::chars_of;
use crate::decimal::{decimal, decimal_chars};
use crate::egraph::EGraph;
use crate::offset::Offset;
use crate::symbol::{string_of_chars, Symbol};
use crate::uf::Unionfind;

verus! {

broadcast use vstd::array::group_array_axioms;

/// A child of an e-node: the e-class `x`, shifted by `g`, written `g*x`.
pub type OffsetId = (Offset, Id);

/// A small language: sums, integer constants, names, and an uninterpreted
/// binary application (names and applications can express any term).
#[derive(PartialEq, Eq, Hash, Debug)]
pub enum OffsetLang {
    Add([OffsetId; 2]),
    Const(i64),
    Symbol(Symbol),
    App([OffsetId; 2]),
}

impl OffsetLang {
    /// The children, in order.
    pub open spec fn kids(self) -> Seq<OffsetId> {
        match self {
            OffsetLang::Add(a) => seq![a[0], a[1]],
            OffsetLang::App(a) => seq![a[0], a[1]],
            _ => seq![],
        }
    }

    /// The same e-node with the children `k` in place of its own.
    pub open spec fn with_kids(self, k: Seq<OffsetId>) -> OffsetLang {
        match self {
            OffsetLang::Add(_) => OffsetLang::Add([k[0], k[1]]),
            OffsetLang::App(_) => OffsetLang::App([k[0], k[1]]),
            _ => self,
        }
    }

    /// Whether two e-nodes are the same: names by their characters.
    pub open spec fn same_node(a: OffsetLang, b: OffsetLang) -> bool {
        match (a, b) {
            (OffsetLang::Symbol(s), OffsetLang::Symbol(t)) => s@ == t@,
            (OffsetLang::Symbol(_), _) => false,
            (_, OffsetLang::Symbol(_)) => false,
            _ => a == b,
        }
    }

    pub fn children(&self) -> (res: Vec<OffsetId>)
        ensures
            res@ == self.kids(),
    {
        match self {
            OffsetLang::Add(a) => vec![a[0], a[1]],
            OffsetLang::App(a) => vec![a[0], a[1]],
            _ => vec![],
        }
    }

    pub fn set_children(&self, k: &Vec<OffsetId>) -> (res: OffsetLang)
        requires
            k@.len() == self.kids().len(),
        ensures
            res == self.with_kids(k@),
    {
        match self {
            OffsetLang::Add(_) => OffsetLang::Add([k[0], k[1]]),
            OffsetLang::App(_) => OffsetLang::App([k[0], k[1]]),
            OffsetLang::Const(c) => OffsetLang::Const(*c),
            OffsetLang::Symbol(s) => OffsetLang::Symbol(s.dup()),
        }
    }

    /// An exact copy.
    pub fn dup(&self) -> (res: OffsetLang)
        ensures
            res == *self,
    {
        match self {
            OffsetLang::Add(a) => OffsetLang::Add(*a),
            OffsetLang::App(a) => OffsetLang::App(*a),
            OffsetLang::Const(c) => OffsetLang::Const(*c),
            OffsetLang::Symbol(s) => OffsetLang::Symbol(s.dup()),
        }
    }

    pub fn same(&self, other: &OffsetLang) -> (res: bool)
        ensures
            res == Self::same_node(*self, *other),
    {
        match (self, other) {
            (OffsetLang::Add(a), OffsetLang::Add(b)) => {
                let r = crate::cases::caviar_offset::oid_eq(a[0], b[0])
                    && crate::cases::caviar_offset::oid_eq(a[1], b[1]);
                proof {
                    if r {
                        assert(*a =~= *b);
                    }
                }
                r
            },
            (OffsetLang::App(a), OffsetLang::App(b)) => {
                let r = crate::cases::caviar_offset::oid_eq(a[0], b[0])
                    && crate::cases::caviar_offset::oid_eq(a[1], b[1]);
                proof {
                    if r {
                        assert(*a =~= *b);
                    }
                }
                r
            },
            (OffsetLang::Const(c), OffsetLang::Const(d)) => *c == *d,
            (OffsetLang::Symbol(s), OffsetLang::Symbol(t)) => s.same(t),
            _ => false,
        }
    }
}

/// The analysis of `OffsetLang`: e-classes up to an offset, with constants.
pub struct OffsetAnalysis;

/// The canonical form of `n`: `(g, m)` with `n == g*m`.
pub open spec fn offset_canon(n: OffsetLang, uf: Unionfind<Option<i64>>) -> (Offset, Either<OffsetLang, Id>) {
    match n {
        OffsetLang::Add(a) => {
            let (ox, x) = found(uf, a[0]);
            let (oy, y) = found(uf, a[1]);
            let o = ox.0.wrapping_add(oy.0);
            match (uf.data(x.0 as nat), uf.data(y.0 as nat)) {
                (Some(cx), Some(cy)) => (
                    Offset(o.wrapping_add(cx).wrapping_add(cy)),
                    Either::L(OffsetLang::Const(0)),
                ),
                (None, Some(cy)) => (Offset(o.wrapping_add(cy)), Either::R(x)),
                (Some(cx), None) => (Offset(o.wrapping_add(cx)), Either::R(y)),
                (None, None) => (
                    Offset(o),
                    Either::L(OffsetLang::Add([(Offset(0), x), (Offset(0), y)])),
                ),
            }
        },
        OffsetLang::App(a) => (Offset(0), Either::L(OffsetLang::App([found(uf, a[0]), found(uf, a[1])]))),
        OffsetLang::Const(c) => (Offset(c), Either::L(OffsetLang::Const(0))),
        OffsetLang::Symbol(s) => (Offset(0), Either::L(OffsetLang::Symbol(s))),
    }
}

/// The constant that `n` is known to equal: a sum of known constants, or a
/// constant.
pub open spec fn offset_value(n: OffsetLang, uf: Unionfind<Option<i64>>) -> Option<i64> {
    match n {
        OffsetLang::Add(a) => match (child_value(uf, a[0]), child_value(uf, a[1])) {
            (Some(x), Some(y)) => Some(x.wrapping_add(y)),
            _ => None,
        },
        OffsetLang::App(_) => None,
        OffsetLang::Const(c) => Some(c),
        OffsetLang::Symbol(_) => None,
    }
}

/// How `n` is printed, its children printed as `cs`.
pub open spec fn offset_pretty(n: OffsetLang, cs: Seq<Seq<char>>) -> Seq<char> {
    match n {
        OffsetLang::Add(_) => seq!['(', '+', ' '] + cs[0] + seq![' '] + cs[1] + seq![')'],
        OffsetLang::Const(c) => decimal(c as int),
        OffsetLang::Symbol(s) => s@,
        OffsetLang::App(_) => seq!['(', 'a', 'p', 'p', ' '] + cs[0] + seq![' '] + cs[1] + seq![')'],
    }
}

fn push_all(out: &mut Vec<char>, s: &Vec<char>)
    ensures
        final(out)@ == old(out)@ + s@,
{
    let mut i: usize = 0;
    while i < s.len()
        invariant
            i <= s@.len(),
            out@ == old(out)@ + s@.subrange(0, i as int),
        decreases s.len() - i,
    {
        out.push(s[i]);
        i += 1;
        proof {
            assert(s@.subrange(0, i as int) == s@.subrange(0, i - 1).push(s@[i - 1]));
        }
    }
    proof {
        assert(s@.subrange(0, i as int) == s@);
    }
}

/// Every child of `n` is an e-class of `uf` and a root.
pub open spec fn kids_ok(n: OffsetLang, uf: Unionfind<Option<i64>>) -> bool {
    forall|k: int| 0 <= k < n.kids().len() ==> (#[trigger] n.kids()[k]).1.0 < uf.len() && uf.is_root(n.kids()[k].1.0 as nat)
}

/// Sums pushed after the entries of `e_old` leave the implied e-nodes as
/// they were.
pub proof fn lemma_implied_stable(x: Id, e_old: EGraph<OffsetAnalysis>, e: EGraph<OffsetAnalysis>)
    requires
        e_old.entries().len() <= e.entries().len(),
        forall|j: int| 0 <= j < e_old.entries().len() ==> #[trigger] e.entries()[j] == e_old.entries()[j],
        forall|j: int| e_old.entries().len() <= j < e.entries().len() ==> (#[trigger] e.entries()[j]).0 is Add,
    ensures
        OffsetAnalysis::implied_spec(x, e) == OffsetAnalysis::implied_spec(x, e_old),
{
    lemma_lookup_zero_extend(e_old.entries(), e.entries());
    match EGraph::<OffsetAnalysis>::lookup_spec(e_old.entries(), OffsetLang::Const(0)) {
        Some(k) => {
            EGraph::<OffsetAnalysis>::lemma_lookup_found(e_old.entries(), OffsetLang::Const(0));
            assert(e.entries()[k] == e_old.entries()[k]);
        },
        None => {},
    }
}

/// Sums pushed after the entries `old` leave the lookup of the constant `0`
/// as it was.
pub proof fn lemma_lookup_zero_extend(old: Seq<(OffsetLang, OffsetId)>, new: Seq<(OffsetLang, OffsetId)>)
    requires
        old.len() <= new.len(),
        forall|j: int| 0 <= j < old.len() ==> #[trigger] new[j] == old[j],
        forall|j: int| old.len() <= j < new.len() ==> (#[trigger] new[j]).0 is Add,
    ensures
        EGraph::<OffsetAnalysis>::lookup_spec(new, OffsetLang::Const(0)) == EGraph::<OffsetAnalysis>::lookup_spec(
            old,
            OffsetLang::Const(0),
        ),
{
    let z = OffsetLang::Const(0);
    match EGraph::<OffsetAnalysis>::lookup_spec(old, z) {
        Some(k) => {
            EGraph::<OffsetAnalysis>::lemma_lookup_found(old, z);
            assert(new[k] == old[k]);
            assert(OffsetAnalysis::same(new[k].0, z));
            assert forall|j: int| 0 <= j < k implies !OffsetAnalysis::same(#[trigger] new[j].0, z) by {
                assert(new[j] == old[j]);
            }
            EGraph::<OffsetAnalysis>::lemma_lookup_first(new, z, k);
        },
        None => {
            assert forall|j: int| 0 <= j < new.len() implies !OffsetAnalysis::same(#[trigger] new[j].0, z) by {
                if j < old.len() {
                    assert(new[j] == old[j]);
                }
            }
            EGraph::<OffsetAnalysis>::lemma_lookup_index(new, z, None);
        },
    }
}

impl OffsetAnalysis {
    /// The e-nodes `x + 0` and `0 + x` that every e-class `x` has once the
    /// constant `0` is stored (one of them when they coincide).
    pub open spec fn implied_spec(x: Id, eg: EGraph<OffsetAnalysis>) -> Seq<(Offset, OffsetLang)> {
        match EGraph::<OffsetAnalysis>::lookup_spec(eg.entries(), OffsetLang::Const(0)) {
            None => Seq::empty(),
            Some(k) => {
                let zero = (eg.entries()[k].1.0, eg.entries()[k].1.1);
                let xx = (Offset(0), x);
                if xx == zero {
                    seq![(Offset(0), OffsetLang::Add([xx, zero]))]
                } else {
                    seq![
                        (Offset(0), OffsetLang::Add([xx, zero])),
                        (Offset(0), OffsetLang::Add([zero, xx])),
                    ]
                }
            },
        }
    }

    pub fn implied_nodes(x: Id, eg: &EGraph<OffsetAnalysis>) -> (res: Vec<(Offset, OffsetLang)>)
        ensures
            res@ == Self::implied_spec(x, *eg),
    {
        let zero = match eg.lookup(&OffsetLang::Const(0)) {
            Some(z) => z,
            None => {
                return Vec::new();
            },
        };
        let xx = (Offset(0), x);
        let node1 = (Offset(0), OffsetLang::Add([xx, zero]));
        let mut out: Vec<(Offset, OffsetLang)> = Vec::new();
        out.push(node1);
        if !crate::cases::caviar_offset::oid_eq(xx, zero) {
            out.push((Offset(0), OffsetLang::Add([zero, xx])));
        }
        proof {
            assert(out@ =~= Self::implied_spec(x, *eg));
        }
        out
    }

    /// Stores, under every e-class `x`, those of its implied e-nodes (see
    /// `implied_nodes`) whose children are roots: with `x == g*n`, the
    /// e-node `n` is stored as `g⁻¹*x`, as it is.
    /// Stores those implied e-nodes of `x` whose children are roots.
    fn store_implied(eg: &mut EGraph<OffsetAnalysis>, x: Id)
        requires
            old(eg).wf(),
            x.0 < old(eg).unionfind().len(),
        ensures
            final(eg).wf(),
            final(eg).unionfind() == old(eg).unionfind(),
            old(eg).canonical() ==> final(eg).canonical(),
            old(eg).entries().len() <= final(eg).entries().len(),
            forall|q: int| 0 <= q < old(eg).entries().len() ==> #[trigger] final(eg).entries()[q] == old(eg).entries()[q],
            forall|q: int|
                old(eg).entries().len() <= q < final(eg).entries().len() ==> (#[trigger] final(eg).entries()[q]).0 is Add
                    && final(eg).entries()[q].1.0 == Offset(0),
            forall|j: int|
                0 <= j < Self::implied_spec(x, *old(eg)).len() && kids_ok(
                    #[trigger] Self::implied_spec(x, *old(eg))[j].1,
                    old(eg).unionfind(),
                ) ==> exists|q: int|
                    0 <= q < final(eg).entries().len() && final(eg).entries()[q] == (
                        Self::implied_spec(x, *old(eg))[j].1,
                        (Offset(0), x),
                    ),
    {
        let ghost e_old = *eg;
        let imp = OffsetAnalysis::implied_nodes(x, eg);
        let mut j: usize = 0;
        while j < imp.len()
            invariant
                j <= imp@.len(),
                imp@ == Self::implied_spec(x, e_old),
                x.0 < eg.unionfind().len(),
                eg.wf(),
                e_old == *old(eg),
                eg.unionfind() == old(eg).unionfind(),
                old(eg).canonical() ==> eg.canonical(),
                old(eg).entries().len() <= eg.entries().len(),
                forall|q: int| 0 <= q < old(eg).entries().len() ==> #[trigger] eg.entries()[q] == old(eg).entries()[q],
                forall|q: int|
                    old(eg).entries().len() <= q < eg.entries().len() ==> (#[trigger] eg.entries()[q]).0 is Add
                        && eg.entries()[q].1.0 == Offset(0),
                forall|j2: int|
                    0 <= j2 < j && kids_ok(#[trigger] imp@[j2].1, e_old.unionfind()) ==> exists|q: int|
                        0 <= q < eg.entries().len() && eg.entries()[q] == (imp@[j2].1, (Offset(0), x)),
            decreases imp.len() - j,
        {
            let (g, n) = &imp[j];
            let kids = n.children();
            let len = eg.uf().next_id().0;
            let mut ok = true;
            let mut c: usize = 0;
            while c < kids.len()
                invariant
                    c <= kids@.len(),
                    kids@ == n.kids(),
                    len == eg.unionfind().len(),
                    eg.wf(),
                    ok <==> forall|q: int|
                        0 <= q < c ==> (#[trigger] kids@[q]).1.0 < len && eg.unionfind().is_root(
                            kids@[q].1.0 as nat,
                        ),
                decreases kids.len() - c,
            {
                let y = kids[c].1;
                if y.0 >= len {
                    ok = false;
                } else {
                    let (_, r) = eg.find((Offset(0), y));
                    proof {
                        eg.unionfind().lemma_find_from_in_range(Offset(0), y.0 as nat);
                        if eg.unionfind().is_root(y.0 as nat) {
                            eg.unionfind().lemma_find_root(Offset(0), y.0 as nat);
                        }
                    }
                    if r.0 != y.0 {
                        ok = false;
                    }
                }
                c += 1;
            }
            proof {
                assert(ok <==> kids_ok(*n, e_old.unionfind()));
            }
            let ghost e_before = eg.entries();
            if ok {
                proof {
                    OffsetAnalysis::lemma_children_below(*n, eg.unionfind().len());
                }
                let gi = g.inverse();
                proof {
                    assert(imp@[j as int].0 == Offset(0));
                    assert(gi == Offset(0));
                }
                eg.insert_node(n.dup(), (gi, x));
                proof {
                    assert forall|q: int| 0 <= q < old(eg).entries().len() implies #[trigger] eg.entries()[q]
                        == old(eg).entries()[q] by {
                        assert(eg.entries()[q] == e_before[q]);
                    }
                    assert(eg.entries()[e_before.len() as int] == (*n, (Offset(0), x)));
                    assert forall|j2: int|
                        0 <= j2 < j + 1 && kids_ok(#[trigger] imp@[j2].1, e_old.unionfind()) implies exists|q: int|
                        0 <= q < eg.entries().len() && eg.entries()[q] == (imp@[j2].1, (Offset(0), x)) by {
                        if j2 < j {
                            let q = choose|q: int| 0 <= q < e_before.len() && e_before[q] == (imp@[j2].1, (Offset(0), x));
                            assert(eg.entries()[q] == e_before[q]);
                        } else {
                            assert(eg.entries()[e_before.len() as int] == (imp@[j2].1, (Offset(0), x)));
                        }
                    }
                }
            }
            j += 1;
        }
    }

    /// Stores, under every e-class `x`, those of its implied e-nodes (see
    /// `implied_nodes`) whose children are roots: with `x == g*n`, the
    /// e-node `n` is stored as `g⁻¹*x`, as it is.
    pub fn rebuild_nodes(eg: &mut EGraph<OffsetAnalysis>)
        requires
            old(eg).wf(),
        ensures
            final(eg).wf(),
            final(eg).unionfind() == old(eg).unionfind(),
            old(eg).canonical() ==> final(eg).canonical(),
            old(eg).entries().len() <= final(eg).entries().len(),
            forall|j: int| 0 <= j < old(eg).entries().len() ==> #[trigger] final(eg).entries()[j] == old(eg).entries()[j],
            forall|j: int|
                old(eg).entries().len() <= j < final(eg).entries().len() ==> (#[trigger] final(eg).entries()[j]).0 is Add
                    && final(eg).entries()[j].1.0 == Offset(0),
            forall|x: Id, j: int|
                x.0 < old(eg).unionfind().len() && old(eg).unionfind().is_root(x.0 as nat) && 0 <= j
                    < Self::implied_spec(x, *old(eg)).len() && kids_ok(
                    #[trigger] Self::implied_spec(x, *old(eg))[j].1,
                    old(eg).unionfind(),
                ) ==> exists|q: int|
                    0 <= q < final(eg).entries().len() && final(eg).entries()[q] == (
                        Self::implied_spec(x, *old(eg))[j].1,
                        (Offset(0), x),
                    ),
    {
        let ghost e_old = *eg;
        let classes = eg.classes();
        let mut i: usize = 0;
        while i < classes.len()
            invariant
                i <= classes@.len(),
                eg.wf(),
                e_old == *old(eg),
                eg.unionfind() == old(eg).unionfind(),
                old(eg).canonical() ==> eg.canonical(),
                old(eg).entries().len() <= eg.entries().len(),
                forall|j: int| 0 <= j < old(eg).entries().len() ==> #[trigger] eg.entries()[j] == old(eg).entries()[j],
                forall|j: int|
                    old(eg).entries().len() <= j < eg.entries().len() ==> (#[trigger] eg.entries()[j]).0 is Add
                        && eg.entries()[j].1.0 == Offset(0),
                forall|k: int| 0 <= k < classes@.len() ==> (#[trigger] classes@[k]).0 < eg.unionfind().len()
                    && eg.unionfind().is_root(classes@[k].0 as nat),
                forall|c: int, j: int|
                    0 <= c < i && 0 <= j < Self::implied_spec(classes@[c], e_old).len() && kids_ok(
                        #[trigger] Self::implied_spec(classes@[c], e_old)[j].1,
                        e_old.unionfind(),
                    ) ==> exists|q: int|
                        0 <= q < eg.entries().len() && eg.entries()[q] == (
                            Self::implied_spec(classes@[c], e_old)[j].1,
                            (Offset(0), classes@[c]),
                        ),
            decreases classes.len() - i,
        {
            let x = classes[i];
            let ghost e_before = *eg;
            proof {
                lemma_implied_stable(x, e_old, e_before);
            }
            Self::store_implied(eg, x);
            proof {
                assert forall|c: int, j2: int|
                    0 <= c < i + 1 && 0 <= j2 < Self::implied_spec(classes@[c], e_old).len() && kids_ok(
                        #[trigger] Self::implied_spec(classes@[c], e_old)[j2].1,
                        e_old.unionfind(),
                    ) implies exists|q: int|
                        0 <= q < eg.entries().len() && eg.entries()[q] == (
                            Self::implied_spec(classes@[c], e_old)[j2].1,
                            (Offset(0), classes@[c]),
                        ) by {
                    if c < i {
                        let q = choose|q: int| 0 <= q < e_before.entries().len() && e_before.entries()[q] == (
                            Self::implied_spec(classes@[c], e_old)[j2].1,
                            (Offset(0), classes@[c]),
                        );
                        assert(eg.entries()[q] == e_before.entries()[q]);
                    } else {
                        assert(kids_ok(Self::implied_spec(x, e_before)[j2].1, e_before.unionfind()));
                    }
                }
            }
            i += 1;
        }
        proof {
            assert forall|x: Id, j: int|
                x.0 < old(eg).unionfind().len() && old(eg).unionfind().is_root(x.0 as nat) && 0 <= j
                    < Self::implied_spec(x, *old(eg)).len() && kids_ok(
                    #[trigger] Self::implied_spec(x, *old(eg))[j].1,
                    old(eg).unionfind(),
                ) implies exists|q: int|
                    0 <= q < eg.entries().len() && eg.entries()[q] == (
                        Self::implied_spec(x, *old(eg))[j].1,
                        (Offset(0), x),
                    ) by {
                assert(classes@.contains(Id(x.0 as usize)));
                let c = choose|c: int| 0 <= c < classes@.len() && classes@[c] == Id(x.0 as usize);
                assert(classes@[c] == x);
            }
        }
    }

    /// Prints `n`, its children printed as `cs`.
    pub fn prettyprint(n: &OffsetLang, cs: &Vec<String>) -> (res: String)
        requires
            cs@.len() >= n.kids().len(),
        ensures
            res@ == offset_pretty(*n, cs@.map_values(|c: String| c@)),
    {
        let ghost v = cs@.map_values(|c: String| c@);
        match n {
            OffsetLang::Const(c) => {
                let d = decimal_chars(*c);
                string_of_chars(d.as_slice())
            },
            OffsetLang::Symbol(s) => {
                let d = chars_of(s.as_str());
                string_of_chars(d.as_slice())
            },
            _ => {
                let mut out: Vec<char> = Vec::new();
                out.push('(');
                match n {
                    OffsetLang::Add(_) => {
                        out.push('+');
                    },
                    _ => {
                        out.push('a');
                        out.push('p');
                        out.push('p');
                    },
                }
                out.push(' ');
                let c0 = chars_of(cs[0].as_str());
                push_all(&mut out, &c0);
                out.push(' ');
                let c1 = chars_of(cs[1].as_str());
                push_all(&mut out, &c1);
                out.push(')');
                proof {
                    assert(v[0] == cs@[0]@);
                    assert(v[1] == cs@[1]@);
                    assert(out@ =~= offset_pretty(*n, v));
                }
                string_of_chars(out.as_slice())
            },
        }
    }
}

impl Analysis for OffsetAnalysis {
    type G = Offset;

    type S = Option<i64>;

    type L = OffsetLang;

    open spec fn canon_spec(n: OffsetLang, uf: Unionfind<Option<i64>>) -> (Offset, Either<OffsetLang, Id>) {
        offset_canon(n, uf)
    }

    open spec fn mk_spec(n: OffsetLang, id: Id, uf: Unionfind<Option<i64>>) -> Option<i64> {
        offset_value(n, uf)
    }

    open spec fn same(a: OffsetLang, b: OffsetLang) -> bool {
        OffsetLang::same_node(a, b)
    }

    /// Sums match sums, applications applications, any constant any
    /// constant, and names the same name.
    open spec fn same_shape(a: OffsetLang, b: OffsetLang) -> bool {
        match (a, b) {
            (OffsetLang::App(_), OffsetLang::App(_)) => true,
            (OffsetLang::Add(_), OffsetLang::Add(_)) => true,
            (OffsetLang::Const(_), OffsetLang::Const(_)) => true,
            (OffsetLang::Symbol(s), OffsetLang::Symbol(t)) => s@ == t@,
            _ => false,
        }
    }

    open spec fn kids_of(n: OffsetLang) -> Seq<OffsetId> {
        n.kids()
    }

    open spec fn replace_kids(n: OffsetLang, k: Seq<OffsetId>) -> OffsetLang {
        n.with_kids(k)
    }

    open spec fn children_below(n: OffsetLang, len: nat) -> bool {
        forall|i: int| 0 <= i < n.kids().len() ==> (#[trigger] n.kids()[i]).1.0 < len
    }

    proof fn lemma_children_below(n: OffsetLang, len: nat) {
        assert(Self::kids_of(n) == n.kids());
        if Self::children_below(n, len) {
            assert forall|i: int| 0 <= i < Self::kids_of(n).len() implies (#[trigger] Self::kids_of(
                n,
            )[i]).1.0 < len by {
                assert(n.kids()[i] == Self::kids_of(n)[i]);
            }
        }
        if forall|i: int| 0 <= i < Self::kids_of(n).len() ==> (#[trigger] Self::kids_of(n)[i]).1.0 < len {
            assert forall|i: int| 0 <= i < n.kids().len() implies (#[trigger] n.kids()[i]).1.0 < len by {
                assert(n.kids()[i] == Self::kids_of(n)[i]);
            }
        }
    }

    proof fn lemma_same_refl(n: OffsetLang) {
    }

    proof fn lemma_canon_stable(n: OffsetLang, old: Unionfind<Option<i64>>, new: Unionfind<Option<i64>>) {
        assert forall|c: OffsetId| c.1.0 < old.len() implies #[trigger] found(new, c) == found(old, c) && new.data(
            found(old, c).1.0 as nat,
        ) == old.data(found(old, c).1.0 as nat) by {
            Unionfind::lemma_find_same_edges(old, new, c.0, c.1.0 as nat);
            old.lemma_find_from_in_range(c.0, c.1.0 as nat);
        }
        let k = n.kids();
        assert(forall|i: int| 0 <= i < k.len() ==> (#[trigger] k[i]).1.0 < old.len());
        assert(k.map_values(|c: OffsetId| found(new, c)) =~= k.map_values(|c: OffsetId| found(old, c)));
        match n {
            OffsetLang::Add(a) => {
                assert(k[0] == a[0] && k[1] == a[1]);
            },
            OffsetLang::App(a) => {
                assert(k[0] == a[0] && k[1] == a[1]);
            },
            _ => {},
        }
    }

    proof fn lemma_replace_kids(n: OffsetLang, k: Seq<OffsetId>) {
        assert(n.with_kids(k).kids() =~= k);
    }

    fn canon(n: &OffsetLang, uf: &Unionfind<Option<i64>>) -> (res: (Offset, Either<OffsetLang, Id>)) {
        match n {
            OffsetLang::Add(a) => {
                proof {
                    assert(n.kids()[0] == a[0] && n.kids()[1] == a[1]);
                }
                let (ox, x) = uf.find(a[0]);
                let (oy, y) = uf.find(a[1]);
                let o = ox.0.wrapping_add(oy.0);
                let cx = *uf.get_leader_semilattice(x);
                let cy = *uf.get_leader_semilattice(y);
                match (cx, cy) {
                    (Some(cx), Some(cy)) => (
                        Offset(o.wrapping_add(cx).wrapping_add(cy)),
                        Either::L(OffsetLang::Const(0)),
                    ),
                    (None, Some(cy)) => (Offset(o.wrapping_add(cy)), Either::R(x)),
                    (Some(cx), None) => (Offset(o.wrapping_add(cx)), Either::R(y)),
                    (None, None) => {
                        let m = OffsetLang::Add([(Offset(0), x), (Offset(0), y)]);
                        proof {
                            assert(Self::kids_of(m) == seq![(Offset(0), x), (Offset(0), y)]);
                        }
                        (Offset(o), Either::L(m))
                    },
                }
            },
            OffsetLang::App(a) => {
                proof {
                    assert(n.kids()[0] == a[0] && n.kids()[1] == a[1]);
                }
                let x = uf.find(a[0]);
                let y = uf.find(a[1]);
                let m = OffsetLang::App([x, y]);
                proof {
                    assert(Self::kids_of(m) == seq![x, y]);
                }
                (Offset(0), Either::L(m))
            },
            OffsetLang::Const(c) => (Offset(*c), Either::L(OffsetLang::Const(0))),
            OffsetLang::Symbol(s) => (Offset(0), Either::L(OffsetLang::Symbol(s.dup()))),
        }
    }

    fn mk(n: &OffsetLang, id: Id, uf: &Unionfind<Option<i64>>) -> (res: Option<i64>) {
        match n {
            OffsetLang::Add(a) => {
                proof {
                    assert(n.kids()[0] == a[0] && n.kids()[1] == a[1]);
                }
                match (uf.get_semilattice(&a[0]), uf.get_semilattice(&a[1])) {
                    (Some(x), Some(y)) => Some(x.wrapping_add(y)),
                    _ => None,
                }
            },
            OffsetLang::App(_) => None,
            OffsetLang::Const(c) => Some(*c),
            OffsetLang::Symbol(_) => None,
        }
    }

    fn node_eq(a: &OffsetLang, b: &OffsetLang) -> (res: bool) {
        a.same(b)
    }

    fn nodes_match(a: &OffsetLang, b: &OffsetLang) -> (res: bool) {
        match (a, b) {
            (OffsetLang::App(_), OffsetLang::App(_)) => true,
            (OffsetLang::Add(_), OffsetLang::Add(_)) => true,
            (OffsetLang::Const(_), OffsetLang::Const(_)) => true,
            (OffsetLang::Symbol(s), OffsetLang::Symbol(t)) => s.same(t),
            _ => false,
        }
    }

    fn dup_node(n: &OffsetLang) -> (res: OffsetLang) {
        n.dup()
    }

    fn children(n: &OffsetLang) -> (res: Vec<OffsetId>) {
        n.children()
    }

    fn set_children(n: &OffsetLang, k: Vec<OffsetId>) -> (res: OffsetLang) {
        n.set_children(&k)
    }
}

} // verus!
