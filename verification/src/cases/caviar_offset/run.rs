use vstd::prelude::*;
use crate::cases::caviar_offset::analysis::CaviarAnalysis;
use crate::cases::caviar_offset::OffsetId;
use crate::egraph::{Contradiction, EGraph};
use crate::eqsat::{eqsat, rounds_ok, rule_ok, Rule};

verus! {

/// What one step of the search finds about the expression.
pub enum Finding {
    /// The expression is known equal to the constant `0`.
    EqualToZero,
    /// The expression is known equal to the constant `1`.
    EqualToOne,
    /// Neither yet.
    Undecided,
}

/// One step of the search for a value of the expression `expr`: a round of
/// equality saturation with `rules`, then the decision. Stops with
/// `EqualToZero` where `expr` is known equal to `zero`, else with
/// `EqualToOne` where it is known equal to `one`, else goes on.
pub fn caviar_step(
    eg: &mut EGraph<CaviarAnalysis>,
    rules: &Vec<Rule<CaviarAnalysis>>,
    expr: OffsetId,
    zero: OffsetId,
    one: OffsetId,
) -> (res: Result<Finding, Contradiction>)
    requires
        old(eg).wf(),
        old(eg).canonical(),
        forall|i: int| 0 <= i < rules@.len() ==> rule_ok::<CaviarAnalysis>(#[trigger] rules@[i]),
        expr.1.0 < old(eg).unionfind().len(),
        zero.1.0 < old(eg).unionfind().len(),
        one.1.0 < old(eg).unionfind().len(),
    ensures
        final(eg).wf(),
        final(eg).unionfind().len() >= old(eg).unionfind().len(),
        EGraph::<CaviarAnalysis>::keeps_equalities(old(eg).unionfind(), final(eg).unionfind()),
        res is Ok ==> final(eg).canonical() && exists|trace: Seq<EGraph<CaviarAnalysis>>|
            #[trigger] rounds_ok::<CaviarAnalysis>(rules@, trace, *old(eg), *final(eg), 1),
        res matches Ok(f) ==> (f is EqualToZero <==> final(eg).unionfind().equal(zero, expr)),
        res matches Ok(f) ==> (f is EqualToOne <==> !final(eg).unionfind().equal(zero, expr)
            && final(eg).unionfind().equal(one, expr)),
        res is Err ==> final(eg).some_refused() || exists|a: OffsetId, b: OffsetId|
            a.1.0 < final(eg).unionfind().len() && b.1.0 < final(eg).unionfind().len()
                && !#[trigger] final(eg).unionfind().union_ok(a, b),
{
    match eqsat(eg, rules, 1) {
        Ok(()) => {},
        Err(e) => {
            return Err(e);
        },
    }
    if eg.is_equal(zero, expr) {
        Ok(Finding::EqualToZero)
    } else if eg.is_equal(one, expr) {
        Ok(Finding::EqualToOne)
    } else {
        Ok(Finding::Undecided)
    }
}

} // verus!
