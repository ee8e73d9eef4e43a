use vstd::prelude::*;
use crate::api::Id;
use crate::offset::Offset;
use crate::symbol::Symbol;

pub mod analysis;
pub mod expressions;
pub mod parse;
pub mod print;
pub mod rules;
pub mod run;

verus! {

broadcast use vstd::array::group_array_axioms;

/// A child of an e-node: the e-class `x`, shifted by `g`, written `g*x`.
pub type OffsetId = (Offset, Id);

/// The e-nodes of the arithmetic language: binary operators, negation,
/// integer constants and variables.
#[derive(PartialEq, Eq, Hash, Debug)]
pub enum CaviarLang {
    Add([OffsetId; 2]),
    Sub([OffsetId; 2]),
    Mul([OffsetId; 2]),
    Div([OffsetId; 2]),
    Mod([OffsetId; 2]),
    Max([OffsetId; 2]),
    Min([OffsetId; 2]),
    Lt([OffsetId; 2]),
    Gt([OffsetId; 2]),
    Not(OffsetId),
    Let([OffsetId; 2]),
    Get([OffsetId; 2]),
    Eq([OffsetId; 2]),
    IEq([OffsetId; 2]),
    Or([OffsetId; 2]),
    And([OffsetId; 2]),
    Constant(i64),
    Symbol(Symbol),
}

impl CaviarLang {
    /// The children, in order.
    pub open spec fn kids(self) -> Seq<OffsetId> {
        match self {
            CaviarLang::Add(a) => seq![a[0], a[1]],
            CaviarLang::Sub(a) => seq![a[0], a[1]],
            CaviarLang::Mul(a) => seq![a[0], a[1]],
            CaviarLang::Div(a) => seq![a[0], a[1]],
            CaviarLang::Mod(a) => seq![a[0], a[1]],
            CaviarLang::Max(a) => seq![a[0], a[1]],
            CaviarLang::Min(a) => seq![a[0], a[1]],
            CaviarLang::Lt(a) => seq![a[0], a[1]],
            CaviarLang::Gt(a) => seq![a[0], a[1]],
            CaviarLang::Let(a) => seq![a[0], a[1]],
            CaviarLang::Get(a) => seq![a[0], a[1]],
            CaviarLang::Eq(a) => seq![a[0], a[1]],
            CaviarLang::IEq(a) => seq![a[0], a[1]],
            CaviarLang::Or(a) => seq![a[0], a[1]],
            CaviarLang::And(a) => seq![a[0], a[1]],
            CaviarLang::Not(x) => seq![x],
            CaviarLang::Constant(_) => seq![],
            CaviarLang::Symbol(_) => seq![],
        }
    }

    /// The same e-node with the children `k` in place of its own.
    pub open spec fn with_kids(self, k: Seq<OffsetId>) -> CaviarLang {
        match self {
            CaviarLang::Add(_) => CaviarLang::Add([k[0], k[1]]),
            CaviarLang::Sub(_) => CaviarLang::Sub([k[0], k[1]]),
            CaviarLang::Mul(_) => CaviarLang::Mul([k[0], k[1]]),
            CaviarLang::Div(_) => CaviarLang::Div([k[0], k[1]]),
            CaviarLang::Mod(_) => CaviarLang::Mod([k[0], k[1]]),
            CaviarLang::Max(_) => CaviarLang::Max([k[0], k[1]]),
            CaviarLang::Min(_) => CaviarLang::Min([k[0], k[1]]),
            CaviarLang::Lt(_) => CaviarLang::Lt([k[0], k[1]]),
            CaviarLang::Gt(_) => CaviarLang::Gt([k[0], k[1]]),
            CaviarLang::Let(_) => CaviarLang::Let([k[0], k[1]]),
            CaviarLang::Get(_) => CaviarLang::Get([k[0], k[1]]),
            CaviarLang::Eq(_) => CaviarLang::Eq([k[0], k[1]]),
            CaviarLang::IEq(_) => CaviarLang::IEq([k[0], k[1]]),
            CaviarLang::Or(_) => CaviarLang::Or([k[0], k[1]]),
            CaviarLang::And(_) => CaviarLang::And([k[0], k[1]]),
            CaviarLang::Not(_) => CaviarLang::Not(k[0]),
            CaviarLang::Constant(c) => CaviarLang::Constant(c),
            CaviarLang::Symbol(s) => CaviarLang::Symbol(s),
        }
    }

    /// Whether two e-nodes are the same: variables by their names, all else
    /// by equality.
    pub open spec fn same_node(a: CaviarLang, b: CaviarLang) -> bool {
        match (a, b) {
            (CaviarLang::Symbol(s), CaviarLang::Symbol(t)) => s@ == t@,
            (CaviarLang::Symbol(_), _) => false,
            (_, CaviarLang::Symbol(_)) => false,
            _ => a == b,
        }
    }

    /// The children, in order.
    pub fn children(&self) -> (res: Vec<OffsetId>)
        ensures
            res@ == self.kids(),
    {
        match self {
            CaviarLang::Add(a) => vec![a[0], a[1]],
            CaviarLang::Sub(a) => vec![a[0], a[1]],
            CaviarLang::Mul(a) => vec![a[0], a[1]],
            CaviarLang::Div(a) => vec![a[0], a[1]],
            CaviarLang::Mod(a) => vec![a[0], a[1]],
            CaviarLang::Max(a) => vec![a[0], a[1]],
            CaviarLang::Min(a) => vec![a[0], a[1]],
            CaviarLang::Lt(a) => vec![a[0], a[1]],
            CaviarLang::Gt(a) => vec![a[0], a[1]],
            CaviarLang::Let(a) => vec![a[0], a[1]],
            CaviarLang::Get(a) => vec![a[0], a[1]],
            CaviarLang::Eq(a) => vec![a[0], a[1]],
            CaviarLang::IEq(a) => vec![a[0], a[1]],
            CaviarLang::Or(a) => vec![a[0], a[1]],
            CaviarLang::And(a) => vec![a[0], a[1]],
            CaviarLang::Not(x) => vec![*x],
            CaviarLang::Constant(_) => vec![],
            CaviarLang::Symbol(_) => vec![],
        }
    }

    /// This e-node with the children `k` in place of its own.
    pub fn set_children(&self, k: &Vec<OffsetId>) -> (res: CaviarLang)
        requires
            k@.len() == self.kids().len(),
        ensures
            res == self.with_kids(k@),
    {
        match self {
            CaviarLang::Add(_) => CaviarLang::Add([k[0], k[1]]),
            CaviarLang::Sub(_) => CaviarLang::Sub([k[0], k[1]]),
            CaviarLang::Mul(_) => CaviarLang::Mul([k[0], k[1]]),
            CaviarLang::Div(_) => CaviarLang::Div([k[0], k[1]]),
            CaviarLang::Mod(_) => CaviarLang::Mod([k[0], k[1]]),
            CaviarLang::Max(_) => CaviarLang::Max([k[0], k[1]]),
            CaviarLang::Min(_) => CaviarLang::Min([k[0], k[1]]),
            CaviarLang::Lt(_) => CaviarLang::Lt([k[0], k[1]]),
            CaviarLang::Gt(_) => CaviarLang::Gt([k[0], k[1]]),
            CaviarLang::Let(_) => CaviarLang::Let([k[0], k[1]]),
            CaviarLang::Get(_) => CaviarLang::Get([k[0], k[1]]),
            CaviarLang::Eq(_) => CaviarLang::Eq([k[0], k[1]]),
            CaviarLang::IEq(_) => CaviarLang::IEq([k[0], k[1]]),
            CaviarLang::Or(_) => CaviarLang::Or([k[0], k[1]]),
            CaviarLang::And(_) => CaviarLang::And([k[0], k[1]]),
            CaviarLang::Not(_) => CaviarLang::Not(k[0]),
            CaviarLang::Constant(c) => CaviarLang::Constant(*c),
            CaviarLang::Symbol(s) => CaviarLang::Symbol(s.dup()),
        }
    }

    /// An exact copy.
    pub fn dup(&self) -> (res: CaviarLang)
        ensures
            res == *self,
    {
        match self {
            CaviarLang::Add(a) => CaviarLang::Add(*a),
            CaviarLang::Sub(a) => CaviarLang::Sub(*a),
            CaviarLang::Mul(a) => CaviarLang::Mul(*a),
            CaviarLang::Div(a) => CaviarLang::Div(*a),
            CaviarLang::Mod(a) => CaviarLang::Mod(*a),
            CaviarLang::Max(a) => CaviarLang::Max(*a),
            CaviarLang::Min(a) => CaviarLang::Min(*a),
            CaviarLang::Lt(a) => CaviarLang::Lt(*a),
            CaviarLang::Gt(a) => CaviarLang::Gt(*a),
            CaviarLang::Let(a) => CaviarLang::Let(*a),
            CaviarLang::Get(a) => CaviarLang::Get(*a),
            CaviarLang::Eq(a) => CaviarLang::Eq(*a),
            CaviarLang::IEq(a) => CaviarLang::IEq(*a),
            CaviarLang::Or(a) => CaviarLang::Or(*a),
            CaviarLang::And(a) => CaviarLang::And(*a),
            CaviarLang::Not(x) => CaviarLang::Not(*x),
            CaviarLang::Constant(c) => CaviarLang::Constant(*c),
            CaviarLang::Symbol(s) => CaviarLang::Symbol(s.dup()),
        }
    }

    /// Whether `self` and `other` are the same e-node.
    pub fn same(&self, other: &CaviarLang) -> (res: bool)
        ensures
            res == Self::same_node(*self, *other),
    {
        match (self, other) {
            (CaviarLang::Add(a), CaviarLang::Add(b)) => { let r = oid_eq(a[0], b[0]) && oid_eq(a[1], b[1]); proof { if r { assert(*a =~= *b); } } r },
            (CaviarLang::Sub(a), CaviarLang::Sub(b)) => { let r = oid_eq(a[0], b[0]) && oid_eq(a[1], b[1]); proof { if r { assert(*a =~= *b); } } r },
            (CaviarLang::Mul(a), CaviarLang::Mul(b)) => { let r = oid_eq(a[0], b[0]) && oid_eq(a[1], b[1]); proof { if r { assert(*a =~= *b); } } r },
            (CaviarLang::Div(a), CaviarLang::Div(b)) => { let r = oid_eq(a[0], b[0]) && oid_eq(a[1], b[1]); proof { if r { assert(*a =~= *b); } } r },
            (CaviarLang::Mod(a), CaviarLang::Mod(b)) => { let r = oid_eq(a[0], b[0]) && oid_eq(a[1], b[1]); proof { if r { assert(*a =~= *b); } } r },
            (CaviarLang::Max(a), CaviarLang::Max(b)) => { let r = oid_eq(a[0], b[0]) && oid_eq(a[1], b[1]); proof { if r { assert(*a =~= *b); } } r },
            (CaviarLang::Min(a), CaviarLang::Min(b)) => { let r = oid_eq(a[0], b[0]) && oid_eq(a[1], b[1]); proof { if r { assert(*a =~= *b); } } r },
            (CaviarLang::Lt(a), CaviarLang::Lt(b)) => { let r = oid_eq(a[0], b[0]) && oid_eq(a[1], b[1]); proof { if r { assert(*a =~= *b); } } r },
            (CaviarLang::Gt(a), CaviarLang::Gt(b)) => { let r = oid_eq(a[0], b[0]) && oid_eq(a[1], b[1]); proof { if r { assert(*a =~= *b); } } r },
            (CaviarLang::Let(a), CaviarLang::Let(b)) => { let r = oid_eq(a[0], b[0]) && oid_eq(a[1], b[1]); proof { if r { assert(*a =~= *b); } } r },
            (CaviarLang::Get(a), CaviarLang::Get(b)) => { let r = oid_eq(a[0], b[0]) && oid_eq(a[1], b[1]); proof { if r { assert(*a =~= *b); } } r },
            (CaviarLang::Eq(a), CaviarLang::Eq(b)) => { let r = oid_eq(a[0], b[0]) && oid_eq(a[1], b[1]); proof { if r { assert(*a =~= *b); } } r },
            (CaviarLang::IEq(a), CaviarLang::IEq(b)) => { let r = oid_eq(a[0], b[0]) && oid_eq(a[1], b[1]); proof { if r { assert(*a =~= *b); } } r },
            (CaviarLang::Or(a), CaviarLang::Or(b)) => { let r = oid_eq(a[0], b[0]) && oid_eq(a[1], b[1]); proof { if r { assert(*a =~= *b); } } r },
            (CaviarLang::And(a), CaviarLang::And(b)) => { let r = oid_eq(a[0], b[0]) && oid_eq(a[1], b[1]); proof { if r { assert(*a =~= *b); } } r },
            (CaviarLang::Not(x), CaviarLang::Not(y)) => oid_eq(*x, *y),
            (CaviarLang::Constant(c), CaviarLang::Constant(d)) => *c == *d,
            (CaviarLang::Symbol(s), CaviarLang::Symbol(t)) => s.same(t),
            _ => false,
        }
    }
}

/// Whether two children are the same.
pub fn oid_eq(a: OffsetId, b: OffsetId) -> (res: bool)
    ensures
        res == (a == b),
{
    a.0.0 == b.0.0 && a.1.0 == b.1.0
}

} // verus!
