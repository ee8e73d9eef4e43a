use vstd::prelude::*;

verus! {

/// A name: of a variable in an expression, or of a pattern variable.
#[derive(PartialEq, Eq, Hash, Clone, Debug)]
pub struct Symbol {
    name: String,
}

impl View for Symbol {
    type V = Seq<char>;

    closed spec fn view(&self) -> Seq<char> {
        self.name@
    }
}

/// The `String` with the characters `v`.
#[verifier::external_body]
pub(crate) fn string_of_chars(v: &[char]) -> (res: String)
    ensures
        res@ == v@,
{
    v.iter().collect::<String>()
}

impl Symbol {
    pub fn new(s: &str) -> (res: Symbol)
        ensures
            res@ == s@,
    {
        Symbol { name: s.to_owned() }
    }

    /// The symbol with the characters `v`.
    pub fn from_chars(v: &[char]) -> (res: Symbol)
        ensures
            res@ == v@,
    {
        Symbol { name: string_of_chars(v) }
    }

    pub fn as_str(&self) -> (res: &str)
        ensures
            res@ == self@,
    {
        self.name.as_str()
    }

    /// Whether the two symbols have the same characters.
    pub fn same(&self, other: &Symbol) -> (res: bool)
        ensures
            res == (self@ == other@),
    {
        self.name == other.name
    }

    /// An exact copy.
    pub fn dup(&self) -> (res: Symbol)
        ensures
            res == *self,
    {
        Symbol { name: self.name.clone() }
    }
}

} // verus!
