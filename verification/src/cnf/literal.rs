use vstd::prelude::*;
use vstd::std_specs::cmp::PartialOrdSpecImpl;
use core::cmp::Ordering;

use super::VariableId;

verus! {

/// A variable together with a sign, packed into one machine word: the
/// variable's id shifted left by one, the lowest bit set for a negated literal.
#[derive(Debug, Copy, Clone, PartialEq, Eq, Structural, Ord, Hash)]
pub struct Literal(pub(crate) usize);

impl Literal {
    /// The packed word.
    pub open(crate) spec fn packed(self) -> usize {
        self.0
    }

    /// The id of the literal's variable, as a number.
    pub open(crate) spec fn var(self) -> int {
        self.0 as int / 2
    }

    pub open(crate) spec fn spec_id(&self) -> VariableId {
        VariableId((self.0 / 2) as usize)
    }

    pub open(crate) spec fn spec_negated(&self) -> bool {
        self.0 % 2 == 1
    }

    /// The literal of `id`, negated or not.
    pub open(crate) spec fn spec_new(id: VariableId, negated: bool) -> Literal {
        Literal((2 * id.0 + if negated { 1int } else { 0int }) as usize)
    }

    pub fn new(id: VariableId, negated: bool) -> (lit: Literal)
        requires
            id.spec_to_usize() <= usize::MAX / 2,
        ensures
            lit == Literal::spec_new(id, negated),
            lit.spec_id() == id,
            lit.spec_negated() == negated,
    {
        let raw: usize = id.as_raw();
        let bit: usize = if negated { 1 } else { 0 };
        Literal(2 * raw + bit)
    }

    #[verifier::when_used_as_spec(spec_id)]
    pub fn id(&self) -> (id: VariableId)
        ensures
            id == self.spec_id(),
            id.spec_to_usize() <= usize::MAX / 2,
    {
        VariableId::from_raw(self.0 / 2)
    }

    #[verifier::when_used_as_spec(spec_negated)]
    pub fn negated(&self) -> (negated: bool)
        ensures
            negated == self.spec_negated(),
    {
        self.0 % 2 == 1
    }

    pub fn disassemble(&self) -> (parts: (VariableId, bool))
        ensures
            parts == (self.spec_id(), self.spec_negated()),
    {
        (self.id(), self.negated())
    }
}

/// Building a literal and taking it apart gives back the id and the sign.
pub proof fn lemma_literal_round_trip(id: VariableId, negated: bool)
    requires
        id.spec_to_usize() <= usize::MAX / 2,
    ensures
        Literal::spec_new(id, negated).spec_id() == id,
        Literal::spec_new(id, negated).spec_negated() == negated,
{
}

/// A literal is its id and its sign: two literals that agree on both are equal.
pub proof fn lemma_literal_parts_decide(a: Literal, b: Literal)
    requires
        a.spec_id() == b.spec_id(),
        a.spec_negated() == b.spec_negated(),
    ensures
        a == b,
{
}

/// Literals are ordered by id first, and on one id the plain literal comes
/// before the negated one. This is the order of the packed words.
pub proof fn lemma_literal_order(a: Literal, b: Literal)
    ensures
        a.packed() < b.packed() <==> (a.var() < b.var() || (a.var() == b.var()
            && !a.spec_negated() && b.spec_negated())),
        a.packed() == b.packed() <==> a == b,
{
}

impl PartialOrd for Literal {
    fn partial_cmp(&self, other: &Self) -> (r: Option<Ordering>) {
        if self.0 < other.0 {
            Some(Ordering::Less)
        } else if self.0 == other.0 {
            Some(Ordering::Equal)
        } else {
            Some(Ordering::Greater)
        }
    }
}

impl PartialOrdSpecImpl for Literal {
    open spec fn obeys_partial_cmp_spec() -> bool {
        true
    }

    open spec fn partial_cmp_spec(&self, other: &Self) -> Option<Ordering> {
        if self.packed() < other.packed() {
            Some(Ordering::Less)
        } else if self.packed() == other.packed() {
            Some(Ordering::Equal)
        } else {
            Some(Ordering::Greater)
        }
    }
}

} // verus!
