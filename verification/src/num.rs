use crate::field::{modulus, FieldElement};
use crate::r1cs::{LinearCombination, R1cs, Variable};
use vstd::prelude::*;

verus! {

/// A variable of a constraint system together with the value it was given,
/// if it was given one.
#[derive(Clone, Copy, Debug)]
pub struct AllocatedNum {
    value: Option<FieldElement>,
    variable: Variable,
}

/// The product of two optional residues: present when both are.
pub open spec fn product_of(a: Option<int>, b: Option<int>) -> Option<int> {
    if a.is_some() && b.is_some() {
        Some((a.unwrap() * b.unwrap()) % modulus())
    } else {
        None
    }
}

/// The sum of two optional residues: present when both are.
pub open spec fn sum_of(a: Option<int>, b: Option<int>) -> Option<int> {
    if a.is_some() && b.is_some() {
        Some((a.unwrap() + b.unwrap()) % modulus())
    } else {
        None
    }
}

/// `after` is `before` with one more variable, `out`, and one more
/// constraint.
pub open spec fn gate_added(before: R1cs, after: R1cs, out: AllocatedNum) -> bool {
    &&& after.wf()
    &&& out.allocated_in(after)
    &&& out.variable().0 == before.values().len()
    &&& after.values() == before.values().push(out.value())
    &&& after.constraints().len() == before.constraints().len() + 1
    &&& after.constraints().drop_last() == before.constraints()
}

/// A number of a system is a number of every system that extends it.
pub proof fn lemma_allocated_kept(before: R1cs, after: R1cs, a: AllocatedNum)
    requires
        a.allocated_in(before),
        after.extends(&before),
    ensures
        a.allocated_in(after),
{
    let n = before.values().len() as int;
    assert(after.values().take(n)[a.variable().0 as int] == after.values()[a.variable().0 as int]);
}

/// The values of a sequence of numbers.
pub open spec fn numbers(s: Seq<AllocatedNum>) -> Seq<Option<int>> {
    Seq::new(s.len(), |i: int| s[i].number())
}

/// Every number of the sequence belongs to `cs`.
pub open spec fn all_allocated_in(s: Seq<AllocatedNum>, cs: R1cs) -> bool {
    forall|i: int| 0 <= i < s.len() ==> (#[trigger] s[i]).allocated_in(cs)
}

/// Every entry of the sequence has a value.
pub open spec fn all_present(s: Seq<Option<int>>) -> bool {
    forall|i: int| 0 <= i < s.len() ==> (#[trigger] s[i]).is_some()
}

/// A system with one more gate extends the system without it.
pub proof fn lemma_gate_extends(before: R1cs, after: R1cs, out: AllocatedNum)
    requires
        gate_added(before, after, out),
    ensures
        after.extends(&before),
{
    assert(after.values().take(before.values().len() as int) =~= before.values());
    assert(after.constraints().take(before.constraints().len() as int)
        =~= after.constraints().drop_last());
}

/// In a satisfied system every number has a value.
pub proof fn lemma_satisfied_all_present(cs: R1cs, s: Seq<AllocatedNum>)
    requires
        cs.satisfied(),
        all_allocated_in(s, cs),
    ensures
        all_present(numbers(s)),
{
    assert forall|i: int| 0 <= i < s.len() implies (#[trigger] numbers(s)[i]).is_some() by {
        assert(s[i].allocated_in(cs));
        assert(cs.values()[s[i].variable().0 as int].is_some());
    }
}

/// The numbers of a system are numbers of every system that extends it.
pub proof fn lemma_all_allocated_kept(before: R1cs, after: R1cs, s: Seq<AllocatedNum>)
    requires
        all_allocated_in(s, before),
        after.extends(&before),
    ensures
        all_allocated_in(s, after),
{
    assert forall|i: int| 0 <= i < s.len() implies (#[trigger] s[i]).allocated_in(after) by {
        lemma_allocated_kept(before, after, s[i]);
    }
}

/// After a product gate for `a` and `b`, the system is satisfied exactly when
/// it was before and both factors have a value.
pub proof fn lemma_product_keeps_satisfied(
    before: R1cs,
    after: R1cs,
    a: AllocatedNum,
    b: AllocatedNum,
    out: AllocatedNum,
)
    requires
        before.wf(),
        a.allocated_in(before),
        b.allocated_in(before),
        gate_added(before, after, out),
        after.constraints().last().is_product_gate(a.variable(), b.variable(), out.variable()),
        out.number() == product_of(a.number(), b.number()),
    ensures
        after.satisfied() == (before.satisfied() && a.number().is_some() && b.number().is_some()),
{
    let c = after.constraints().last();
    assert(after.constraints() =~= before.constraints().push(c));
    after.lemma_satisfied_with_gate(&before, out.value(), c);
    if out.value().is_some() {
        after.lemma_witness_residues();
        let w = after.witness();
        assert(after.values()[a.variable().0 as int] == before.values()[a.variable().0 as int]);
        assert(after.values()[b.variable().0 as int] == before.values()[b.variable().0 as int]);
        c.lemma_product_gate(a.variable(), b.variable(), out.variable(), w);
    }
}

/// After a sum gate for `a` and `b`, the system is satisfied exactly when it
/// was before and both terms have a value.
pub proof fn lemma_sum_keeps_satisfied(
    before: R1cs,
    after: R1cs,
    a: AllocatedNum,
    b: AllocatedNum,
    out: AllocatedNum,
)
    requires
        before.wf(),
        a.allocated_in(before),
        b.allocated_in(before),
        gate_added(before, after, out),
        after.constraints().last().is_sum_gate(a.variable(), b.variable(), out.variable()),
        out.number() == sum_of(a.number(), b.number()),
    ensures
        after.satisfied() == (before.satisfied() && a.number().is_some() && b.number().is_some()),
{
    let c = after.constraints().last();
    assert(after.constraints() =~= before.constraints().push(c));
    after.lemma_satisfied_with_gate(&before, out.value(), c);
    if out.value().is_some() {
        after.lemma_witness_residues();
        let w = after.witness();
        assert(after.values()[a.variable().0 as int] == before.values()[a.variable().0 as int]);
        assert(after.values()[b.variable().0 as int] == before.values()[b.variable().0 as int]);
        c.lemma_sum_gate(a.variable(), b.variable(), out.variable(), w);
    }
}

impl AllocatedNum {
    /// The value that the variable was given.
    pub closed spec fn value(&self) -> Option<FieldElement> {
        self.value
    }

    /// The variable.
    pub closed spec fn variable(&self) -> Variable {
        self.variable
    }

    /// The value as a number.
    pub open spec fn number(&self) -> Option<int> {
        match self.value() {
            Some(f) => Some(f@),
            None => None,
        }
    }

    /// The variable belongs to `cs` and has this value there.
    pub open spec fn allocated_in(&self, cs: R1cs) -> bool {
        &&& self.variable().0 < cs.values().len()
        &&& cs.values()[self.variable().0 as int] == self.value()
        &&& self.value().is_some() ==> self.value().unwrap().wf()
    }

    /// Allocates a variable with the given value, or with none.
    pub fn allocate(cs: &mut R1cs, value: Option<FieldElement>) -> (r: AllocatedNum)
        requires
            old(cs).wf(),
            value.is_some() ==> value.unwrap().wf(),
        ensures
            final(cs).wf(),
            r.allocated_in(*final(cs)),
            r.value() == value,
            r.variable().0 == old(cs).values().len(),
            final(cs).values() == old(cs).values().push(value),
            final(cs).constraints() == old(cs).constraints(),
    {
        let variable = cs.allocate(value);
        AllocatedNum { value, variable }
    }

    /// The value that the variable was given.
    pub fn get_value(&self) -> (r: Option<FieldElement>)
        ensures
            r == self.value(),
    {
        self.value
    }

    /// The variable.
    pub fn get_variable(&self) -> (r: Variable)
        ensures
            r == self.variable(),
    {
        self.variable
    }

    /// Allocates the square of this number and enforces, by one product gate,
    /// that it is the square.
    pub fn square(&self, cs: &mut R1cs) -> (r: AllocatedNum)
        requires
            old(cs).wf(),
            self.allocated_in(*old(cs)),
        ensures
            gate_added(*old(cs), *final(cs), r),
            final(cs).constraints().last().is_product_gate(
                self.variable(),
                self.variable(),
                r.variable(),
            ),
            r.number() == product_of(self.number(), self.number()),
    {
        let value = match self.value {
            Some(v) => Some(v.squared()),
            None => None,
        };
        let variable = cs.allocate(value);
        let ghost middle = *cs;
        cs.enforce(
            LinearCombination::single(self.variable),
            LinearCombination::single(self.variable),
            LinearCombination::single(variable),
        );
        proof {
            assert(cs.constraints().drop_last() =~= middle.constraints());
        }
        AllocatedNum { value, variable }
    }

    /// Allocates the product of this number and `other` and enforces, by one
    /// product gate, that it is the product.
    pub fn mul(&self, cs: &mut R1cs, other: &AllocatedNum) -> (r: AllocatedNum)
        requires
            old(cs).wf(),
            self.allocated_in(*old(cs)),
            other.allocated_in(*old(cs)),
        ensures
            gate_added(*old(cs), *final(cs), r),
            final(cs).constraints().last().is_product_gate(
                self.variable(),
                other.variable(),
                r.variable(),
            ),
            r.number() == product_of(self.number(), other.number()),
    {
        let value = match (self.value, other.value) {
            (Some(a), Some(b)) => Some(a.times(&b)),
            _ => None,
        };
        let variable = cs.allocate(value);
        let ghost middle = *cs;
        cs.enforce(
            LinearCombination::single(self.variable),
            LinearCombination::single(other.variable),
            LinearCombination::single(variable),
        );
        proof {
            assert(cs.constraints().drop_last() =~= middle.constraints());
        }
        AllocatedNum { value, variable }
    }

    /// Allocates the sum of this number and `other` and enforces, by one
    /// gate that multiplies their sum by the constant one, that it is the
    /// sum.
    pub fn add(&self, cs: &mut R1cs, other: &AllocatedNum) -> (r: AllocatedNum)
        requires
            old(cs).wf(),
            self.allocated_in(*old(cs)),
            other.allocated_in(*old(cs)),
        ensures
            gate_added(*old(cs), *final(cs), r),
            final(cs).constraints().last().is_sum_gate(
                self.variable(),
                other.variable(),
                r.variable(),
            ),
            r.number() == sum_of(self.number(), other.number()),
    {
        let value = match (self.value, other.value) {
            (Some(a), Some(b)) => Some(a.plus(&b)),
            _ => None,
        };
        let variable = cs.allocate(value);
        let ghost middle = *cs;
        cs.enforce(
            LinearCombination::pair(self.variable, other.variable),
            LinearCombination::single(R1cs::one()),
            LinearCombination::single(variable),
        );
        proof {
            assert(cs.constraints().drop_last() =~= middle.constraints());
        }
        AllocatedNum { value, variable }
    }
}

} // verus!
