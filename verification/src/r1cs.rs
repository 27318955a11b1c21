use crate::field::{modulus, FieldElement};
use vstd::arithmetic::div_mod::{lemma_add_mod_noop_right, lemma_small_mod};
use vstd::prelude::*;

verus! {

/// A handle to a variable of a constraint system: its position in the
/// assignment. Position 0 is the constant one.
#[derive(Clone, Copy, Debug, PartialEq, Eq)]
pub struct Variable(pub usize);

/// A weighted sum of variables.
#[derive(Debug)]
pub struct LinearCombination {
    pub terms: Vec<(Variable, FieldElement)>,
}

/// The claim that the product of two linear combinations equals a third.
#[derive(Debug)]
pub struct Constraint {
    pub a: LinearCombination,
    pub b: LinearCombination,
    pub c: LinearCombination,
}

/// The value of a weighted sum under the assignment `w`, in the field.
pub open spec fn eval_terms(terms: Seq<(Variable, FieldElement)>, w: Seq<int>) -> int
    decreases terms.len(),
{
    if terms.len() == 0 {
        0
    } else {
        (eval_terms(terms.drop_last(), w) + terms.last().1@ * w[terms.last().0.0 as int])
            % modulus()
    }
}

/// The representatives of a sequence of field elements.
pub open spec fn representatives(s: Seq<FieldElement>) -> Seq<int> {
    Seq::new(s.len(), |i: int| s[i]@)
}

impl LinearCombination {
    /// Every variable lies among the first `n`, and every weight is a field
    /// element.
    pub open spec fn wf(&self, n: nat) -> bool {
        forall|i: int|
            0 <= i < self.terms@.len() ==> (#[trigger] self.terms@[i]).0.0 < n
                && self.terms@[i].1.wf()
    }

    /// The value of the combination under the assignment `w`.
    pub open spec fn eval(&self, w: Seq<int>) -> int {
        eval_terms(self.terms@, w)
    }

    /// The combination is the plain sum of `vars`: one term for each, in
    /// order, each with weight one.
    pub open spec fn is_unit_sum(&self, vars: Seq<Variable>) -> bool {
        &&& self.terms@.len() == vars.len()
        &&& forall|i: int|
            0 <= i < vars.len() ==> (#[trigger] self.terms@[i]).0 == vars[i]
                && self.terms@[i].1.wf() && self.terms@[i].1@ == 1
    }

    /// The combination that is the single variable `v`.
    pub fn single(v: Variable) -> (r: LinearCombination)
        ensures
            r.is_unit_sum(seq![v]),
    {
        let mut terms: Vec<(Variable, FieldElement)> = Vec::new();
        terms.push((v, FieldElement::one()));
        LinearCombination { terms }
    }

    /// The combination that is the sum of the variables `u` and `v`.
    pub fn pair(u: Variable, v: Variable) -> (r: LinearCombination)
        ensures
            r.is_unit_sum(seq![u, v]),
    {
        let mut terms: Vec<(Variable, FieldElement)> = Vec::new();
        terms.push((u, FieldElement::one()));
        terms.push((v, FieldElement::one()));
        LinearCombination { terms }
    }

    /// The value of the combination under the assignment `w`.
    pub fn evaluate(&self, w: &Vec<FieldElement>) -> (r: FieldElement)
        requires
            self.wf(w@.len()),
            forall|i: int| 0 <= i < w@.len() ==> (#[trigger] w@[i]).wf(),
        ensures
            r.wf(),
            r@ == self.eval(representatives(w@)),
    {
        let ghost ws = representatives(w@);
        let mut acc = FieldElement::zero();
        let mut i: usize = 0;
        while i < self.terms.len()
            invariant
                0 <= i <= self.terms@.len(),
                self.wf(w@.len()),
                forall|j: int| 0 <= j < w@.len() ==> (#[trigger] w@[j]).wf(),
                ws == representatives(w@),
                acc.wf(),
                acc@ == eval_terms(self.terms@.take(i as int), ws),
            decreases self.terms@.len() - i,
        {
            let var = self.terms[i].0;
            let weight = self.terms[i].1;
            assert(self.terms@[i as int].0.0 < w@.len());
            let product = weight.times(&w[var.0]);
            let next = acc.plus(&product);
            proof {
                let prefix = self.terms@.take(i as int + 1);
                assert(prefix.drop_last() == self.terms@.take(i as int));
                assert(prefix.last() == self.terms@[i as int]);
                assert(ws[var.0 as int] == w@[var.0 as int]@);
                lemma_add_mod_noop_right(acc@, weight@ * ws[var.0 as int], modulus());
            }
            acc = next;
            i = i + 1;
        }
        assert(self.terms@.take(i as int) == self.terms@);
        acc
    }
}

/// A residue for each of at least `n` variables.
pub open spec fn residues(w: Seq<int>, n: nat) -> bool {
    &&& w.len() >= n
    &&& forall|i: int| 0 <= i < w.len() ==> 0 <= #[trigger] w[i] < modulus()
}

/// The plain sum of one variable evaluates to that variable.
pub proof fn lemma_eval_single(lc: LinearCombination, v: Variable, w: Seq<int>)
    requires
        lc.is_unit_sum(seq![v]),
        v.0 < w.len(),
        residues(w, 0),
    ensures
        lc.eval(w) == w[v.0 as int],
{
    let t = lc.terms@;
    assert(t[0].0 == seq![v][0]);
    assert(t.drop_last().len() == 0);
    assert(eval_terms(t.drop_last(), w) == 0);
    assert(t.last() == t[0]);
    lemma_small_mod(w[t[0].0.0 as int] as nat, modulus() as nat);
}

/// The plain sum of two variables evaluates to their sum in the field.
pub proof fn lemma_eval_pair(lc: LinearCombination, u: Variable, v: Variable, w: Seq<int>)
    requires
        lc.is_unit_sum(seq![u, v]),
        u.0 < w.len(),
        v.0 < w.len(),
        residues(w, 0),
    ensures
        lc.eval(w) == (w[u.0 as int] + w[v.0 as int]) % modulus(),
{
    let t = lc.terms@;
    assert(t[0].0 == seq![u, v][0]);
    assert(t[1].0 == seq![u, v][1]);
    let first = t.drop_last();
    assert(first.len() == 1);
    assert(first.drop_last().len() == 0);
    assert(eval_terms(first.drop_last(), w) == 0);
    assert(first.last() == t[0]);
    assert(t.last() == t[1]);
    lemma_small_mod(w[t[0].0.0 as int] as nat, modulus() as nat);
    assert(eval_terms(first, w) == w[t[0].0.0 as int]);
}

/// The value of a combination depends only on the variables it speaks of.
pub proof fn lemma_eval_agrees(terms: Seq<(Variable, FieldElement)>, n: nat, w1: Seq<int>, w2: Seq<int>)
    requires
        forall|i: int| 0 <= i < terms.len() ==> (#[trigger] terms[i]).0.0 < n,
        w1.len() >= n,
        w2.len() >= n,
        forall|i: int| 0 <= i < n ==> w1[i] == w2[i],
    ensures
        eval_terms(terms, w1) == eval_terms(terms, w2),
    decreases terms.len(),
{
    if terms.len() > 0 {
        let rest = terms.drop_last();
        assert forall|i: int| 0 <= i < rest.len() implies (#[trigger] rest[i]).0.0 < n by {
            assert(rest[i] == terms[i]);
        }
        lemma_eval_agrees(rest, n, w1, w2);
        assert(terms.last() == terms[terms.len() - 1]);
    }
}

impl Constraint {
    /// The constraint says that the product of the variables `a` and `b` is
    /// the variable `out`.
    pub open spec fn is_product_gate(&self, a: Variable, b: Variable, out: Variable) -> bool {
        self.a.is_unit_sum(seq![a]) && self.b.is_unit_sum(seq![b]) && self.c.is_unit_sum(
            seq![out],
        )
    }

    /// The constraint says that the sum of the variables `a` and `b`, times
    /// the constant one, is the variable `out`.
    pub open spec fn is_sum_gate(&self, a: Variable, b: Variable, out: Variable) -> bool {
        self.a.is_unit_sum(seq![a, b]) && self.b.is_unit_sum(seq![Variable(0)])
            && self.c.is_unit_sum(seq![out])
    }

    /// What a product gate says of an assignment.
    pub proof fn lemma_product_gate(&self, a: Variable, b: Variable, out: Variable, w: Seq<int>)
        requires
            self.is_product_gate(a, b, out),
            a.0 < w.len(),
            b.0 < w.len(),
            out.0 < w.len(),
            residues(w, 0),
        ensures
            self.holds(w) == ((w[a.0 as int] * w[b.0 as int]) % modulus() == w[out.0 as int]),
    {
        lemma_eval_single(self.a, a, w);
        lemma_eval_single(self.b, b, w);
        lemma_eval_single(self.c, out, w);
    }

    /// What a sum gate says of an assignment that gives the constant its
    /// value.
    pub proof fn lemma_sum_gate(&self, a: Variable, b: Variable, out: Variable, w: Seq<int>)
        requires
            self.is_sum_gate(a, b, out),
            a.0 < w.len(),
            b.0 < w.len(),
            out.0 < w.len(),
            residues(w, 1),
            w[0] == 1,
        ensures
            self.holds(w) == ((w[a.0 as int] + w[b.0 as int]) % modulus() == w[out.0 as int]),
    {
        lemma_eval_pair(self.a, a, b, w);
        lemma_eval_single(self.b, Variable(0), w);
        lemma_eval_single(self.c, out, w);
        let s = (w[a.0 as int] + w[b.0 as int]) % modulus();
        assert(s * 1 == s);
        lemma_small_mod(s as nat, modulus() as nat);
    }

    /// Whether a constraint is met depends only on the variables it speaks
    /// of.
    pub proof fn lemma_holds_agrees(&self, n: nat, w1: Seq<int>, w2: Seq<int>)
        requires
            self.wf(n),
            w1.len() >= n,
            w2.len() >= n,
            forall|i: int| 0 <= i < n ==> w1[i] == w2[i],
        ensures
            self.holds(w1) == self.holds(w2),
    {
        lemma_eval_agrees(self.a.terms@, n, w1, w2);
        lemma_eval_agrees(self.b.terms@, n, w1, w2);
        lemma_eval_agrees(self.c.terms@, n, w1, w2);
    }

    /// Every variable of the three combinations lies among the first `n`.
    pub open spec fn wf(&self, n: nat) -> bool {
        self.a.wf(n) && self.b.wf(n) && self.c.wf(n)
    }

    /// The constraint is met by the assignment `w`.
    pub open spec fn holds(&self, w: Seq<int>) -> bool {
        (self.a.eval(w) * self.b.eval(w)) % modulus() == self.c.eval(w)
    }
}

/// A rank-1 constraint system under construction: the assignment of its
/// variables, each with or without a value, and the constraints enforced so
/// far, in the order in which they were enforced.
#[derive(Debug)]
pub struct R1cs {
    values: Vec<Option<FieldElement>>,
    constraints: Vec<Constraint>,
}

impl R1cs {
    /// The value of each variable, where it has one.
    pub closed spec fn values(&self) -> Seq<Option<FieldElement>> {
        self.values@
    }

    /// The constraints, oldest first.
    pub closed spec fn constraints(&self) -> Seq<Constraint> {
        self.constraints@
    }

    /// Variable 0 is the constant one, every value is a field element, and
    /// every constraint speaks of allocated variables only.
    pub open spec fn wf(&self) -> bool {
        &&& self.values().len() >= 1
        &&& self.values()[0].is_some()
        &&& self.values()[0].unwrap()@ == 1
        &&& forall|i: int|
            0 <= i < self.values().len() && (#[trigger] self.values()[i]).is_some()
                ==> self.values()[i].unwrap().wf()
        &&& forall|k: int|
            0 <= k < self.constraints().len() ==> (#[trigger] self.constraints()[k]).wf(
                self.values().len(),
            )
    }

    /// Every variable has a value.
    pub open spec fn assigned(&self) -> bool {
        forall|i: int| 0 <= i < self.values().len() ==> (#[trigger] self.values()[i]).is_some()
    }

    /// The assignment as numbers; a variable without a value reads as zero.
    pub open spec fn witness(&self) -> Seq<int> {
        Seq::new(
            self.values().len(),
            |i: int|
                match self.values()[i] {
                    Some(f) => f@,
                    None => 0,
                },
        )
    }

    /// Every variable has a value and every constraint is met by the values.
    pub open spec fn satisfied(&self) -> bool {
        &&& self.assigned()
        &&& forall|k: int|
            0 <= k < self.constraints().len() ==> (#[trigger] self.constraints()[k]).holds(
                self.witness(),
            )
    }

    /// `self` is `before` with more variables and more constraints after
    /// those it had.
    pub open spec fn extends(&self, before: &R1cs) -> bool {
        &&& before.values().len() <= self.values().len()
        &&& self.values().take(before.values().len() as int) == before.values()
        &&& before.constraints().len() <= self.constraints().len()
        &&& self.constraints().take(before.constraints().len() as int) == before.constraints()
    }

    /// Extension is transitive.
    pub proof fn lemma_extends_transitive(&self, middle: &R1cs, before: &R1cs)
        requires
            middle.extends(before),
            self.extends(middle),
        ensures
            self.extends(before),
    {
        let n = before.values().len() as int;
        let m = before.constraints().len() as int;
        assert(self.values().take(n) =~= self.values().take(middle.values().len() as int).take(n));
        assert(self.constraints().take(m) =~= self.constraints().take(
            middle.constraints().len() as int,
        ).take(m));
    }

    /// The values of a well-formed system are residues.
    pub proof fn lemma_witness_residues(&self)
        requires
            self.wf(),
        ensures
            residues(self.witness(), self.values().len()),
            self.witness()[0] == 1,
            forall|i: int|
                0 <= i < self.values().len() && (#[trigger] self.values()[i]).is_some()
                    ==> self.witness()[i] == self.values()[i].unwrap()@,
    {
        let w = self.witness();
        assert forall|i: int| 0 <= i < w.len() implies 0 <= #[trigger] w[i] < modulus() by {
            if self.values()[i].is_some() {
                self.values()[i].unwrap().lemma_view_bounds();
            }
        }
    }

    /// Growing by one variable and one constraint keeps what was there.
    pub proof fn lemma_extends_by_gate(&self, middle: &R1cs, before: &R1cs, v: Option<FieldElement>)
        requires
            middle.extends(before),
            self.values() == middle.values().push(v),
            self.constraints().len() == middle.constraints().len() + 1,
            self.constraints().drop_last() == middle.constraints(),
        ensures
            self.extends(before),
            forall|k: int|
                0 <= k < middle.constraints().len() ==> self.constraints()[k]
                    == middle.constraints()[k],
    {
        let n = before.values().len() as int;
        let m = before.constraints().len() as int;
        assert(self.values().take(n) =~= middle.values().take(n));
        assert forall|k: int| 0 <= k < middle.constraints().len() implies self.constraints()[k]
            == middle.constraints()[k] by {
            assert(self.constraints().drop_last()[k] == self.constraints()[k]);
        }
        assert(self.constraints().take(m) =~= middle.constraints().take(m));
    }

    /// A new variable and a new constraint keep a system satisfied exactly
    /// when the variable has a value and the values meet the constraint.
    pub proof fn lemma_satisfied_with_gate(&self, before: &R1cs, v: Option<FieldElement>, c: Constraint)
        requires
            before.wf(),
            self.values() == before.values().push(v),
            self.constraints() == before.constraints().push(c),
        ensures
            self.satisfied() == (before.satisfied() && v.is_some() && c.holds(self.witness())),
    {
        let n = before.constraints().len() as int;
        assert(self.constraints().take(n) =~= before.constraints());
        self.lemma_satisfied_with_variable(before, v, n);
        assert(self.constraints()[n] == c);
        if self.satisfied() {
            assert(self.constraints()[n].holds(self.witness()));
            assert forall|k: int| 0 <= k < n implies (#[trigger] before.constraints()[k]).holds(
                before.witness(),
            ) by {
                assert(self.constraints()[k] == before.constraints()[k]);
                assert(self.constraints()[k].holds(self.witness()));
            }
        }
    }

    /// With a new variable, the constraints that were there are met exactly
    /// when they were met before.
    pub proof fn lemma_satisfied_with_variable(&self, before: &R1cs, v: Option<FieldElement>, n: int)
        requires
            before.wf(),
            self.values() == before.values().push(v),
            n == before.constraints().len(),
            n <= self.constraints().len(),
            self.constraints().take(n) == before.constraints(),
        ensures
            self.assigned() == (before.assigned() && v.is_some()),
            forall|k: int|
                0 <= k < n ==> (#[trigger] self.constraints()[k]).holds(self.witness())
                    == before.constraints()[k].holds(before.witness()),
            forall|i: int|
                0 <= i < before.values().len() ==> self.witness()[i] == before.witness()[i],
    {
        let m = before.values().len();
        assert(self.values()[m as int] == v);
        assert forall|i: int| 0 <= i < m implies self.values()[i] == before.values()[i] by {}
        if before.assigned() && v.is_some() {
            assert forall|i: int| 0 <= i < self.values().len() implies (
            #[trigger] self.values()[i]).is_some() by {
                if i < m {
                    assert(before.values()[i].is_some());
                }
            }
        }
        if self.assigned() {
            assert(self.values()[m as int].is_some());
            assert forall|i: int| 0 <= i < m implies (#[trigger] before.values()[i]).is_some() by {
                assert(self.values()[i].is_some());
            }
        }
        assert forall|k: int| 0 <= k < n implies (#[trigger] self.constraints()[k]).holds(
            self.witness(),
        ) == before.constraints()[k].holds(before.witness()) by {
            assert(self.constraints().take(n)[k] == self.constraints()[k]);
            assert(before.constraints()[k].wf(m));
            before.constraints()[k].lemma_holds_agrees(m, self.witness(), before.witness());
        }
    }

    /// A new variable keeps a system satisfied exactly when it has a value.
    pub proof fn lemma_satisfied_with_allocation(&self, before: &R1cs, v: Option<FieldElement>)
        requires
            before.wf(),
            self.values() == before.values().push(v),
            self.constraints() == before.constraints(),
        ensures
            self.satisfied() == (before.satisfied() && v.is_some()),
            self.extends(before),
    {
        let n = before.constraints().len() as int;
        assert(self.constraints().take(n) =~= before.constraints());
        assert(self.values().take(before.values().len() as int) =~= before.values());
        self.lemma_satisfied_with_variable(before, v, n);
    }

    /// A new constraint keeps a system satisfied exactly when the values meet
    /// it.
    pub proof fn lemma_satisfied_with_constraint(&self, before: &R1cs, c: Constraint)
        requires
            self.values() == before.values(),
            self.constraints() == before.constraints().push(c),
        ensures
            self.satisfied() == (before.satisfied() && c.holds(self.witness())),
    {
        let n = before.constraints().len() as int;
        assert(self.witness() == before.witness());
        assert(self.constraints()[n] == c);
        if self.satisfied() {
            assert forall|k: int| 0 <= k < n implies (#[trigger] before.constraints()[k]).holds(
                before.witness(),
            ) by {
                assert(self.constraints()[k] == before.constraints()[k]);
            }
        }
        if before.satisfied() && c.holds(self.witness()) {
            assert forall|k: int| 0 <= k < self.constraints().len() implies (
            #[trigger] self.constraints()[k]).holds(self.witness()) by {
                if k < n {
                    assert(self.constraints()[k] == before.constraints()[k]);
                }
            }
        }
    }

    /// A system with the constant one and no constraint.
    pub fn new() -> (r: R1cs)
        ensures
            r.wf(),
            r.values().len() == 1,
            r.constraints().len() == 0,
    {
        let mut values: Vec<Option<FieldElement>> = Vec::new();
        values.push(Some(FieldElement::one()));
        R1cs { values, constraints: Vec::new() }
    }

    /// The constant one.
    pub fn one() -> (r: Variable)
        ensures
            r.0 == 0,
    {
        Variable(0)
    }

    /// Allocates a fresh variable with the given value, or with none.
    pub fn allocate(&mut self, value: Option<FieldElement>) -> (r: Variable)
        requires
            old(self).wf(),
            value.is_some() ==> value.unwrap().wf(),
        ensures
            final(self).wf(),
            r.0 == old(self).values().len(),
            final(self).values() == old(self).values().push(value),
            final(self).constraints() == old(self).constraints(),
    {
        let index = self.values.len();
        self.values.push(value);
        proof {
            let n = old(self).values().len();
            assert forall|k: int| 0 <= k < self.constraints().len() implies (
            #[trigger] self.constraints()[k]).wf(self.values().len()) by {
                assert(old(self).constraints()[k].wf(n));
            }
        }
        Variable(index)
    }

    /// Enforces that the product of `a` and `b` equals `c`.
    pub fn enforce(&mut self, a: LinearCombination, b: LinearCombination, c: LinearCombination)
        requires
            old(self).wf(),
            a.wf(old(self).values().len()),
            b.wf(old(self).values().len()),
            c.wf(old(self).values().len()),
        ensures
            final(self).wf(),
            final(self).values() == old(self).values(),
            final(self).constraints() == old(self).constraints().push((Constraint { a, b, c })),
    {
        self.constraints.push(Constraint { a, b, c });
        proof {
            let n = old(self).constraints().len() as int;
            assert forall|k: int| 0 <= k < self.constraints().len() implies (
            #[trigger] self.constraints()[k]).wf(self.values().len()) by {
                if k < n {
                    assert(self.constraints()[k] == old(self).constraints()[k]);
                }
            }
        }
    }

    /// The number of constraints enforced so far.
    pub fn num_constraints(&self) -> (r: usize)
        ensures
            r == self.constraints().len(),
    {
        self.constraints.len()
    }

    /// The number of variables, the constant one included.
    pub fn num_variables(&self) -> (r: usize)
        ensures
            r == self.values().len(),
    {
        self.values.len()
    }

    /// The value of a variable, where it has one.
    pub fn value_of(&self, v: Variable) -> (r: Option<FieldElement>)
        requires
            v.0 < self.values().len(),
        ensures
            r == self.values()[v.0 as int],
    {
        self.values[v.0]
    }

    /// The constraint at position `k`.
    pub fn constraint(&self, k: usize) -> (r: &Constraint)
        requires
            k < self.constraints().len(),
        ensures
            *r == self.constraints()[k as int],
    {
        &self.constraints[k]
    }

    /// Whether every variable has a value and the values meet every
    /// constraint.
    pub fn is_satisfied(&self) -> (r: bool)
        requires
            self.wf(),
        ensures
            r == self.satisfied(),
    {
        let mut w: Vec<FieldElement> = Vec::new();
        let mut i: usize = 0;
        while i < self.values.len()
            invariant
                self.wf(),
                0 <= i <= self.values().len(),
                w@.len() == i,
                forall|j: int| 0 <= j < i ==> (#[trigger] self.values()[j]).is_some(),
                forall|j: int| 0 <= j < i ==> (#[trigger] w@[j]) == self.values()[j].unwrap(),
            decreases self.values().len() - i,
        {
            match self.values[i] {
                Some(f) => {
                    assert(self.values()[i as int] == Some(f));
                    w.push(f);
                },
                None => {
                    assert(!self.values()[i as int].is_some());
                    return false;
                },
            }
            i = i + 1;
        }
        assert(self.assigned());
        assert(representatives(w@) =~= self.witness());
        let mut k: usize = 0;
        while k < self.constraints.len()
            invariant
                self.wf(),
                self.assigned(),
                0 <= k <= self.constraints().len(),
                w@.len() == self.values().len(),
                forall|j: int| 0 <= j < w@.len() ==> (#[trigger] w@[j]).wf(),
                representatives(w@) == self.witness(),
                forall|j: int|
                    0 <= j < k ==> (#[trigger] self.constraints()[j]).holds(self.witness()),
            decreases self.constraints().len() - k,
        {
            let constraint = &self.constraints[k];
            assert(self.constraints()[k as int].wf(self.values().len()));
            let a = constraint.a.evaluate(&w);
            let b = constraint.b.evaluate(&w);
            let c = constraint.c.evaluate(&w);
            if !a.times(&b).equals(&c) {
                assert(!self.constraints()[k as int].holds(self.witness()));
                return false;
            }
            k = k + 1;
        }
        true
    }
}

} // verus!
