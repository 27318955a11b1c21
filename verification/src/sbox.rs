use crate::arith::{
    binary_digits, bits_value, count_ones, lemma_binary_digits_unique, lemma_pow_mod_adds, pow_mod,
};
use crate::error::GadgetError;
use crate::arith::gcd_nat;
use crate::exponent::{
    fr_to_bigint, inverse_exponent, inverse_exponent_of, lemma_five_is_coprime,
    lemma_inverse_exponent, prime_modulus,
};
use crate::fermat::lemma_power_round_trip;
use crate::primes::is_prime;
use crate::field::{bigint_to_fr, modulus, FieldElement};
use crate::integer::Integer;
use crate::num::{gate_added, lemma_product_keeps_satisfied, product_of, AllocatedNum};
use crate::r1cs::{residues, Constraint, LinearCombination, R1cs, Variable};
use vstd::arithmetic::div_mod::{lemma_mod_bound, lemma_small_mod};
use vstd::arithmetic::power::{lemma_pow1, pow};
use vstd::arithmetic::power2::{lemma_pow2_unfold, pow2};
use vstd::prelude::*;

verus! {

/// The binary digits of an exponent, most significant first, without leading
/// zeros.
pub fn get_bits_be(alpha: &FieldElement) -> (r: Vec<bool>)
    requires
        alpha.wf(),
    ensures
        r@ == binary_digits(alpha@ as nat),
        bits_value(r@) == alpha@,
        alpha@ > 0 ==> r@.len() >= 1 && r@[0],
{
    let raw = alpha.bits_be();
    let mut res: Vec<bool> = Vec::new();
    let mut found_one = false;
    let mut i: usize = 0;
    while i < raw.len()
        invariant
            0 <= i <= raw@.len(),
            found_one == (res@.len() > 0),
            res@.len() == 0 || res@[0],
            bits_value(res@) == bits_value(raw@.take(i as int)),
        decreases raw@.len() - i,
    {
        let b = raw[i];
        proof {
            let prefix = raw@.take(i as int + 1);
            assert(prefix.drop_last() == raw@.take(i as int));
            assert(prefix.last() == b);
        }
        found_one = found_one || b;
        if found_one {
            let ghost before = res@;
            res.push(b);
            proof {
                assert(res@.drop_last() == before);
                assert(res@.last() == b);
            }
        }
        i = i + 1;
    }
    proof {
        assert(raw@.take(i as int) == raw@);
        alpha.lemma_view_bounds();
        lemma_binary_digits_unique(res@);
    }
    res
}

/// A power of an optional residue: present when the residue is.
pub open spec fn power_of(a: Option<int>, e: nat) -> Option<int> {
    match a {
        Some(v) => Some(pow_mod(v, e, modulus())),
        None => None,
    }
}

/// The number of gates of the square-and-multiply schedule for the exponent
/// `e`: one squaring for each binary digit after the first, and one
/// multiplication for each digit that is set after the first.
pub open spec fn power_gates(e: nat) -> int {
    binary_digits(e).len() + count_ones(binary_digits(e)) - 2
}

/// The assignment `w` meets the constraints of `cs` at positions `from..to`.
pub open spec fn met_between(cs: R1cs, from: int, to: int, w: Seq<int>) -> bool {
    forall|k: int| from <= k < to ==> (#[trigger] cs.constraints()[k]).holds(w)
}

/// The constraints of `cs` from position `from` on prove that the variable
/// `y` is the `e`-th power of the variable `x`: the relation holds in every
/// assignment of residues that meets them.
pub open spec fn proves_power(cs: R1cs, from: int, x: Variable, y: Variable, e: nat) -> bool {
    forall|w: Seq<int>|
        residues(w, cs.values().len()) && #[trigger] met_between(
            cs,
            from,
            cs.constraints().len() as int,
            w,
        ) ==> w[y.0 as int] == pow_mod(w[x.0 as int], e, modulus())
}

/// What `generate_powers` leaves behind for an exponent above one: `after`
/// is `before` with the gates of the schedule and one variable for each; `y`
/// is the last of these variables and carries the power of the value of `x`;
/// the new gates are met exactly when `x` has a value; and they prove that
/// `y` is the power of `x`.
pub open spec fn powers_built(
    before: R1cs,
    after: R1cs,
    x: AllocatedNum,
    e: nat,
    y: AllocatedNum,
) -> bool {
    &&& after.wf()
    &&& after.extends(&before)
    &&& y.allocated_in(after)
    &&& after.values().len() == before.values().len() + power_gates(e)
    &&& after.constraints().len() == before.constraints().len() + power_gates(e)
    &&& y.variable().0 == after.values().len() - 1
    &&& y.number() == power_of(x.number(), e)
    &&& after.satisfied() == (before.satisfied() && x.number().is_some())
    &&& proves_power(after, before.constraints().len() as int, x.variable(), y.variable(), e)
}

/// A variable is its own first power.
proof fn lemma_proves_first_power(cs: R1cs, from: int, x: Variable)
    requires
        x.0 < cs.values().len(),
    ensures
        proves_power(cs, from, x, x, 1),
{
    assert forall|w: Seq<int>|
        residues(w, cs.values().len()) && #[trigger] met_between(
            cs,
            from,
            cs.constraints().len() as int,
            w,
        ) implies w[x.0 as int] == pow_mod(w[x.0 as int], 1, modulus()) by {
        lemma_pow1(w[x.0 as int]);
        lemma_small_mod(w[x.0 as int] as nat, modulus() as nat);
    }
}

/// What was proved stays proved when a gate is added.
proof fn lemma_proof_kept(
    before: R1cs,
    after: R1cs,
    from: int,
    x: Variable,
    y: Variable,
    e: nat,
    out: AllocatedNum,
)
    requires
        0 <= from,
        proves_power(before, from, x, y, e),
        gate_added(before, after, out),
    ensures
        proves_power(after, from, x, y, e),
{
    assert forall|w: Seq<int>|
        residues(w, after.values().len()) && #[trigger] met_between(
            after,
            from,
            after.constraints().len() as int,
            w,
        ) implies w[y.0 as int] == pow_mod(w[x.0 as int], e, modulus()) by {
        assert forall|k: int| from <= k < before.constraints().len() implies (
        #[trigger] before.constraints()[k]).holds(w) by {
            assert(after.constraints().drop_last()[k] == after.constraints()[k]);
        }
        assert(met_between(before, from, before.constraints().len() as int, w));
    }
}

/// A product gate for two powers of `x` proves the power whose exponent is
/// the sum of theirs.
proof fn lemma_product_proves(
    before: R1cs,
    after: R1cs,
    from: int,
    x: Variable,
    a: AllocatedNum,
    b: AllocatedNum,
    out: AllocatedNum,
    e1: nat,
    e2: nat,
)
    requires
        0 <= from <= before.constraints().len(),
        a.allocated_in(before),
        b.allocated_in(before),
        proves_power(before, from, x, a.variable(), e1),
        proves_power(before, from, x, b.variable(), e2),
        gate_added(before, after, out),
        after.constraints().last().is_product_gate(a.variable(), b.variable(), out.variable()),
    ensures
        proves_power(after, from, x, out.variable(), e1 + e2),
{
    lemma_proof_kept(before, after, from, x, a.variable(), e1, out);
    lemma_proof_kept(before, after, from, x, b.variable(), e2, out);
    assert forall|w: Seq<int>|
        residues(w, after.values().len()) && #[trigger] met_between(
            after,
            from,
            after.constraints().len() as int,
            w,
        ) implies w[out.variable().0 as int] == pow_mod(w[x.0 as int], e1 + e2, modulus()) by {
        let last = after.constraints().len() - 1;
        assert(after.constraints()[last].holds(w));
        after.constraints().last().lemma_product_gate(
            a.variable(),
            b.variable(),
            out.variable(),
            w,
        );
        lemma_pow_mod_adds(w[x.0 as int], e1, e2, modulus());
    }
}

/// The product of two powers of an optional residue.
proof fn lemma_product_of_powers(a: Option<int>, e1: nat, e2: nat)
    ensures
        product_of(power_of(a, e1), power_of(a, e2)) == power_of(a, e1 + e2),
{
    if a.is_some() {
        lemma_pow_mod_adds(a.unwrap(), e1, e2, modulus());
    }
}

/// The variable `s` of `cs` carries the `e`-th power of the value of `x`, and
/// the constraints from position `from` on prove that it is that power.
spec fn tracks_power(cs: R1cs, from: int, x: AllocatedNum, s: AllocatedNum, e: nat) -> bool {
    &&& s.allocated_in(cs)
    &&& s.number() == power_of(x.number(), e)
    &&& proves_power(cs, from, x.variable(), s.variable(), e)
}

/// A number tracks its own first power.
proof fn lemma_tracks_itself(cs: R1cs, from: int, x: AllocatedNum)
    requires
        x.allocated_in(cs),
    ensures
        tracks_power(cs, from, x, x, 1),
{
    lemma_proves_first_power(cs, from, x.variable());
    if x.value().is_some() {
        let v = x.value().unwrap();
        v.lemma_view_bounds();
        lemma_pow1(v@);
        lemma_small_mod(v@ as nat, modulus() as nat);
    }
}

/// What a number tracks, it still tracks when a gate is added.
proof fn lemma_tracks_kept(
    before: R1cs,
    after: R1cs,
    from: int,
    x: AllocatedNum,
    s: AllocatedNum,
    e: nat,
    out: AllocatedNum,
)
    requires
        0 <= from,
        tracks_power(before, from, x, s, e),
        gate_added(before, after, out),
    ensures
        tracks_power(after, from, x, s, e),
{
    lemma_proof_kept(before, after, from, x.variable(), s.variable(), e, out);
    assert(after.values()[s.variable().0 as int] == before.values()[s.variable().0 as int]);
}

/// The output of a product gate for two powers of `x` tracks the power whose
/// exponent is the sum of theirs, and this constraint holds exactly when `x` has a
/// value.
proof fn lemma_tracks_product(
    before: R1cs,
    after: R1cs,
    from: int,
    x: AllocatedNum,
    a: AllocatedNum,
    b: AllocatedNum,
    out: AllocatedNum,
    e1: nat,
    e2: nat,
)
    requires
        before.wf(),
        0 <= from <= before.constraints().len(),
        tracks_power(before, from, x, a, e1),
        tracks_power(before, from, x, b, e2),
        gate_added(before, after, out),
        after.constraints().last().is_product_gate(a.variable(), b.variable(), out.variable()),
        out.number() == product_of(a.number(), b.number()),
    ensures
        tracks_power(after, from, x, out, e1 + e2),
        after.satisfied() == (before.satisfied() && x.number().is_some()),
{
    lemma_product_proves(before, after, from, x.variable(), a, b, out, e1, e2);
    lemma_product_of_powers(x.number(), e1, e2);
    lemma_product_keeps_satisfied(before, after, a, b, out);
}

/// The exponent that the running product has reached after `i` of the binary
/// digits `bits`: the digits read so far, followed by zeros.
spec fn exponent_after(bits: Seq<bool>, i: int) -> nat {
    bits_value(bits.take(i)) * pow2((bits.len() - i) as nat)
}

/// Reading one more digit adds the digit's weight to the exponent reached.
proof fn lemma_exponent_step(bits: Seq<bool>, i: int)
    requires
        0 <= i < bits.len(),
    ensures
        exponent_after(bits, i + 1) == exponent_after(bits, i) + (if bits[i] {
            pow2((bits.len() - 1 - i) as nat)
        } else {
            0
        }),
        count_ones(bits.take(i + 1)) == count_ones(bits.take(i)) + (if bits[i] {
            1nat
        } else {
            0nat
        }),
{
    let prefix = bits.take(i + 1);
    assert(prefix.drop_last() == bits.take(i));
    assert(prefix.last() == bits[i]);
    let v = bits_value(bits.take(i));
    let low = pow2((bits.len() - 1 - i) as nat);
    let high = pow2((bits.len() - i) as nat);
    lemma_pow2_unfold((bits.len() - i) as nat);
    assert(high == 2 * low);
    let d: nat = if bits[i] {
        1
    } else {
        0
    };
    assert(bits_value(prefix) == 2 * v + d);
    assert((2 * v + d) * low == v * (2 * low) + d * low) by (nonlinear_arith);
}

/// An exponent above one has at least two binary digits.
proof fn lemma_two_digits(e: nat)
    requires
        e >= 2,
    ensures
        binary_digits(e).len() >= 2,
{
    assert(binary_digits(e) == binary_digits(e / 2).push(e % 2 == 1));
    assert(e / 2 >= 1);
    assert(binary_digits(e / 2) == binary_digits(e / 2 / 2).push(e / 2 % 2 == 1));
}

/// The root that the inverse S-box assigns to an optional residue: its power
/// to the inverse of `e` modulo the order of the multiplicative group.
pub open spec fn root_of(a: Option<int>, e: nat) -> Option<int> {
    power_of(a, inverse_exponent_of(e, (modulus() - 1) as nat) as nat)
}

/// The value of the root of `x` for the exponent `alpha`, computed outside
/// the constraint system; none where `x` has no value.
pub fn root_witness(x: Option<FieldElement>, alpha: &FieldElement) -> (r: Option<FieldElement>)
    requires
        alpha.wf(),
        x.is_some() ==> x.unwrap().wf(),
    ensures
        r.is_some() == x.is_some(),
        r.is_some() ==> r.unwrap().wf() && Some(r.unwrap()@) == root_of(
            Some(x.unwrap()@),
            alpha@ as nat,
        ),
{
    match x {
        None => None,
        Some(v) => {
            proof {
                alpha.lemma_view_bounds();
                v.lemma_view_bounds();
            }
            let one = Integer::from_i64(1);
            let p = prime_modulus();
            let p_m_1 = p.minus(&one);
            let anti_alpha = inverse_exponent(&fr_to_bigint(*alpha), &p_m_1);
            let a = fr_to_bigint(v);
            let res = a.modpow(&anti_alpha, &p);
            proof {
                lemma_mod_bound(pow(v@, anti_alpha@ as nat), modulus());
                lemma_small_mod(res@ as nat, modulus() as nat);
            }
            bigint_to_fr(&res)
        },
    }
}

/// The number of gates, and of new variables, that the inverse S-box needs
/// for the exponent `e`: those of the forward schedule, whose last
/// multiplication is wired to the argument; for a power of two, which has no
/// multiplication, one more gate ties the last square to the argument.
pub open spec fn root_gates(e: nat) -> int {
    if count_ones(binary_digits(e)) == 1 {
        binary_digits(e).len() as int
    } else {
        binary_digits(e).len() + count_ones(binary_digits(e)) - 2
    }
}

/// The constraints of `cs` from position `from` on prove that the `e`-th
/// power of the variable `root` is the variable `x`: the relation holds in
/// every assignment of residues that gives the constant its value and meets
/// them.
pub open spec fn proves_root(cs: R1cs, from: int, x: Variable, root: Variable, e: nat) -> bool {
    forall|w: Seq<int>|
        residues(w, cs.values().len()) && w[0] == 1 && #[trigger] met_between(
            cs,
            from,
            cs.constraints().len() as int,
            w,
        ) ==> pow_mod(w[root.0 as int], e, modulus()) == w[x.0 as int]
}

/// What `generate_roots` leaves behind for an exponent above one: `after` is
/// `before` with the variable `root` first, then the gates of the schedule;
/// `root` carries the root of the value of `x`; the new gates are met exactly
/// when `x` has a value whose root, raised to `e`, gives it back; and they
/// prove that `root` raised to `e` is `x`.
pub open spec fn roots_built(
    before: R1cs,
    after: R1cs,
    x: AllocatedNum,
    e: nat,
    root: AllocatedNum,
) -> bool {
    &&& after.wf()
    &&& after.extends(&before)
    &&& root.allocated_in(after)
    &&& root.variable().0 == before.values().len()
    &&& after.values().len() == before.values().len() + root_gates(e)
    &&& after.constraints().len() == before.constraints().len() + root_gates(e)
    &&& root.number() == root_of(x.number(), e)
    &&& after.satisfied() == (before.satisfied() && x.number().is_some() && power_of(
        root.number(),
        e,
    ) == x.number())
    &&& proves_root(after, before.constraints().len() as int, x.variable(), root.variable(), e)
}

/// Binary digits that are all zero from position `i` on add nothing to the
/// exponent reached at `i`.
proof fn lemma_zero_tail(bits: Seq<bool>, i: int)
    requires
        0 <= i <= bits.len(),
        forall|j: int| i <= j < bits.len() ==> !bits[j],
    ensures
        exponent_after(bits, i) == bits_value(bits),
        count_ones(bits.take(i)) == count_ones(bits),
    decreases bits.len() - i,
{
    if i == bits.len() {
        assert(bits.take(i) == bits);
        vstd::arithmetic::power2::lemma2_to64();
        assert(exponent_after(bits, i) == bits_value(bits)) by (nonlinear_arith)
            requires
                exponent_after(bits, i) == bits_value(bits) * 1,
        ;
    } else {
        lemma_exponent_step(bits, i);
        lemma_zero_tail(bits, i + 1);
    }
}

/// A product gate for two powers of `root` whose output is the existing
/// variable `x` proves that `root`, raised to the sum of the exponents, is
/// `x`; the values meet it exactly when that holds of them.
proof fn lemma_wired_product(
    prev: R1cs,
    after: R1cs,
    from: int,
    root: AllocatedNum,
    a: AllocatedNum,
    b: AllocatedNum,
    x: AllocatedNum,
    c: Constraint,
    e1: nat,
    e2: nat,
)
    requires
        prev.wf(),
        0 <= from <= prev.constraints().len(),
        tracks_power(prev, from, root, a, e1),
        tracks_power(prev, from, root, b, e2),
        x.allocated_in(prev),
        root.allocated_in(prev),
        after.values() == prev.values(),
        after.constraints() == prev.constraints().push(c),
        c.is_product_gate(a.variable(), b.variable(), x.variable()),
    ensures
        proves_root(after, from, x.variable(), root.variable(), e1 + e2),
        after.satisfied() == (prev.satisfied() && power_of(root.number(), e1 + e2) == x.number()),
{
    let n = prev.constraints().len() as int;
    assert(after.constraints()[n] == c);
    assert forall|w: Seq<int>|
        residues(w, after.values().len()) && w[0] == 1 && #[trigger] met_between(
            after,
            from,
            after.constraints().len() as int,
            w,
        ) implies pow_mod(w[root.variable().0 as int], e1 + e2, modulus()) == w[x.variable().0 as int] by {
        assert forall|k: int| from <= k < n implies (#[trigger] prev.constraints()[k]).holds(
            w,
        ) by {
            assert(after.constraints()[k] == prev.constraints()[k]);
        }
        assert(met_between(prev, from, n, w));
        assert(after.constraints()[n].holds(w));
        c.lemma_product_gate(a.variable(), b.variable(), x.variable(), w);
        lemma_pow_mod_adds(w[root.variable().0 as int], e1, e2, modulus());
    }
    after.lemma_satisfied_with_constraint(&prev, c);
    lemma_product_of_powers(root.number(), e1, e2);
    if prev.satisfied() {
        prev.lemma_witness_residues();
        let w = after.witness();
        assert(w == prev.witness());
        assert(prev.values()[a.variable().0 as int].is_some());
        assert(prev.values()[b.variable().0 as int].is_some());
        assert(prev.values()[x.variable().0 as int].is_some());
        assert(prev.values()[root.variable().0 as int].is_some());
        c.lemma_product_gate(a.variable(), b.variable(), x.variable(), w);
    }
}

/// A gate that multiplies a power of `root` by the constant one, with the
/// existing variable `x` as its output, proves that this power of `root` is
/// `x`; the values meet it exactly when that holds of them.
proof fn lemma_wired_equality(
    prev: R1cs,
    after: R1cs,
    from: int,
    root: AllocatedNum,
    a: AllocatedNum,
    x: AllocatedNum,
    c: Constraint,
    e: nat,
)
    requires
        prev.wf(),
        0 <= from <= prev.constraints().len(),
        tracks_power(prev, from, root, a, e),
        x.allocated_in(prev),
        root.allocated_in(prev),
        after.values() == prev.values(),
        after.constraints() == prev.constraints().push(c),
        c.is_product_gate(a.variable(), Variable(0), x.variable()),
    ensures
        proves_root(after, from, x.variable(), root.variable(), e),
        after.satisfied() == (prev.satisfied() && power_of(root.number(), e) == x.number()),
{
    let n = prev.constraints().len() as int;
    assert(after.constraints()[n] == c);
    assert forall|w: Seq<int>|
        residues(w, after.values().len()) && w[0] == 1 && #[trigger] met_between(
            after,
            from,
            after.constraints().len() as int,
            w,
        ) implies pow_mod(w[root.variable().0 as int], e, modulus()) == w[x.variable().0 as int] by {
        assert forall|k: int| from <= k < n implies (#[trigger] prev.constraints()[k]).holds(
            w,
        ) by {
            assert(after.constraints()[k] == prev.constraints()[k]);
        }
        assert(met_between(prev, from, n, w));
        assert(after.constraints()[n].holds(w));
        c.lemma_product_gate(a.variable(), Variable(0), x.variable(), w);
        let v = w[a.variable().0 as int];
        assert(v * 1 == v);
        lemma_small_mod(v as nat, modulus() as nat);
    }
    after.lemma_satisfied_with_constraint(&prev, c);
    if prev.satisfied() {
        prev.lemma_witness_residues();
        let w = after.witness();
        assert(w == prev.witness());
        assert(prev.values()[a.variable().0 as int].is_some());
        assert(prev.values()[x.variable().0 as int].is_some());
        assert(prev.values()[root.variable().0 as int].is_some());
        c.lemma_product_gate(a.variable(), Variable(0), x.variable(), w);
        let v = w[a.variable().0 as int];
        assert(v * 1 == v);
        lemma_small_mod(v as nat, modulus() as nat);
    }
}

/// The forward S-box: allocates `x` raised to the exponent `alpha` and
/// enforces the gates of the square-and-multiply schedule that prove it. An
/// exponent of zero or one is refused and leaves the system as it was.
pub fn generate_powers(cs: &mut R1cs, x: &AllocatedNum, alpha: &FieldElement) -> (r: Result<
    AllocatedNum,
    GadgetError,
>)
    requires
        old(cs).wf(),
        x.allocated_in(*old(cs)),
        alpha.wf(),
    ensures
        alpha@ <= 1 ==> r == Err::<AllocatedNum, GadgetError>(GadgetError::InvalidExponent)
            && final(cs).values() == old(cs).values() && final(cs).constraints() == old(
            cs,
        ).constraints(),
        alpha@ > 1 ==> r.is_ok() && powers_built(
            *old(cs),
            *final(cs),
            *x,
            alpha@ as nat,
            r.unwrap(),
        ),
{
    if alpha.equals(&FieldElement::zero()) || alpha.equals(&FieldElement::one()) {
        proof {
            alpha.lemma_view_bounds();
        }
        return Err(GadgetError::InvalidExponent);
    }
    proof {
        alpha.lemma_view_bounds();
        lemma_two_digits(alpha@ as nat);
    }
    let bits = get_bits_be(alpha);
    let n = bits.len();
    let ghost before = *cs;
    let ghost from = cs.constraints().len() as int;
    let mut squares: Vec<AllocatedNum> = Vec::new();
    squares.push(*x);
    proof {
        lemma_tracks_itself(*cs, from, *x);
        vstd::arithmetic::power2::lemma2_to64();
        assert(cs.values().take(before.values().len() as int) =~= before.values());
        assert(cs.constraints().take(from) =~= before.constraints());
    }
    let mut i: usize = 1;
    while i < n
        invariant
            1 <= i <= n,
            n == bits@.len(),
            squares@.len() == i,
            cs.wf(),
            cs.extends(&before),
            before.wf(),
            from == before.constraints().len(),
            cs.values().len() == before.values().len() + i - 1,
            cs.constraints().len() == from + i - 1,
            i >= 2 ==> squares@[i - 1].variable().0 == cs.values().len() - 1,
            cs.satisfied() == (before.satisfied() && (i == 1 || x.number().is_some())),
            forall|j: int|
                0 <= j < i ==> tracks_power(*cs, from, *x, #[trigger] squares@[j], pow2(j as nat)),
        decreases n - i,
    {
        let prev = squares[i - 1];
        let ghost step = *cs;
        assert(tracks_power(step, from, *x, squares@[i - 1], pow2((i - 1) as nat)));
        let sq = prev.square(cs);
        proof {
            lemma_tracks_product(
                step,
                *cs,
                from,
                *x,
                prev,
                prev,
                sq,
                pow2((i - 1) as nat),
                pow2((i - 1) as nat),
            );
            lemma_pow2_unfold(i as nat);
            assert forall|j: int| 0 <= j < i implies tracks_power(
                *cs,
                from,
                *x,
                #[trigger] squares@[j],
                pow2(j as nat),
            ) by {
                assert(tracks_power(step, from, *x, squares@[j], pow2(j as nat)));
                lemma_tracks_kept(step, *cs, from, *x, squares@[j], pow2(j as nat), sq);
            }
            cs.lemma_extends_by_gate(&step, &before, sq.value());
        }
        squares.push(sq);
        i = i + 1;
    }
    let mut tmp = squares[n - 1];
    proof {
        let first = bits@.take(1);
        assert(first.drop_last() =~= Seq::<bool>::empty());
        assert(first.last() == bits@[0]);
        assert(bits_value(first.drop_last()) == 0);
        assert(count_ones(first.drop_last()) == 0);
        assert(bits_value(first) == 1);
        assert(count_ones(first) == 1);
        assert(exponent_after(bits@, 1) == pow2((n - 1) as nat)) by (nonlinear_arith)
            requires
                exponent_after(bits@, 1) == 1 * pow2((n - 1) as nat),
        ;
        assert(tracks_power(*cs, from, *x, squares@[n - 1], pow2((n - 1) as nat)));
    }
    let mut i: usize = 1;
    while i < n
        invariant
            1 <= i <= n,
            n == bits@.len(),
            n >= 2,
            squares@.len() == n,
            cs.wf(),
            cs.extends(&before),
            before.wf(),
            from == before.constraints().len(),
            cs.values().len() == before.values().len() + (n - 1) + count_ones(bits@.take(i as int))
                - 1,
            cs.constraints().len() == from + (n - 1) + count_ones(bits@.take(i as int)) - 1,
            cs.satisfied() == (before.satisfied() && x.number().is_some()),
            tmp.variable().0 == cs.values().len() - 1,
            tracks_power(*cs, from, *x, tmp, exponent_after(bits@, i as int)),
            forall|j: int|
                0 <= j < n ==> tracks_power(*cs, from, *x, #[trigger] squares@[j], pow2(j as nat)),
        decreases n - i,
    {
        proof {
            lemma_exponent_step(bits@, i as int);
        }
        if bits[i] {
            let factor = squares[n - 1 - i];
            let ghost step = *cs;
            assert(tracks_power(step, from, *x, squares@[n - 1 - i], pow2((n - 1 - i) as nat)));
            let product = factor.mul(cs, &tmp);
            proof {
                lemma_tracks_product(
                    step,
                    *cs,
                    from,
                    *x,
                    factor,
                    tmp,
                    product,
                    pow2((n - 1 - i) as nat),
                    exponent_after(bits@, i as int),
                );
                assert forall|j: int| 0 <= j < n implies tracks_power(
                    *cs,
                    from,
                    *x,
                    #[trigger] squares@[j],
                    pow2(j as nat),
                ) by {
                    assert(tracks_power(step, from, *x, squares@[j], pow2(j as nat)));
                    lemma_tracks_kept(step, *cs, from, *x, squares@[j], pow2(j as nat), product);
                }
                cs.lemma_extends_by_gate(&step, &before, product.value());
            }
            tmp = product;
        }
        i = i + 1;
    }
    proof {
        assert(bits@.take(n as int) == bits@);
        vstd::arithmetic::power2::lemma2_to64();
        assert(exponent_after(bits@, n as int) == bits_value(bits@)) by (nonlinear_arith)
            requires
                exponent_after(bits@, n as int) == bits_value(bits@) * 1,
        ;
    }
    Ok(tmp)
}

/// The inverse S-box: allocates the root of `x` for the exponent `alpha`,
/// with a value computed outside the constraint system, and enforces the
/// gates that prove that the root raised to `alpha` is `x`. An exponent of
/// zero or one is refused and leaves the system as it was.
pub fn generate_roots(cs: &mut R1cs, x: &AllocatedNum, alpha: &FieldElement) -> (r: Result<
    AllocatedNum,
    GadgetError,
>)
    requires
        old(cs).wf(),
        x.allocated_in(*old(cs)),
        alpha.wf(),
    ensures
        alpha@ <= 1 ==> r == Err::<AllocatedNum, GadgetError>(GadgetError::InvalidExponent)
            && final(cs).values() == old(cs).values() && final(cs).constraints() == old(
            cs,
        ).constraints(),
        alpha@ > 1 ==> r.is_ok() && roots_built(
            *old(cs),
            *final(cs),
            *x,
            alpha@ as nat,
            r.unwrap(),
        ),
{
    if alpha.equals(&FieldElement::zero()) || alpha.equals(&FieldElement::one()) {
        proof {
            alpha.lemma_view_bounds();
        }
        return Err(GadgetError::InvalidExponent);
    }
    proof {
        alpha.lemma_view_bounds();
        lemma_two_digits(alpha@ as nat);
    }
    let ghost before = *cs;
    let ghost from = cs.constraints().len() as int;
    let root = AllocatedNum::allocate(cs, root_witness(x.get_value(), alpha));
    proof {
        cs.lemma_satisfied_with_allocation(&before, root.value());
        lemma_tracks_itself(*cs, from, root);
        vstd::arithmetic::power2::lemma2_to64();
    }
    let bits = get_bits_be(alpha);
    let n = bits.len();
    let mut squares: Vec<AllocatedNum> = Vec::new();
    squares.push(root);
    let mut i: usize = 1;
    while i < n
        invariant
            1 <= i <= n,
            n == bits@.len(),
            squares@.len() == i,
            cs.wf(),
            cs.extends(&before),
            before.wf(),
            x.allocated_in(*cs),
            root.allocated_in(*cs),
            from == before.constraints().len(),
            cs.values().len() == before.values().len() + i,
            cs.constraints().len() == from + i - 1,
            cs.satisfied() == (before.satisfied() && root.number().is_some()),
            forall|j: int|
                0 <= j < i ==> tracks_power(
                    *cs,
                    from,
                    root,
                    #[trigger] squares@[j],
                    pow2(j as nat),
                ),
        decreases n - i,
    {
        let prev = squares[i - 1];
        let ghost step = *cs;
        assert(tracks_power(step, from, root, squares@[i - 1], pow2((i - 1) as nat)));
        let sq = prev.square(cs);
        proof {
            lemma_tracks_product(
                step,
                *cs,
                from,
                root,
                prev,
                prev,
                sq,
                pow2((i - 1) as nat),
                pow2((i - 1) as nat),
            );
            lemma_pow2_unfold(i as nat);
            assert forall|j: int| 0 <= j < i implies tracks_power(
                *cs,
                from,
                root,
                #[trigger] squares@[j],
                pow2(j as nat),
            ) by {
                assert(tracks_power(step, from, root, squares@[j], pow2(j as nat)));
                lemma_tracks_kept(step, *cs, from, root, squares@[j], pow2(j as nat), sq);
            }
            cs.lemma_extends_by_gate(&step, &before, sq.value());
            assert(cs.values()[x.variable().0 as int] == step.values()[x.variable().0 as int]);
            assert(cs.values()[root.variable().0 as int] == step.values()[root.variable().0 as int]);
        }
        squares.push(sq);
        i = i + 1;
    }
    let mut last_m: usize = 0;
    let mut i: usize = 1;
    while i < n
        invariant
            1 <= i <= n,
            n == bits@.len(),
            last_m < i,
            last_m == 0 || bits@[last_m as int],
            forall|j: int| last_m < j < i ==> !bits@[j],
        decreases n - i,
    {
        if bits[i] {
            last_m = i;
        }
        i = i + 1;
    }
    let mut tmp = squares[n - 1];
    proof {
        let first = bits@.take(1);
        assert(first.drop_last() =~= Seq::<bool>::empty());
        assert(first.last() == bits@[0]);
        assert(bits_value(first.drop_last()) == 0);
        assert(count_ones(first.drop_last()) == 0);
        assert(bits_value(first) == 1);
        assert(count_ones(first) == 1);
        assert(exponent_after(bits@, 1) == pow2((n - 1) as nat)) by (nonlinear_arith)
            requires
                exponent_after(bits@, 1) == 1 * pow2((n - 1) as nat),
        ;
        assert(tracks_power(*cs, from, root, squares@[n - 1], pow2((n - 1) as nat)));
    }
    let mut i: usize = 1;
    while i < last_m
        invariant
            1 <= i,
            i <= last_m || i == 1,
            last_m < n,
            count_ones(bits@.take(i as int)) >= 1,
            n == bits@.len(),
            n >= 2,
            squares@.len() == n,
            cs.wf(),
            cs.extends(&before),
            before.wf(),
            x.allocated_in(*cs),
            root.allocated_in(*cs),
            from == before.constraints().len(),
            cs.values().len() == before.values().len() + n + count_ones(bits@.take(i as int))
                - 1,
            cs.constraints().len() == from + (n - 1) + count_ones(bits@.take(i as int)) - 1,
            cs.satisfied() == (before.satisfied() && root.number().is_some()),
            tracks_power(*cs, from, root, tmp, exponent_after(bits@, i as int)),
            forall|j: int|
                0 <= j < n ==> tracks_power(
                    *cs,
                    from,
                    root,
                    #[trigger] squares@[j],
                    pow2(j as nat),
                ),
        decreases last_m - i,
    {
        proof {
            lemma_exponent_step(bits@, i as int);
        }
        if bits[i] {
            let factor = squares[n - 1 - i];
            let ghost step = *cs;
            assert(tracks_power(step, from, root, squares@[n - 1 - i], pow2((n - 1 - i) as nat)));
            let product = factor.mul(cs, &tmp);
            proof {
                lemma_tracks_product(
                    step,
                    *cs,
                    from,
                    root,
                    factor,
                    tmp,
                    product,
                    pow2((n - 1 - i) as nat),
                    exponent_after(bits@, i as int),
                );
                assert forall|j: int| 0 <= j < n implies tracks_power(
                    *cs,
                    from,
                    root,
                    #[trigger] squares@[j],
                    pow2(j as nat),
                ) by {
                    assert(tracks_power(step, from, root, squares@[j], pow2(j as nat)));
                    lemma_tracks_kept(step, *cs, from, root, squares@[j], pow2(j as nat), product);
                }
                cs.lemma_extends_by_gate(&step, &before, product.value());
                assert(cs.values()[x.variable().0 as int] == step.values()[x.variable().0 as int]);
                assert(cs.values()[root.variable().0 as int] == step.values()[root.variable().0 as int]);
            }
            tmp = product;
        }
        i = i + 1;
    }
    let ghost prev = *cs;
    if last_m == 0 {
        let a = LinearCombination::single(tmp.get_variable());
        let b = LinearCombination::single(R1cs::one());
        let c = LinearCombination::single(x.get_variable());
        cs.enforce(a, b, c);
        proof {
            lemma_zero_tail(bits@, 1);
            lemma_wired_equality(
                prev,
                *cs,
                from,
                root,
                tmp,
                *x,
                (Constraint { a, b, c }),
                alpha@ as nat,
            );
        }
    } else {
        let factor = squares[n - 1 - last_m];
        let a = LinearCombination::single(tmp.get_variable());
        let b = LinearCombination::single(factor.get_variable());
        let c = LinearCombination::single(x.get_variable());
        cs.enforce(a, b, c);
        proof {
            lemma_exponent_step(bits@, last_m as int);
            lemma_zero_tail(bits@, last_m + 1);
            assert(tracks_power(
                prev,
                from,
                root,
                squares@[n - 1 - last_m],
                pow2((n - 1 - last_m) as nat),
            ));
            lemma_wired_product(
                prev,
                *cs,
                from,
                root,
                tmp,
                factor,
                *x,
                (Constraint { a, b, c }),
                exponent_after(bits@, last_m as int),
                pow2((n - 1 - last_m) as nat),
            );
        }
    }
    proof {
        assert(cs.values().take(before.values().len() as int) =~= before.values());
        assert(cs.constraints().take(from) =~= before.constraints()) by {
            assert(cs.constraints().take(from) =~= prev.constraints().take(from));
        }
    }
    Ok(root)
}

/// What the constraints from some position on prove, they prove from every
/// earlier position on, and in every system that extends this one.
pub proof fn lemma_proves_power_kept(
    cs: R1cs,
    later: R1cs,
    from: int,
    earlier: int,
    x: Variable,
    y: Variable,
    e: nat,
)
    requires
        0 <= earlier <= from,
        later.extends(&cs),
        proves_power(cs, from, x, y, e),
    ensures
        proves_power(later, earlier, x, y, e),
{
    assert forall|w: Seq<int>|
        residues(w, later.values().len()) && #[trigger] met_between(
            later,
            earlier,
            later.constraints().len() as int,
            w,
        ) implies w[y.0 as int] == pow_mod(w[x.0 as int], e, modulus()) by {
        lemma_met_in_prefix(cs, later, from, earlier, w);
    }
}

/// What the constraints from some position on prove, they prove from every
/// earlier position on, and in every system that extends this one.
pub proof fn lemma_proves_root_kept(
    cs: R1cs,
    later: R1cs,
    from: int,
    earlier: int,
    x: Variable,
    root: Variable,
    e: nat,
)
    requires
        0 <= earlier <= from,
        later.extends(&cs),
        proves_root(cs, from, x, root, e),
    ensures
        proves_root(later, earlier, x, root, e),
{
    assert forall|w: Seq<int>|
        residues(w, later.values().len()) && w[0] == 1 && #[trigger] met_between(
            later,
            earlier,
            later.constraints().len() as int,
            w,
        ) implies pow_mod(w[root.0 as int], e, modulus()) == w[x.0 as int] by {
        lemma_met_in_prefix(cs, later, from, earlier, w);
    }
}

/// An assignment that meets the constraints of a system from some position
/// on meets those of a system that it extends, from every later position on.
pub proof fn lemma_met_in_prefix(cs: R1cs, later: R1cs, from: int, earlier: int, w: Seq<int>)
    requires
        0 <= earlier <= from,
        later.extends(&cs),
        met_between(later, earlier, later.constraints().len() as int, w),
    ensures
        met_between(cs, from, cs.constraints().len() as int, w),
{
    let n = cs.constraints().len() as int;
    assert forall|k: int| from <= k < n implies (#[trigger] cs.constraints()[k]).holds(w) by {
        assert(later.constraints().take(n)[k] == later.constraints()[k]);
        assert(later.constraints()[k].holds(w));
    }
}

/// The two S-boxes undo each other: in a field of prime order, for an
/// exponent coprime to the order of the multiplicative group, the root of a
/// residue raised to the exponent is the residue, and so is the root of the
/// residue raised to the exponent.
pub proof fn lemma_sbox_round_trip(x: int, e: nat)
    requires
        is_prime(modulus()),
        gcd_nat(e, (modulus() - 1) as nat) == 1,
        0 <= x < modulus(),
    ensures
        power_of(root_of(Some(x), e), e) == Some(x),
        root_of(power_of(Some(x), e), e) == Some(x),
{
    let q = (modulus() - 1) as nat;
    let d = inverse_exponent_of(e, q) as nat;
    lemma_inverse_exponent(e, q);
    assert(d * e == e * d) by (nonlinear_arith);
    lemma_power_round_trip(modulus(), x, d, e);
    lemma_power_round_trip(modulus(), x, e, d);
}

/// The two S-boxes undo each other for the exponent five, which `get_alpha`
/// gives, in a field of prime order.
pub proof fn lemma_alpha_round_trip(x: int)
    requires
        is_prime(modulus()),
        0 <= x < modulus(),
    ensures
        power_of(root_of(Some(x), 5), 5) == Some(x),
        root_of(power_of(Some(x), 5), 5) == Some(x),
{
    lemma_five_is_coprime();
    lemma_sbox_round_trip(x, 5);
}

/// The shape of the forward S-box does not depend on the witness: two runs
/// for one exponent add the same number of constraints and of variables,
/// whatever the values of their arguments, present or absent.
pub proof fn lemma_powers_shape(
    before1: R1cs,
    after1: R1cs,
    x1: AllocatedNum,
    y1: AllocatedNum,
    before2: R1cs,
    after2: R1cs,
    x2: AllocatedNum,
    y2: AllocatedNum,
    e: nat,
)
    requires
        powers_built(before1, after1, x1, e, y1),
        powers_built(before2, after2, x2, e, y2),
    ensures
        after1.constraints().len() - before1.constraints().len() == after2.constraints().len()
            - before2.constraints().len(),
        after1.values().len() - before1.values().len() == after2.values().len()
            - before2.values().len(),
{
}

/// The shape of the inverse S-box does not depend on the witness: two runs
/// for one exponent add the same number of constraints and of variables,
/// whatever the values of their arguments, present or absent.
pub proof fn lemma_roots_shape(
    before1: R1cs,
    after1: R1cs,
    x1: AllocatedNum,
    r1: AllocatedNum,
    before2: R1cs,
    after2: R1cs,
    x2: AllocatedNum,
    r2: AllocatedNum,
    e: nat,
)
    requires
        roots_built(before1, after1, x1, e, r1),
        roots_built(before2, after2, x2, e, r2),
    ensures
        after1.constraints().len() - before1.constraints().len() == after2.constraints().len()
            - before2.constraints().len(),
        after1.values().len() - before1.values().len() == after2.values().len()
            - before2.values().len(),
{
}

/// In a field of prime order, for an exponent coprime to the order of the
/// multiplicative group, the gates of the inverse S-box are met whenever the
/// argument has a value and the system was satisfied before.
pub proof fn lemma_roots_satisfied(
    before: R1cs,
    after: R1cs,
    x: AllocatedNum,
    e: nat,
    root: AllocatedNum,
)
    requires
        is_prime(modulus()),
        gcd_nat(e, (modulus() - 1) as nat) == 1,
        before.wf(),
        x.allocated_in(before),
        roots_built(before, after, x, e, root),
    ensures
        after.satisfied() == (before.satisfied() && x.number().is_some()),
{
    if x.number().is_some() {
        x.value().unwrap().lemma_view_bounds();
        lemma_sbox_round_trip(x.number().unwrap(), e);
    }
}

} // verus!
